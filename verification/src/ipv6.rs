//! The textual form of IPv6 addresses: eight colon-separated groups of one
//! to four hexadecimal digits, where one run of groups may be abbreviated by
//! `::` and the last two groups may be written as a dotted IPv4 address
//! (RFC 4291, section 2.2). Zone identifiers and brackets are not part of it.
use vstd::prelude::*;
use crate::text::{
    split_on, all_ascii_digits, decimal_value, char_views, split_chars, sub_chars,
    is_ascii_digit, free_of, lemma_split_on_free, lemma_split_on_sep_then_free, decimal_text,
    lemma_decimal_text, lemma_decimal_text_shape,
};

verus! {

// ---------------------------------------------------------------------------
// Model
// ---------------------------------------------------------------------------
pub open spec fn is_hex_digit(c: char) -> bool {
    ||| is_ascii_digit(c)
    ||| ('a' <= c && c <= 'f')
    ||| ('A' <= c && c <= 'F')
}

pub open spec fn hex_digit_value(c: char) -> nat {
    if is_ascii_digit(c) {
        ((c as int) - ('0' as int)) as nat
    } else if 'a' <= c && c <= 'f' {
        ((c as int) - ('a' as int) + 10) as nat
    } else {
        ((c as int) - ('A' as int) + 10) as nat
    }
}

pub open spec fn all_hex_digits(s: Seq<char>) -> bool {
    forall|i: int| 0 <= i < s.len() ==> is_hex_digit(#[trigger] s[i])
}

/// The number that a string of hexadecimal digits denotes.
pub open spec fn hex_value(s: Seq<char>) -> nat
    decreases s.len(),
{
    if s.len() == 0 {
        0
    } else {
        hex_value(s.drop_last()) * 16 + hex_digit_value(s.last())
    }
}

/// One group: one to four hexadecimal digits, leading zeros allowed.
pub open spec fn hex_group(s: Seq<char>) -> Option<u16> {
    if 1 <= s.len() <= 4 && all_hex_digits(s) {
        Some(hex_value(s) as u16)
    } else {
        None
    }
}

/// One byte of a dotted IPv4 address: one to three decimal digits with no
/// leading zero, at most 255.
pub open spec fn decimal_octet(s: Seq<char>) -> Option<u8> {
    if 1 <= s.len() <= 3 && all_ascii_digits(s) && (s.len() == 1 || s[0] != '0')
        && decimal_value(s) <= 255 {
        Some(decimal_value(s) as u8)
    } else {
        None
    }
}

/// A dotted IPv4 address, as the two 16-bit groups that it stands for.
pub open spec fn dotted_quad_groups(s: Seq<char>) -> Option<Seq<u16>> {
    let p = split_on(s, '.');
    if p.len() == 4 && decimal_octet(p[0]) is Some && decimal_octet(p[1]) is Some
        && decimal_octet(p[2]) is Some && decimal_octet(p[3]) is Some {
        let a = decimal_octet(p[0])->0 as nat;
        let b = decimal_octet(p[1])->0 as nat;
        let c = decimal_octet(p[2])->0 as nat;
        let d = decimal_octet(p[3])->0 as nat;
        Some(seq![(a * 256 + b) as u16, (c * 256 + d) as u16])
    } else {
        None
    }
}

/// The groups of a list of colon-separated fields, all groups of hexadecimal
/// digits, except that the last may be a dotted IPv4 address when
/// `dotted_last` holds.
pub open spec fn field_groups(fields: Seq<Seq<char>>, dotted_last: bool) -> Option<Seq<u16>>
    decreases fields.len(),
{
    if fields.len() == 0 {
        Some(Seq::<u16>::empty())
    } else {
        let front = field_groups(fields.drop_last(), false);
        let last = fields.last();
        let back = if hex_group(last) is Some {
            Some(seq![hex_group(last)->0])
        } else if dotted_last {
            dotted_quad_groups(last)
        } else {
            None
        };
        if front is Some && back is Some {
            Some(front->0 + back->0)
        } else {
            None
        }
    }
}

/// The colon-separated fields of one side of a `::`; none when it is empty.
pub open spec fn side_fields(s: Seq<char>) -> Seq<Seq<char>> {
    if s.len() == 0 {
        Seq::<Seq<char>>::empty()
    } else {
        split_on(s, ':')
    }
}

/// The position of the first `::` in `t` at or after `i`.
pub open spec fn double_colon_from(t: Seq<char>, i: int) -> Option<int>
    decreases t.len() - i,
{
    if i < 0 || i + 1 >= t.len() {
        None
    } else if t[i] == ':' && t[i + 1] == ':' {
        Some(i)
    } else {
        double_colon_from(t, i + 1)
    }
}

pub open spec fn zero_groups(n: int) -> Seq<u16> {
    Seq::new(n as nat, |i: int| 0u16)
}

/// The eight groups that the text `t` denotes, if it is an IPv6 address.
pub open spec fn ipv6_groups(t: Seq<char>) -> Option<Seq<u16>> {
    match double_colon_from(t, 0) {
        None => {
            let g = field_groups(split_on(t, ':'), true);
            if g is Some && g->0.len() == 8 {
                g
            } else {
                None
            }
        },
        Some(k) => {
            let head = field_groups(side_fields(t.subrange(0, k)), false);
            let tail = field_groups(side_fields(t.subrange(k + 2, t.len() as int)), true);
            if head is Some && tail is Some && head->0.len() + tail->0.len() <= 7 {
                Some(head->0 + zero_groups(8 - head->0.len() - tail->0.len()) + tail->0)
            } else {
                None
            }
        },
    }
}

/// The number whose big-endian 16-bit groups are `g`.
pub open spec fn groups_value(g: Seq<u16>) -> nat
    decreases g.len(),
{
    if g.len() == 0 {
        0
    } else {
        groups_value(g.drop_last()) * 65536 + (g.last() as nat)
    }
}

pub open spec fn pow_nat(b: nat, e: nat) -> nat
    decreases e,
{
    if e == 0 {
        1
    } else {
        b * pow_nat(b, (e - 1) as nat)
    }
}

/// The 128-bit address that the text `t` denotes, if it is an IPv6 address
/// (`Ipv6Addr::from_str`).
pub open spec fn ipv6_value(t: Seq<char>) -> Option<u128> {
    match ipv6_groups(t) {
        Some(g) => Some(groups_value(g) as u128),
        None => None,
    }
}

// ---------------------------------------------------------------------------
// Lemmas
// ---------------------------------------------------------------------------
proof fn lemma_step_bound(v: nat, p: nat, b: nat, d: nat)
    by (nonlinear_arith)
    requires
        v < p,
        d < b,
    ensures
        v * b + d < p * b,
{
}

proof fn lemma_field_groups_prefix_none(f: Seq<Seq<char>>, k: int, dotted_last: bool)
    requires
        0 <= k < f.len(),
        field_groups(f.take(k), false) is None,
    ensures
        field_groups(f, dotted_last) is None,
    decreases f.len(),
{
    assert(f.drop_last().take(k) =~= f.take(k));
    if k < f.len() - 1 {
        lemma_field_groups_prefix_none(f.drop_last(), k, false);
    } else {
        assert(f.drop_last() =~= f.take(k));
    }
}

// ---------------------------------------------------------------------------
// The full textual form and reading it back
// ---------------------------------------------------------------------------
/// The lowercase hexadecimal digit for `d`.
pub open spec fn hex_char(d: nat) -> char {
    if d < 10 {
        (('0' as nat) + d) as char
    } else {
        (('a' as nat) + d - 10) as char
    }
}

/// The lowercase hexadecimal text of `v`, without leading zeros.
pub open spec fn hex_text(v: nat) -> Seq<char>
    decreases v,
{
    if v < 16 {
        seq![hex_char(v)]
    } else {
        hex_text(v / 16).push(hex_char(v % 16))
    }
}

/// Groups written out in full, separated by colons, with no `::`.
pub open spec fn groups_text(g: Seq<u16>) -> Seq<char>
    decreases g.len(),
{
    if g.len() == 0 {
        Seq::<char>::empty()
    } else if g.len() == 1 {
        hex_text(g[0] as nat)
    } else {
        groups_text(g.drop_last()) + seq![':'] + hex_text(g.last() as nat)
    }
}

/// The last `n` big-endian 16-bit groups of `v`.
pub open spec fn groups_of(v: nat, n: nat) -> Seq<u16>
    decreases n,
{
    if n == 0 {
        Seq::<u16>::empty()
    } else {
        groups_of(v / 65536, (n - 1) as nat).push((v % 65536) as u16)
    }
}

/// The address written as eight groups, none abbreviated.
pub open spec fn ipv6_full_text(a: u128) -> Seq<char> {
    groups_text(groups_of(a as nat, 8))
}

/// No two colons stand next to each other.
pub open spec fn no_double_colon(t: Seq<char>) -> bool {
    forall|i: int| 0 <= i < t.len() - 1 ==> !(#[trigger] t[i] == ':' && t[i + 1] == ':')
}

/// Every character is a hexadecimal digit or a colon.
pub open spec fn hex_or_colon(t: Seq<char>) -> bool {
    forall|i: int| 0 <= i < t.len() ==> is_hex_digit(#[trigger] t[i]) || t[i] == ':'
}

proof fn lemma_hex_text(v: nat)
    ensures
        hex_text(v).len() >= 1,
        all_hex_digits(hex_text(v)),
        hex_value(hex_text(v)) == v,
        v < 16 ==> hex_text(v).len() == 1,
        v < 256 ==> hex_text(v).len() <= 2,
        v < 4096 ==> hex_text(v).len() <= 3,
        v < 65536 ==> hex_text(v).len() <= 4,
    decreases v,
{
    let t = hex_text(v);
    if v >= 16 {
        lemma_hex_text(v / 16);
        assert(t.drop_last() =~= hex_text(v / 16));
        let d = v % 16;
        if d < 10 {
            assert((hex_char(d) as int) == ('0' as int) + d);
        } else {
            assert((hex_char(d) as int) == ('a' as int) + d - 10);
        }
        assert(t.last() == hex_char(d));
        assert forall|i: int| 0 <= i < t.len() implies is_hex_digit(#[trigger] t[i]) by {
            if i < t.len() - 1 {
                assert(t[i] == hex_text(v / 16)[i]);
            }
        }
        assert((v / 16) * 16 + v % 16 == v);
        assert(hex_value(t) == hex_value(hex_text(v / 16)) * 16 + d);
    } else {
        if v < 10 {
            assert((hex_char(v) as int) == ('0' as int) + v);
        } else {
            assert((hex_char(v) as int) == ('a' as int) + v - 10);
        }
        assert(t.drop_last() =~= Seq::<char>::empty());
        assert(hex_value(t) == hex_value(t.drop_last()) * 16 + hex_digit_value(t.last()));
    }
}

proof fn lemma_groups_text(g: Seq<u16>)
    requires
        g.len() >= 1,
    ensures
        split_on(groups_text(g), ':') == g.map_values(|x: u16| hex_text(x as nat)),
        no_double_colon(groups_text(g)),
        hex_or_colon(groups_text(g)),
        groups_text(g).last() != ':',
        groups_text(g).len() >= 1,
    decreases g.len(),
{
    let h = hex_text(g.last() as nat);
    lemma_hex_text(g.last() as nat);
    assert(free_of(h, ':')) by {
        assert forall|i: int| 0 <= i < h.len() implies h[i] != ':' by {
            assert(is_hex_digit(h[i]));
        }
    }
    if g.len() == 1 {
        lemma_split_on_free(h, ':');
        assert(g.map_values(|x: u16| hex_text(x as nat)) =~= seq![h]);
        assert(g.last() == g[0]);
        assert(h.last() != ':') by {
            assert(is_hex_digit(h[h.len() - 1]));
        }
    } else {
        let s0 = groups_text(g.drop_last());
        lemma_groups_text(g.drop_last());
        lemma_split_on_sep_then_free(s0, h, ':');
        assert(g.map_values(|x: u16| hex_text(x as nat)) =~= g.drop_last().map_values(
            |x: u16| hex_text(x as nat),
        ).push(h));
        let t = s0 + seq![':'] + h;
        assert(t == groups_text(g));
        assert forall|i: int| 0 <= i < t.len() - 1 implies !(#[trigger] t[i] == ':' && t[i + 1]
            == ':') by {
            if i < s0.len() - 1 {
                assert(t[i] == s0[i] && t[i + 1] == s0[i + 1]);
            } else if i == s0.len() - 1 {
                assert(t[i] == s0.last());
            } else if i == s0.len() {
                assert(t[i + 1] == h[0]);
                assert(is_hex_digit(h[0]));
            } else {
                assert(t[i] == h[i - s0.len() - 1]);
                assert(is_hex_digit(h[i - s0.len() - 1]));
            }
        }
        assert forall|i: int| 0 <= i < t.len() implies is_hex_digit(#[trigger] t[i]) || t[i]
            == ':' by {
            if i < s0.len() {
                assert(t[i] == s0[i]);
            } else if i > s0.len() {
                assert(t[i] == h[i - s0.len() - 1]);
            }
        }
        assert(t.last() == h.last());
        assert(is_hex_digit(h[h.len() - 1]));
    }
}

proof fn lemma_field_groups_of_hex_texts(g: Seq<u16>, dotted_last: bool)
    ensures
        field_groups(g.map_values(|x: u16| hex_text(x as nat)), dotted_last) == Some(g),
    decreases g.len(),
{
    let f = g.map_values(|x: u16| hex_text(x as nat));
    if g.len() == 0 {
        assert(f =~= Seq::<Seq<char>>::empty());
        assert(g =~= Seq::<u16>::empty());
    } else {
        lemma_field_groups_of_hex_texts(g.drop_last(), false);
        assert(f.drop_last() =~= g.drop_last().map_values(|x: u16| hex_text(x as nat)));
        lemma_hex_text(g.last() as nat);
        assert(f.last() == hex_text(g.last() as nat));
        assert(hex_group(f.last()) == Some(g.last()));
        assert(g.drop_last() + seq![g.last()] =~= g);
    }
}

proof fn lemma_no_double_colon(t: Seq<char>, i: int)
    requires
        no_double_colon(t),
        0 <= i,
    ensures
        double_colon_from(t, i) is None,
    decreases t.len() - i,
{
    if i + 1 < t.len() {
        assert(!(t[i] == ':' && t[i + 1] == ':'));
        lemma_no_double_colon(t, i + 1);
    }
}

proof fn lemma_groups_of(v: nat, n: nat)
    ensures
        groups_of(v, n).len() == n,
        groups_value(groups_of(v, n)) == v % pow_nat(65536, n),
    decreases n,
{
    if n > 0 {
        lemma_groups_of(v / 65536, (n - 1) as nat);
        let g = groups_of(v, n);
        assert(g.drop_last() =~= groups_of(v / 65536, (n - 1) as nat));
        let p = pow_nat(65536, (n - 1) as nat);
        assert(p > 0) by {
            lemma_pow_positive((n - 1) as nat);
        }
        vstd::arithmetic::div_mod::lemma_mod_breakdown(v as int, 65536, p as int);
        assert(pow_nat(65536, n) == 65536 * p);
    }
}

proof fn lemma_pow_positive(n: nat)
    ensures
        pow_nat(65536, n) > 0,
    decreases n,
{
    if n > 0 {
        lemma_pow_positive((n - 1) as nat);
        lemma_step_bound(0, pow_nat(65536, (n - 1) as nat), 65536, 0);
    }
}

/// An address written as eight full groups reads back as that address.
pub proof fn lemma_full_text_round_trip(a: u128)
    ensures
        ipv6_value(ipv6_full_text(a)) == Some(a),
        hex_or_colon(ipv6_full_text(a)),
{
    let g = groups_of(a as nat, 8);
    lemma_groups_of(a as nat, 8);
    lemma_groups_text(g);
    let t = ipv6_full_text(a);
    lemma_no_double_colon(t, 0);
    lemma_field_groups_of_hex_texts(g, true);
    assert(pow_nat(65536, 8) == 0x1_0000_0000_0000_0000_0000_0000_0000_0000) by {
        reveal_with_fuel(pow_nat, 9);
    }
}

// ---------------------------------------------------------------------------
// The display form (`Ipv6Addr`'s `Display`) and reading it back
// ---------------------------------------------------------------------------
/// A scan of `g` for runs of zero groups, left to right: the first longest
/// run so far and the run that ends at the last group, each as its start
/// and length.
pub open spec fn zero_run_scan(g: Seq<u16>) -> (int, int, int, int)
    decreases g.len(),
{
    if g.len() == 0 {
        (0, 0, 0, 0)
    } else {
        let (bs, bl, cs, cl) = zero_run_scan(g.drop_last());
        if g.last() == 0 {
            let cs2 = if cl == 0 {
                g.len() - 1
            } else {
                cs
            };
            let cl2 = cl + 1;
            if cl2 > bl {
                (cs2, cl2, cs2, cl2)
            } else {
                (bs, bl, cs2, cl2)
            }
        } else {
            (bs, bl, 0, 0)
        }
    }
}

/// An IPv4 address, given as two groups, in dotted decimal.
pub open spec fn dotted_text(hi: u16, lo: u16) -> Seq<char> {
    decimal_text(hi as nat / 256) + seq!['.'] + decimal_text(hi as nat % 256) + seq!['.']
        + decimal_text(lo as nat / 256) + seq!['.'] + decimal_text(lo as nat % 256)
}

/// How `Ipv6Addr` displays `a`: an IPv4-mapped address as `::ffff:`
/// followed by the IPv4 address in dotted decimal; otherwise the groups in
/// lowercase hexadecimal, with the first longest run of two or more zero
/// groups written as `::`.
pub open spec fn ipv6_display_text(a: u128) -> Seq<char> {
    let g = groups_of(a as nat, 8);
    if g[0] == 0 && g[1] == 0 && g[2] == 0 && g[3] == 0 && g[4] == 0 && g[5] == 0xffff {
        seq![':', ':'] + hex_text(0xffff) + seq![':'] + dotted_text(g[6], g[7])
    } else {
        let (start, len, _, _) = zero_run_scan(g);
        if len > 1 {
            groups_text(g.subrange(0, start)) + seq![':', ':'] + groups_text(
                g.subrange(start + len, 8),
            )
        } else {
            groups_text(g)
        }
    }
}

/// Every character is one of those that address text is made of.
pub open spec fn address_chars(t: Seq<char>) -> bool {
    forall|i: int| 0 <= i < t.len() ==> is_hex_digit(#[trigger] t[i]) || t[i] == ':' || t[i] == '.'
}

proof fn lemma_zero_run_scan(g: Seq<u16>)
    ensures
        ({
            let (bs, bl, cs, cl) = zero_run_scan(g);
            &&& 0 <= bs && 0 <= bl && bs + bl <= g.len()
            &&& forall|j: int| bs <= j < bs + bl ==> #[trigger] g[j] == 0
            &&& 0 <= cs && 0 <= cl && cs + cl <= g.len()
            &&& cl > 0 ==> cs + cl == g.len()
            &&& forall|j: int| cs <= j < cs + cl ==> #[trigger] g[j] == 0
        }),
    decreases g.len(),
{
    if g.len() > 0 {
        let p = g.drop_last();
        lemma_zero_run_scan(p);
        let (bs, bl, cs, cl) = zero_run_scan(p);
        assert forall|j: int| 0 <= j < p.len() implies #[trigger] g[j] == p[j] by {}
        assert forall|j: int| bs <= j < bs + bl implies #[trigger] g[j] == 0 by {
            assert(p[j] == 0);
        }
        assert forall|j: int| cs <= j < cs + cl implies #[trigger] g[j] == 0 by {
            assert(p[j] == 0);
        }
    }
}

/// Text with a first `::` at `k`.
proof fn lemma_double_colon_at(t: Seq<char>, k: int, i: int)
    requires
        0 <= i <= k,
        k + 1 < t.len(),
        t[k] == ':' && t[k + 1] == ':',
        no_double_colon(t.subrange(0, k)),
        k == 0 || t[k - 1] != ':',
    ensures
        double_colon_from(t, i) == Some(k),
    decreases k - i,
{
    if i < k {
        if i + 1 < k {
            assert(t.subrange(0, k)[i] == t[i] && t.subrange(0, k)[i + 1] == t[i + 1]);
        }
        lemma_double_colon_at(t, k, i + 1);
    }
}

/// The fields of one side of a `::` written from groups read back as them.
proof fn lemma_side_of_groups(g: Seq<u16>, dotted_last: bool)
    ensures
        field_groups(side_fields(groups_text(g)), dotted_last) == Some(g),
        no_double_colon(groups_text(g)),
        hex_or_colon(groups_text(g)),
        g.len() > 0 ==> groups_text(g).last() != ':',
{
    if g.len() == 0 {
        assert(g =~= Seq::<u16>::empty());
        assert(side_fields(groups_text(g)) =~= Seq::<Seq<char>>::empty());
    } else {
        lemma_groups_text(g);
        lemma_field_groups_of_hex_texts(g, dotted_last);
    }
}

/// Eight groups with zeros at `start .. start + len`, written with `::` in
/// their place, read back as the groups.
proof fn lemma_compressed_round_trip(g: Seq<u16>, start: int, len: int)
    requires
        g.len() == 8,
        0 <= start,
        1 <= len,
        start + len <= 8,
        forall|j: int| start <= j < start + len ==> #[trigger] g[j] == 0,
    ensures
        ipv6_groups(
            groups_text(g.subrange(0, start)) + seq![':', ':'] + groups_text(
                g.subrange(start + len, 8),
            ),
        ) == Some(g),
        address_chars(
            groups_text(g.subrange(0, start)) + seq![':', ':'] + groups_text(
                g.subrange(start + len, 8),
            ),
        ),
{
    let hg = g.subrange(0, start);
    let tg = g.subrange(start + len, 8);
    let h = groups_text(hg);
    let tl = groups_text(tg);
    let t = h + seq![':', ':'] + tl;
    let k = h.len() as int;
    lemma_side_of_groups(hg, false);
    lemma_side_of_groups(tg, true);
    assert(t.subrange(0, k) =~= h);
    assert(t.subrange(k + 2, t.len() as int) =~= tl);
    assert(t[k] == ':' && t[k + 1] == ':');
    if k > 0 {
        assert(hg.len() > 0);
        assert(t[k - 1] == h.last());
    } else {
        assert(hg.len() == 0) by {
            if hg.len() > 0 {
                lemma_groups_text(hg);
            }
        }
    }
    lemma_double_colon_at(t, k, 0);
    assert(hg + zero_groups(8 - hg.len() - tg.len()) + tg =~= g);
    assert forall|i: int| 0 <= i < t.len() implies is_hex_digit(#[trigger] t[i]) || t[i] == ':'
        || t[i] == '.' by {
        if i < k {
            assert(t[i] == h[i]);
        } else if i >= k + 2 {
            assert(t[i] == tl[i - k - 2]);
        }
    }
}

proof fn lemma_octet_text(n: nat)
    requires
        n < 256,
    ensures
        decimal_octet(decimal_text(n)) == Some(n as u8),
        free_of(decimal_text(n), '.'),
        forall|i: int| 0 <= i < decimal_text(n).len() ==> is_ascii_digit(#[trigger] decimal_text(n)[i]),
{
    lemma_decimal_text(n);
    lemma_decimal_text_shape(n);
    let d = decimal_text(n);
    assert forall|i: int| 0 <= i < d.len() implies d[i] != '.' by {
        assert(is_ascii_digit(d[i]));
    }
}

/// An IPv4-mapped address, as it is displayed, reads back as itself.
proof fn lemma_mapped_round_trip(g: Seq<u16>)
    requires
        g.len() == 8,
        g[0] == 0 && g[1] == 0 && g[2] == 0 && g[3] == 0 && g[4] == 0 && g[5] == 0xffff,
    ensures
        ipv6_groups(seq![':', ':'] + hex_text(0xffff) + seq![':'] + dotted_text(g[6], g[7]))
            == Some(g),
        address_chars(seq![':', ':'] + hex_text(0xffff) + seq![':'] + dotted_text(g[6], g[7])),
{
    let f = hex_text(0xffff);
    let a = decimal_text(g[6] as nat / 256);
    let b = decimal_text(g[6] as nat % 256);
    let c = decimal_text(g[7] as nat / 256);
    let d = decimal_text(g[7] as nat % 256);
    let dq = dotted_text(g[6], g[7]);
    let t = seq![':', ':'] + f + seq![':'] + dq;
    lemma_hex_text(0xffff);
    lemma_octet_text(g[6] as nat / 256);
    lemma_octet_text(g[6] as nat % 256);
    lemma_octet_text(g[7] as nat / 256);
    lemma_octet_text(g[7] as nat % 256);
    // the dotted part
    lemma_split_on_free(a, '.');
    lemma_split_on_sep_then_free(a, b, '.');
    lemma_split_on_sep_then_free(a + seq!['.'] + b, c, '.');
    lemma_split_on_sep_then_free(a + seq!['.'] + b + seq!['.'] + c, d, '.');
    assert(split_on(dq, '.') =~= seq![a, b, c, d]);
    assert(dotted_quad_groups(dq) == Some(seq![g[6], g[7]]));
    // the fields after `::`
    assert(free_of(f, ':')) by {
        assert forall|i: int| 0 <= i < f.len() implies f[i] != ':' by {
            assert(is_hex_digit(f[i]));
        }
    }
    assert forall|i: int| 0 <= i < dq.len() implies is_ascii_digit(#[trigger] dq[i]) || dq[i]
        == '.' by {
        let la = a.len() as int;
        let lb = b.len() as int;
        let lc = c.len() as int;
        if i < la {
            assert(dq[i] == a[i]);
        } else if la < i < la + 1 + lb {
            assert(dq[i] == b[i - la - 1]);
        } else if la + 1 + lb < i < la + 2 + lb + lc {
            assert(dq[i] == c[i - la - 2 - lb]);
        } else if la + 2 + lb + lc < i {
            assert(dq[i] == d[i - la - 3 - lb - lc]);
        }
    }
    assert(free_of(dq, ':')) by {
        assert forall|i: int| 0 <= i < dq.len() implies dq[i] != ':' by {
            assert(is_ascii_digit(dq[i]) || dq[i] == '.');
        }
    }
    let tail = f + seq![':'] + dq;
    lemma_split_on_free(f, ':');
    lemma_split_on_sep_then_free(f, dq, ':');
    assert(split_on(tail, ':') =~= seq![f, dq]);
    assert(!(hex_group(dq) is Some)) by {
        assert(dq[a.len() as int] == '.');
    }
    assert(seq![f, dq].drop_last() =~= seq![f]);
    assert(seq![f].drop_last() =~= Seq::<Seq<char>>::empty());
    assert(hex_group(f) == Some(0xffffu16));
    assert(field_groups(seq![f], false) == Some(seq![0xffffu16]));
    assert(field_groups(seq![f, dq], true) == Some(seq![0xffffu16, g[6], g[7]]));
    // the whole text
    assert(t[0] == ':' && t[1] == ':');
    assert(t.subrange(0, 0) =~= Seq::<char>::empty());
    assert(no_double_colon(t.subrange(0, 0)));
    lemma_double_colon_at(t, 0, 0);
    assert(t.subrange(2, t.len() as int) =~= tail);
    assert(side_fields(Seq::<char>::empty()) =~= Seq::<Seq<char>>::empty());
    assert(Seq::<u16>::empty() + zero_groups(5) + seq![0xffffu16, g[6], g[7]] =~= g);
    assert forall|i: int| 0 <= i < t.len() implies is_hex_digit(#[trigger] t[i]) || t[i] == ':'
        || t[i] == '.' by {
        let lf = f.len() as int;
        if 2 <= i < 2 + lf {
            assert(t[i] == f[i - 2]);
        } else if i > 2 + lf {
            assert(t[i] == dq[i - 3 - lf]);
        }
    }
}

/// Every address, as `Ipv6Addr` displays it, reads back as that address.
pub proof fn lemma_display_round_trip(a: u128)
    ensures
        ipv6_value(ipv6_display_text(a)) == Some(a),
        address_chars(ipv6_display_text(a)),
{
    let g = groups_of(a as nat, 8);
    lemma_groups_of(a as nat, 8);
    assert(pow_nat(65536, 8) == 0x1_0000_0000_0000_0000_0000_0000_0000_0000) by {
        reveal_with_fuel(pow_nat, 9);
    }
    assert(groups_value(g) == a);
    if g[0] == 0 && g[1] == 0 && g[2] == 0 && g[3] == 0 && g[4] == 0 && g[5] == 0xffff {
        lemma_mapped_round_trip(g);
    } else {
        lemma_zero_run_scan(g);
        let (start, len, _, _) = zero_run_scan(g);
        if len > 1 {
            lemma_compressed_round_trip(g, start, len);
        } else {
            lemma_full_text_round_trip(a);
            assert forall|i: int| 0 <= i < ipv6_display_text(a).len() implies is_hex_digit(
                #[trigger] ipv6_display_text(a)[i],
            ) || ipv6_display_text(a)[i] == ':' || ipv6_display_text(a)[i] == '.' by {
                assert(hex_or_colon(ipv6_full_text(a)));
            }
        }
    }
}

// ---------------------------------------------------------------------------
// Executable parsing
// ---------------------------------------------------------------------------
fn hex_digit(c: char) -> (r: Option<u32>)
    ensures
        r is Some <==> is_hex_digit(c),
        r matches Some(v) ==> v == hex_digit_value(c) && v < 16,
{
    if '0' <= c && c <= '9' {
        Some((c as u32) - ('0' as u32))
    } else if 'a' <= c && c <= 'f' {
        Some((c as u32) - ('a' as u32) + 10)
    } else if 'A' <= c && c <= 'F' {
        Some((c as u32) - ('A' as u32) + 10)
    } else {
        None
    }
}

/// One group of hexadecimal digits.
fn parse_hex_group(s: &Vec<char>) -> (r: Option<u16>)
    ensures
        r == hex_group(s@),
{
    if s.len() < 1 || s.len() > 4 {
        return None;
    }
    let mut acc: u32 = 0;
    let mut i: usize = 0;
    assert(s@.take(0) =~= Seq::<char>::empty());
    while i < s.len()
        invariant
            i <= s.len() <= 4,
            all_hex_digits(s@.take(i as int)),
            acc == hex_value(s@.take(i as int)),
            acc < pow_nat(16, i as nat),
        decreases s.len() - i,
    {
        let d = hex_digit(s[i]);
        match d {
            None => {
                assert(!all_hex_digits(s@));
                return None;
            },
            Some(v) => {
                let ghost next = s@.take(i + 1);
                assert(next.drop_last() =~= s@.take(i as int));
                proof {
                    lemma_step_bound(acc as nat, pow_nat(16, i as nat), 16, v as nat);
                    assert(pow_nat(16, 4) == 65536) by {
                        reveal_with_fuel(pow_nat, 5);
                    }
                    if i < 4 {
                        assert(pow_nat(16, i as nat) <= 4096) by {
                            reveal_with_fuel(pow_nat, 5);
                        }
                    }
                }
                acc = acc * 16 + v;
                i = i + 1;
            },
        }
    }
    assert(s@.take(i as int) =~= s@);
    Some(acc as u16)
}

/// One byte of a dotted IPv4 address.
fn parse_octet(s: &Vec<char>) -> (r: Option<u8>)
    ensures
        r == decimal_octet(s@),
{
    if s.len() < 1 || s.len() > 3 {
        return None;
    }
    if s.len() > 1 && s[0] == '0' {
        return None;
    }
    let mut acc: u32 = 0;
    let mut i: usize = 0;
    assert(s@.take(0) =~= Seq::<char>::empty());
    while i < s.len()
        invariant
            i <= s.len() <= 3,
            all_ascii_digits(s@.take(i as int)),
            acc == decimal_value(s@.take(i as int)),
            acc < pow_nat(10, i as nat),
        decreases s.len() - i,
    {
        let c = s[i];
        if !('0' <= c && c <= '9') {
            assert(!all_ascii_digits(s@));
            return None;
        }
        let ghost next = s@.take(i + 1);
        assert(next.drop_last() =~= s@.take(i as int));
        let v = (c as u32) - ('0' as u32);
        proof {
            lemma_step_bound(acc as nat, pow_nat(10, i as nat), 10, v as nat);
            if i < 3 {
                assert(pow_nat(10, i as nat) <= 100) by {
                    reveal_with_fuel(pow_nat, 4);
                }
            }
        }
        acc = acc * 10 + v;
        i = i + 1;
    }
    assert(s@.take(i as int) =~= s@);
    if acc > 255 {
        return None;
    }
    Some(acc as u8)
}

/// A dotted IPv4 address as two 16-bit groups.
fn parse_dotted_quad(s: &Vec<char>) -> (r: Option<(u16, u16)>)
    ensures
        match dotted_quad_groups(s@) {
            Some(g) => r == Some((g[0], g[1])),
            None => r is None,
        },
{
    let p = split_chars(s, '.');
    if p.len() != 4 {
        return None;
    }
    assert(p@[0]@ == split_on(s@, '.')[0]);
    assert(p@[1]@ == split_on(s@, '.')[1]);
    assert(p@[2]@ == split_on(s@, '.')[2]);
    assert(p@[3]@ == split_on(s@, '.')[3]);
    let a = parse_octet(&p[0]);
    let b = parse_octet(&p[1]);
    let c = parse_octet(&p[2]);
    let d = parse_octet(&p[3]);
    match (a, b, c, d) {
        (Some(a), Some(b), Some(c), Some(d)) => {
            let hi = (a as u16) * 256 + (b as u16);
            let lo = (c as u16) * 256 + (d as u16);
            Some((hi, lo))
        },
        _ => None,
    }
}

/// The groups of colon-separated fields (see `field_groups`).
fn parse_field_groups(fields: &Vec<Vec<char>>, dotted_last: bool) -> (r: Option<Vec<u16>>)
    ensures
        match field_groups(char_views(fields@), dotted_last) {
            Some(g) => r is Some && r->0@ == g,
            None => r is None,
        },
{
    let ghost f = char_views(fields@);
    let mut out: Vec<u16> = Vec::new();
    if fields.len() == 0 {
        return Some(out);
    }
    let n = fields.len() - 1;
    let mut i: usize = 0;
    assert(f.take(0) =~= Seq::<Seq<char>>::empty());
    while i < n
        invariant
            i <= n,
            n + 1 == fields.len(),
            f == char_views(fields@),
            field_groups(f.take(i as int), false) == Some(out@),
        decreases n - i,
    {
        let g = parse_hex_group(&fields[i]);
        let ghost next = f.take(i + 1);
        assert(next.drop_last() =~= f.take(i as int));
        assert(next.last() == fields@[i as int]@);
        match g {
            None => {
                proof {
                    lemma_field_groups_prefix_none(f, i + 1, dotted_last);
                }
                return None;
            },
            Some(v) => {
                out.push(v);
                assert(out@ =~= field_groups(f.take(i as int), false)->0 + seq![v]);
            },
        }
        i = i + 1;
    }
    assert(f.drop_last() =~= f.take(n as int));
    assert(f.last() == fields@[n as int]@);
    let last = &fields[n];
    match parse_hex_group(last) {
        Some(v) => {
            out.push(v);
            assert(out@ =~= field_groups(f.take(n as int), false)->0 + seq![v]);
            Some(out)
        },
        None => {
            if !dotted_last {
                return None;
            }
            match parse_dotted_quad(last) {
                Some((hi, lo)) => {
                    out.push(hi);
                    out.push(lo);
                    assert(out@ =~= field_groups(f.take(n as int), false)->0 + seq![hi, lo]);
                    Some(out)
                },
                None => None,
            }
        },
    }
}

/// The colon-separated fields of one side of a `::`.
fn split_side(s: &Vec<char>) -> (r: Vec<Vec<char>>)
    ensures
        char_views(r@) == side_fields(s@),
{
    if s.len() == 0 {
        let r: Vec<Vec<char>> = Vec::new();
        assert(char_views(r@) =~= Seq::<Seq<char>>::empty());
        r
    } else {
        split_chars(s, ':')
    }
}

/// The position of the first `::` in `t`.
fn find_double_colon(t: &Vec<char>) -> (r: Option<usize>)
    ensures
        match r {
            Some(k) => double_colon_from(t@, 0) == Some(k as int),
            None => double_colon_from(t@, 0) is None,
        },
        r matches Some(k) ==> k + 2 <= t.len(),
{
    let mut i: usize = 0;
    while i < t.len() && i + 1 < t.len()
        invariant
            i <= t.len(),
            double_colon_from(t@, 0) == double_colon_from(t@, i as int),
        decreases t.len() - i,
    {
        if t[i] == ':' && t[i + 1] == ':' {
            return Some(i);
        }
        i = i + 1;
    }
    None
}

/// The number whose big-endian 16-bit groups are the eight groups `g`.
fn groups_to_u128(g: &Vec<u16>) -> (r: u128)
    requires
        g.len() == 8,
    ensures
        r == groups_value(g@),
{
    let mut acc: u128 = 0;
    let mut i: usize = 0;
    assert(g@.take(0) =~= Seq::<u16>::empty());
    while i < 8
        invariant
            i <= 8,
            g.len() == 8,
            acc == groups_value(g@.take(i as int)),
            acc < pow_nat(65536, i as nat),
        decreases 8 - i,
    {
        let ghost next = g@.take(i + 1);
        assert(next.drop_last() =~= g@.take(i as int));
        proof {
            lemma_step_bound(acc as nat, pow_nat(65536, i as nat), 65536, g[i as int] as nat);
            assert(pow_nat(65536, 7) == 0x1_0000_0000_0000_0000_0000_0000_0000u128) by {
                reveal_with_fuel(pow_nat, 8);
            }
            assert(pow_nat(65536, i as nat) <= pow_nat(65536, 7)) by {
                reveal_with_fuel(pow_nat, 8);
            }
        }
        acc = acc * 65536 + g[i] as u128;
        i = i + 1;
    }
    assert(g@.take(8) =~= g@);
    acc
}

/// The eight groups of an abbreviated address: `h`, then zeros, then `tl`.
fn fill_zeros(h: Vec<u16>, tl: &Vec<u16>) -> (r: Vec<u16>)
    requires
        h.len() + tl.len() <= 7,
    ensures
        r@ == h@ + zero_groups(8 - h.len() - tl.len()) + tl@,
        r.len() == 8,
{
    let zeros = 8 - h.len() - tl.len();
    let mut all = h;
    let mut j: usize = 0;
    let ghost hv = all@;
    while j < zeros
        invariant
            j <= zeros,
            all@ == hv + zero_groups(j as int),
        decreases zeros - j,
    {
        all.push(0);
        assert(all@ =~= hv + zero_groups(j + 1));
        j = j + 1;
    }
    let mut j: usize = 0;
    let ghost mid = all@;
    while j < tl.len()
        invariant
            j <= tl.len(),
            all@ == mid + tl@.take(j as int),
        decreases tl.len() - j,
    {
        all.push(tl[j]);
        assert(all@ =~= mid + tl@.take(j + 1));
        j = j + 1;
    }
    assert(tl@.take(tl.len() as int) =~= tl@);
    all
}

/// An address written with `::` at position `k`.
fn parse_abbreviated(t: &Vec<char>, k: usize) -> (r: Option<u128>)
    requires
        k + 2 <= t.len(),
        double_colon_from(t@, 0) == Some(k as int),
    ensures
        r == ipv6_value(t@),
{
    let head_text = sub_chars(t, 0, k);
    let tail_text = sub_chars(t, k + 2, t.len());
    let head = parse_field_groups(&split_side(&head_text), false);
    let tail = parse_field_groups(&split_side(&tail_text), true);
    match (head, tail) {
        (Some(h), Some(tl)) => {
            if h.len() > 7 || tl.len() > 7 - h.len() {
                return None;
            }
            let all = fill_zeros(h, &tl);
            Some(groups_to_u128(&all))
        },
        _ => None,
    }
}

/// `Ipv6Addr::from_str` on the characters of `t`.
pub fn parse_ipv6(t: &Vec<char>) -> (r: Option<u128>)
    ensures
        r == ipv6_value(t@),
{
    match find_double_colon(t) {
        None => {
            let fields = split_chars(t, ':');
            match parse_field_groups(&fields, true) {
                Some(g) => {
                    if g.len() != 8 {
                        return None;
                    }
                    Some(groups_to_u128(&g))
                },
                None => None,
            }
        },
        Some(k) => parse_abbreviated(t, k),
    }
}

} // verus!

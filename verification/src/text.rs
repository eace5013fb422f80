//! Character-level text handling shared by the parsers: splitting on a
//! separator, splitting on Unicode white space, decimal numbers, and the
//! conversions between `&str`, `String` and `Vec<char>`.
use vstd::prelude::*;

verus! {

// ---------------------------------------------------------------------------
// Models
// ---------------------------------------------------------------------------
/// The pieces of `s` between occurrences of `sep`, as `str::split` yields
/// them: there is always at least one piece, and empty pieces are kept.
pub open spec fn split_on<A>(s: Seq<A>, sep: A) -> Seq<Seq<A>>
    decreases s.len(),
{
    if s.len() == 0 {
        seq![Seq::<A>::empty()]
    } else {
        let prev = split_on(s.drop_last(), sep);
        if s.last() == sep {
            prev.push(Seq::<A>::empty())
        } else {
            prev.update(prev.len() - 1, prev.last().push(s.last()))
        }
    }
}

/// `char::is_whitespace`: the code points with the Unicode `White_Space`
/// property.
pub open spec fn is_white_space(c: char) -> bool {
    ||| c == ' '
    ||| ('\u{9}' <= c && c <= '\u{d}')
    ||| c == '\u{85}'
    ||| c == '\u{a0}'
    ||| c == '\u{1680}'
    ||| ('\u{2000}' <= c && c <= '\u{200a}')
    ||| c == '\u{2028}'
    ||| c == '\u{2029}'
    ||| c == '\u{202f}'
    ||| c == '\u{205f}'
    ||| c == '\u{3000}'
}

/// The maximal runs of non-white-space characters of `s`, in order, as
/// `str::split_whitespace` yields them.
pub open spec fn words(s: Seq<char>) -> Seq<Seq<char>>
    decreases s.len(),
{
    if s.len() == 0 {
        Seq::<Seq<char>>::empty()
    } else {
        let prev = words(s.drop_last());
        let c = s.last();
        if is_white_space(c) {
            prev
        } else if s.len() == 1 || is_white_space(s[s.len() - 2]) {
            prev.push(seq![c])
        } else {
            prev.update(prev.len() - 1, prev.last().push(c))
        }
    }
}

pub open spec fn is_ascii_digit(c: char) -> bool {
    '0' <= c && c <= '9'
}

pub open spec fn all_ascii_digits(s: Seq<char>) -> bool {
    forall|i: int| 0 <= i < s.len() ==> is_ascii_digit(#[trigger] s[i])
}

/// The number that a string of decimal digits denotes.
pub open spec fn decimal_value(s: Seq<char>) -> nat
    decreases s.len(),
{
    if s.len() == 0 {
        0
    } else {
        decimal_value(s.drop_last()) * 10 + ((s.last() as int) - ('0' as int)) as nat
    }
}

/// `u32::from_str`: an optional `+`, then one or more ASCII digits whose
/// value fits in a `u32`.
pub open spec fn decimal_u32(t: Seq<char>) -> Option<u32> {
    let digits = if t.len() > 0 && t[0] == '+' {
        t.drop_first()
    } else {
        t
    };
    if digits.len() > 0 && all_ascii_digits(digits) && decimal_value(digits) <= u32::MAX {
        Some(decimal_value(digits) as u32)
    } else {
        None
    }
}

/// The character views of a vector of character vectors.
pub open spec fn char_views(v: Seq<Vec<char>>) -> Seq<Seq<char>> {
    v.map_values(|x: Vec<char>| x@)
}

// ---------------------------------------------------------------------------
// Lemmas
// ---------------------------------------------------------------------------
/// A string whose last character is not white space has at least one word.
pub proof fn lemma_words_nonempty(s: Seq<char>)
    requires
        s.len() > 0,
        !is_white_space(s.last()),
    ensures
        words(s).len() >= 1,
    decreases s.len(),
{
    if s.len() > 1 && !is_white_space(s[s.len() - 2]) {
        lemma_words_nonempty(s.drop_last());
    }
}

/// `t` holds no white space.
pub open spec fn no_white_space(t: Seq<char>) -> bool {
    forall|i: int| 0 <= i < t.len() ==> !is_white_space(#[trigger] t[i])
}

/// A run of non-white-space text after white space (or at the start) is
/// one more word.
pub proof fn lemma_words_append_run(s: Seq<char>, t: Seq<char>)
    requires
        t.len() > 0,
        no_white_space(t),
        s.len() == 0 || is_white_space(s.last()),
    ensures
        words(s + t) == words(s).push(t),
    decreases t.len(),
{
    let st = s + t;
    assert(st.last() == t.last());
    assert(!is_white_space(t[t.len() - 1]));
    if t.len() == 1 {
        assert(st.drop_last() =~= s);
        assert(t =~= seq![t.last()]);
        if s.len() > 0 {
            assert(st[st.len() - 2] == s.last());
        }
    } else {
        let t0 = t.drop_last();
        assert(no_white_space(t0));
        lemma_words_append_run(s, t0);
        assert(st.drop_last() =~= s + t0);
        assert(st[st.len() - 2] == t0.last());
        assert(!is_white_space(t[t.len() - 2]));
        let w = words(s).push(t0);
        assert(t0.push(t.last()) =~= t);
        assert(w.update(w.len() - 1, t0.push(t.last())) =~= words(s).push(t));
    }
}

/// White space after text adds no word.
pub proof fn lemma_words_append_space(s: Seq<char>, c: char)
    requires
        is_white_space(c),
    ensures
        words(s.push(c)) == words(s),
{
    assert(s.push(c).drop_last() =~= s);
}

/// Two runs of non-white-space text with one white-space character between
/// them are two words.
pub proof fn lemma_two_words(a: Seq<char>, c: char, b: Seq<char>)
    requires
        a.len() > 0,
        b.len() > 0,
        no_white_space(a),
        no_white_space(b),
        is_white_space(c),
    ensures
        words(a + seq![c] + b) == seq![a, b],
{
    lemma_words_append_run(Seq::<char>::empty(), a);
    assert(Seq::<char>::empty() + a =~= a);
    assert(words(Seq::<char>::empty()) =~= Seq::<Seq<char>>::empty());
    lemma_words_append_space(a, c);
    assert(a + seq![c] =~= a.push(c));
    lemma_words_append_run(a + seq![c], b);
    assert(seq![a].push(b) =~= seq![a, b]);
}

/// Appending digits never makes a decimal number smaller.
pub proof fn lemma_decimal_value_monotone(s: Seq<char>, k: int)
    requires
        0 <= k <= s.len(),
        all_ascii_digits(s),
    ensures
        decimal_value(s.take(k)) <= decimal_value(s),
    decreases s.len(),
{
    if k < s.len() {
        assert(all_ascii_digits(s.drop_last()));
        assert(s.drop_last().take(k) =~= s.take(k));
        lemma_decimal_value_monotone(s.drop_last(), k);
    } else {
        assert(s.take(k) =~= s);
    }
}

/// `s` holds no occurrence of `sep`.
pub open spec fn free_of<A>(s: Seq<A>, sep: A) -> bool {
    forall|i: int| 0 <= i < s.len() ==> s[i] != sep
}

/// The decimal digit for `d`.
pub open spec fn digit_char(d: nat) -> char {
    (('0' as nat) + d) as char
}

/// The decimal text of `n`, without leading zeros.
pub open spec fn decimal_text(n: nat) -> Seq<char>
    decreases n,
{
    if n < 10 {
        seq![digit_char(n)]
    } else {
        decimal_text(n / 10).push(digit_char(n % 10))
    }
}

pub proof fn lemma_split_on_len<A>(s: Seq<A>, sep: A)
    ensures
        split_on(s, sep).len() >= 1,
    decreases s.len(),
{
    if s.len() > 0 {
        lemma_split_on_len(s.drop_last(), sep);
    }
}

/// Appending text without a separator lengthens the last piece.
pub proof fn lemma_split_on_append_free<A>(s: Seq<A>, t: Seq<A>, sep: A)
    requires
        free_of(t, sep),
    ensures
        split_on(s + t, sep) == split_on(s, sep).update(
            split_on(s, sep).len() - 1,
            split_on(s, sep).last() + t,
        ),
    decreases t.len(),
{
    lemma_split_on_len(s, sep);
    let p = split_on(s, sep);
    if t.len() == 0 {
        assert(s + t =~= s);
        assert(p.last() + t =~= p.last());
        assert(p.update(p.len() - 1, p.last() + t) =~= p);
    } else {
        let t0 = t.drop_last();
        assert(free_of(t0, sep));
        lemma_split_on_append_free(s, t0, sep);
        assert((s + t).drop_last() =~= s + t0);
        assert((s + t).last() == t.last());
        assert((p.last() + t0).push(t.last()) =~= p.last() + t);
        assert(p.update(p.len() - 1, p.last() + t0).update(p.len() - 1, p.last() + t) =~= p.update(
            p.len() - 1,
            p.last() + t,
        ));
    }
}

/// A separator then text without one adds a piece.
pub proof fn lemma_split_on_sep_then_free<A>(s: Seq<A>, t: Seq<A>, sep: A)
    requires
        free_of(t, sep),
    ensures
        split_on(s + seq![sep] + t, sep) == split_on(s, sep).push(t),
{
    let s1 = s + seq![sep];
    assert(s1.drop_last() =~= s);
    assert(s1.last() == sep);
    lemma_split_on_append_free(s1, t, sep);
    let p = split_on(s, sep).push(Seq::<A>::empty());
    assert(Seq::<A>::empty() + t =~= t);
    assert(p.update(p.len() - 1, p.last() + t) =~= split_on(s, sep).push(t));
}

/// Text without a separator is one piece.
pub proof fn lemma_split_on_free<A>(t: Seq<A>, sep: A)
    requires
        free_of(t, sep),
    ensures
        split_on(t, sep) == seq![t],
{
    lemma_split_on_append_free(Seq::<A>::empty(), t, sep);
    assert(Seq::<A>::empty() + t =~= t);
    assert(seq![Seq::<A>::empty()].update(0, Seq::<A>::empty() + t) =~= seq![t]);
}

/// The decimal text of `n` is a run of digits that denotes `n`.
pub proof fn lemma_decimal_text(n: nat)
    ensures
        decimal_text(n).len() >= 1,
        all_ascii_digits(decimal_text(n)),
        decimal_value(decimal_text(n)) == n,
    decreases n,
{
    if n >= 10 {
        lemma_decimal_text(n / 10);
        let t = decimal_text(n);
        assert(t.drop_last() =~= decimal_text(n / 10));
        assert forall|i: int| 0 <= i < t.len() implies is_ascii_digit(#[trigger] t[i]) by {
            if i < t.len() - 1 {
                assert(t[i] == decimal_text(n / 10)[i]);
            }
        }
        assert((digit_char(n % 10) as int) == ('0' as int) + n % 10);
        assert((n / 10) * 10 + n % 10 == n);
        assert(t.last() == digit_char(n % 10));
        assert(decimal_value(t) == decimal_value(decimal_text(n / 10)) * 10 + n % 10);
    } else {
        assert((digit_char(n) as int) == ('0' as int) + n);
        let t = decimal_text(n);
        assert(t.drop_last() =~= Seq::<char>::empty());
        assert(decimal_value(t) == decimal_value(t.drop_last()) * 10 + n);
    }
}

/// The decimal text of `n` has no leading zero and one digit per power of
/// ten.
pub proof fn lemma_decimal_text_shape(n: nat)
    ensures
        n > 0 ==> decimal_text(n)[0] != '0',
        n < 10 ==> decimal_text(n).len() == 1,
        n < 100 ==> decimal_text(n).len() <= 2,
        n < 1000 ==> decimal_text(n).len() <= 3,
    decreases n,
{
    if n >= 10 {
        lemma_decimal_text_shape(n / 10);
        lemma_decimal_text(n / 10);
        assert(decimal_text(n)[0] == decimal_text(n / 10)[0]);
    } else {
        assert((digit_char(n) as int) == ('0' as int) + n);
    }
}

/// The decimal text of a `u32` reads back as that number.
pub proof fn lemma_decimal_u32_of_text(n: u32)
    ensures
        decimal_u32(decimal_text(n as nat)) == Some(n),
{
    lemma_decimal_text(n as nat);
    let t = decimal_text(n as nat);
    assert(is_ascii_digit(t[0]));
}

// ---------------------------------------------------------------------------
// Trusted std calls
// ---------------------------------------------------------------------------
/// `String::push`: appends one character to the string.
#[verifier::external_body]
fn push_char(s: &mut String, c: char)
    ensures
        final(s)@ == old(s)@.push(c),
{
    s.push(c);
}

/// `String::from_utf8`: `Some` exactly when the bytes are well-formed UTF-8,
/// and then the string that they encode.
#[verifier::external_body]
pub(crate) fn string_from_utf8(bytes: Vec<u8>) -> (r: Option<String>)
    ensures
        r is Some <==> vstd::utf8::valid_utf8(bytes@),
        r matches Some(s) ==> s@ == vstd::utf8::decode_utf8(bytes@),
{
    String::from_utf8(bytes).ok()
}

// ---------------------------------------------------------------------------
// Executable functions
// ---------------------------------------------------------------------------
/// The characters of `s`.
pub fn chars_of(s: &str) -> (v: Vec<char>)
    ensures
        v@ == s@,
{
    let mut v: Vec<char> = Vec::new();
    for c in it: s.chars()
        invariant
            v@ == it.seq().take(it.index() as int),
    {
        v.push(c);
    }
    v
}

/// The string made of the given characters.
pub fn string_from_chars(chars: &Vec<char>) -> (s: String)
    ensures
        s@ == chars@,
{
    let mut s = String::new();
    let mut i: usize = 0;
    while i < chars.len()
        invariant
            i <= chars.len(),
            s@ == chars@.take(i as int),
        decreases chars.len() - i,
    {
        push_char(&mut s, chars[i]);
        assert(chars@.take(i as int + 1) =~= chars@.take(i as int).push(chars@[i as int]));
        i = i + 1;
    }
    assert(chars@.take(chars.len() as int) =~= chars@);
    s
}

/// Whether two character sequences are equal.
pub fn chars_equal(a: &Vec<char>, b: &Vec<char>) -> (r: bool)
    ensures
        r == (a@ == b@),
{
    if a.len() != b.len() {
        return false;
    }
    let mut i: usize = 0;
    while i < a.len()
        invariant
            i <= a.len(),
            a.len() == b.len(),
            forall|j: int| 0 <= j < i ==> a@[j] == b@[j],
        decreases a.len() - i,
    {
        if a[i] != b[i] {
            return false;
        }
        i = i + 1;
    }
    assert(a@ =~= b@);
    true
}

/// The characters of `v` from `start` up to, not including, `end`.
pub fn sub_chars(v: &Vec<char>, start: usize, end: usize) -> (r: Vec<char>)
    requires
        start <= end <= v.len(),
    ensures
        r@ == v@.subrange(start as int, end as int),
{
    let mut r: Vec<char> = Vec::new();
    let mut i = start;
    while i < end
        invariant
            start <= i <= end,
            end <= v.len(),
            r@ == v@.subrange(start as int, i as int),
        decreases end - i,
    {
        r.push(v[i]);
        assert(v@.subrange(start as int, i + 1) =~= v@.subrange(start as int, i as int).push(
            v@[i as int],
        ));
        i = i + 1;
    }
    r
}

/// `v` split on every occurrence of `sep`.
pub fn split_chars(v: &Vec<char>, sep: char) -> (r: Vec<Vec<char>>)
    ensures
        char_views(r@) == split_on(v@, sep),
{
    let mut done: Vec<Vec<char>> = Vec::new();
    let mut cur: Vec<char> = Vec::new();
    let mut i: usize = 0;
    assert(v@.take(0) =~= Seq::<char>::empty());
    assert(char_views(done@).push(cur@) =~= split_on(v@.take(0), sep));
    while i < v.len()
        invariant
            i <= v.len(),
            char_views(done@).push(cur@) == split_on(v@.take(i as int), sep),
        decreases v.len() - i,
    {
        let c = v[i];
        let ghost prefix = v@.take(i as int + 1);
        assert(prefix.drop_last() =~= v@.take(i as int));
        assert(prefix.last() == c);
        if c == sep {
            let finished = cur;
            done.push(finished);
            cur = Vec::new();
            assert(char_views(done@) =~= char_views(done@.drop_last()).push(finished@));
            assert(char_views(done@).push(cur@) =~= split_on(prefix, sep));
        } else {
            let ghost before = cur@;
            cur.push(c);
            assert(char_views(done@).push(cur@) =~= char_views(done@).push(before).update(
                done@.len() as int,
                before.push(c),
            ));
        }
        i = i + 1;
    }
    assert(v@.take(v.len() as int) =~= v@);
    let last = cur;
    done.push(last);
    assert(char_views(done@) =~= char_views(done@.drop_last()).push(last@));
    done
}

/// The white-space separated words of `v`.
pub fn split_words(v: &Vec<char>) -> (r: Vec<Vec<char>>)
    ensures
        char_views(r@) == words(v@),
{
    let mut out: Vec<Vec<char>> = Vec::new();
    let mut in_word = false;
    let mut i: usize = 0;
    assert(v@.take(0) =~= Seq::<char>::empty());
    assert(char_views(out@) =~= words(v@.take(0)));
    while i < v.len()
        invariant
            i <= v.len(),
            char_views(out@) == words(v@.take(i as int)),
            in_word == (i > 0 && !is_white_space(v@[i - 1])),
        decreases v.len() - i,
    {
        let c = v[i];
        let ghost prefix = v@.take(i as int + 1);
        assert(prefix.drop_last() =~= v@.take(i as int));
        assert(prefix.last() == c);
        let ws = is_whitespace_char(c);
        if ws {
            in_word = false;
        } else if !in_word {
            let mut w: Vec<char> = Vec::new();
            w.push(c);
            let ghost before = out@;
            out.push(w);
            assert(w@ =~= seq![c]);
            assert(char_views(out@) =~= char_views(before).push(w@));
            in_word = true;
        } else {
            proof {
                lemma_words_nonempty(v@.take(i as int));
            }
            let ghost before = out@;
            let mut w = out.pop().unwrap();
            let ghost wv = w@;
            w.push(c);
            out.push(w);
            assert(char_views(out@) =~= char_views(before).update(
                before.len() - 1,
                wv.push(c),
            ));
        }
        i = i + 1;
    }
    assert(v@.take(v.len() as int) =~= v@);
    out
}

/// `char::is_whitespace`.
pub fn is_whitespace_char(c: char) -> (r: bool)
    ensures
        r == is_white_space(c),
{
    c == ' ' || ('\u{9}' <= c && c <= '\u{d}') || c == '\u{85}' || c == '\u{a0}' || c
        == '\u{1680}' || ('\u{2000}' <= c && c <= '\u{200a}') || c == '\u{2028}' || c
        == '\u{2029}' || c == '\u{202f}' || c == '\u{205f}' || c == '\u{3000}'
}

/// `u32::from_str` on the characters of `t`.
pub fn parse_decimal_u32(t: &Vec<char>) -> (r: Option<u32>)
    ensures
        r == decimal_u32(t@),
{
    let start: usize = if t.len() > 0 && t[0] == '+' {
        1
    } else {
        0
    };
    let ghost digits = if t@.len() > 0 && t@[0] == '+' {
        t@.drop_first()
    } else {
        t@
    };
    assert(digits =~= t@.subrange(start as int, t@.len() as int));
    if start >= t.len() {
        return None;
    }
    let mut acc: u64 = 0;
    let mut i: usize = start;
    assert(digits.take(0) =~= Seq::<char>::empty());
    while i < t.len()
        invariant
            start <= i <= t.len(),
            digits =~= t@.subrange(start as int, t@.len() as int),
            digits == (if t@.len() > 0 && t@[0] == '+' {
                t@.drop_first()
            } else {
                t@
            }),
            all_ascii_digits(digits.take(i - start)),
            acc == decimal_value(digits.take(i - start)),
            acc <= u32::MAX,
        decreases t.len() - i,
    {
        let c = t[i];
        if !('0' <= c && c <= '9') {
            assert(digits[i - start] == c);
            assert(!all_ascii_digits(digits));
            return None;
        }
        let ghost next = digits.take(i - start + 1);
        assert(next.drop_last() =~= digits.take(i - start));
        assert(next.last() == c);
        acc = acc * 10 + ((c as u32) - ('0' as u32)) as u64;
        assert(all_ascii_digits(next));
        assert(acc == decimal_value(next));
        if acc > 0xffff_ffffu64 {
            proof {
                if all_ascii_digits(digits) {
                    lemma_decimal_value_monotone(digits, i - start + 1);
                    assert(decimal_value(digits) > u32::MAX);
                }
            }
            return None;
        }
        i = i + 1;
    }
    assert(digits.take(i - start) =~= digits);
    Some(acc as u32)
}

} // verus!

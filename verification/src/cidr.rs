//! IPv6 subnets in CIDR notation and random addresses inside them.
use vstd::prelude::*;
use rand::RngExt;
use crate::text::{
    split_on, decimal_u32, chars_of, split_chars, parse_decimal_u32, char_views, decimal_text,
    free_of, lemma_decimal_text, lemma_decimal_u32_of_text, lemma_split_on_free,
    lemma_split_on_sep_then_free, is_ascii_digit,
};
use crate::ipv6::{
    ipv6_value, parse_ipv6, ipv6_full_text, hex_or_colon, is_hex_digit,
    lemma_full_text_round_trip, ipv6_display_text, address_chars, lemma_display_round_trip,
};

verus! {

/// What an `Ipv6Cidr` stands for: a base address and a prefix length.
pub struct CidrModel {
    pub base: u128,
    pub prefix_len: u32,
}

/// An IPv6 subnet: the addresses whose first `prefix_len` bits are those of
/// `base_ip`. The address is held as the 128-bit number whose big-endian
/// bytes are its octets.
#[derive(Debug, Clone, Copy, PartialEq, Eq, Structural)]
pub struct Ipv6Cidr {
    base_ip: u128,
    prefix_len: u32,
}

impl View for Ipv6Cidr {
    type V = CidrModel;

    closed spec fn view(&self) -> CidrModel {
        CidrModel { base: self.base_ip, prefix_len: self.prefix_len }
    }
}

/// The low `128 - prefix_len` bits, those that an address of the subnet may
/// choose freely.
pub open spec fn host_mask(prefix_len: u32) -> u128 {
    ((1u128 << ((128 - prefix_len) as u32)) - 1) as u128
}

/// The prefix lengths for which a subnet's random address is defined.
pub open spec fn valid_prefix_len(prefix_len: u32) -> bool {
    1 <= prefix_len <= 128
}

/// `addr` has the first `prefix_len` bits of the subnet's base address.
pub open spec fn in_subnet(addr: u128, cidr: CidrModel) -> bool {
    addr >> ((128 - cidr.prefix_len) as u32) == cidr.base >> ((128 - cidr.prefix_len) as u32)
}

/// The address with the network bits of `base` and the host bits of `bits`.
pub open spec fn subnet_address(cidr: CidrModel, bits: u128) -> u128 {
    (cidr.base & !host_mask(cidr.prefix_len)) | (bits & host_mask(cidr.prefix_len))
}

/// What `Ipv6Cidr::parse` gives for the text `t`: the subnet, or the message
/// of the first check that fails.
pub open spec fn cidr_text(t: Seq<char>) -> Result<CidrModel, Seq<char>> {
    let parts = split_on(t, '/');
    if parts.len() < 2 {
        Err("Missing prefix length part"@)
    } else if decimal_u32(parts[1]) is None {
        Err("Invalid prefix length"@)
    } else if ipv6_value(parts[0]) is None {
        Err("Invalid IPv6 address"@)
    } else {
        Ok(CidrModel { base: ipv6_value(parts[0])->0, prefix_len: decimal_u32(parts[1])->0 })
    }
}

/// `rand::rng().random::<u128>()`: a value from the thread-local generator.
/// Nothing is stated of it; the generator panics if the system source of
/// randomness fails while it seeds or reseeds itself.
#[verifier::external_body]
fn random_u128() -> u128 {
    rand::rng().random::<u128>()
}

impl Ipv6Cidr {
    /// The subnet with the given base address and prefix length.
    pub fn new(base_ip: u128, prefix_len: u32) -> (r: Self)
        ensures
            r@ == (CidrModel { base: base_ip, prefix_len }),
    {
        Ipv6Cidr { base_ip, prefix_len }
    }

    /// The base address.
    pub fn base_ip(&self) -> (r: u128)
        ensures
            r == self@.base,
    {
        self.base_ip
    }

    /// The prefix length.
    pub fn prefix_len(&self) -> (r: u32)
        ensures
            r == self@.prefix_len,
    {
        self.prefix_len
    }

    /// Reads `address/prefix-length`. Text after a second `/` is ignored.
    pub fn parse(cidr: &str) -> (r: Result<Self, String>)
        ensures
            match cidr_text(cidr@) {
                Ok(m) => r matches Ok(c) && c@ == m,
                Err(e) => r matches Err(msg) && msg@ == e,
            },
    {
        let text = chars_of(cidr);
        let parts = split_chars(&text, '/');
        assert(char_views(parts@) == split_on(cidr@, '/'));
        if parts.len() < 2 {
            return Err(String::from_str("Missing prefix length part"));
        }
        assert(parts@[0]@ == split_on(cidr@, '/')[0]);
        assert(parts@[1]@ == split_on(cidr@, '/')[1]);
        let prefix_len = match parse_decimal_u32(&parts[1]) {
            Some(n) => n,
            None => {
                return Err(String::from_str("Invalid prefix length"));
            },
        };
        let base_ip = match parse_ipv6(&parts[0]) {
            Some(a) => a,
            None => {
                return Err(String::from_str("Invalid IPv6 address"));
            },
        };
        Ok(Ipv6Cidr::new(base_ip, prefix_len))
    }

    /// The address with this subnet's network bits and the host bits of
    /// `random_bits`.
    pub fn address_in_subnet(&self, random_bits: u128) -> (r: u128)
        requires
            valid_prefix_len(self@.prefix_len),
        ensures
            r == subnet_address(self@, random_bits),
    {
        let shift: u32 = 128 - self.prefix_len;
        assert(1u128 << shift >= 1) by (bit_vector)
            requires
                shift < 128,
        ;
        let host: u128 = (1u128 << shift) - 1;
        let masked = self.base_ip & !host;
        masked | (random_bits & host)
    }

    /// A random address of this subnet.
    pub fn generate_random_ipv6_in_subnet(&self) -> (r: u128)
        requires
            valid_prefix_len(self@.prefix_len),
        ensures
            in_subnet(r, self@),
            exists|bits: u128| r == subnet_address(self@, bits),
    {
        let bits = random_u128();
        let r = self.address_in_subnet(bits);
        proof {
            lemma_subnet_address(self@, bits);
        }
        r
    }
}

/// The address built from a subnet and some bits lies in the subnet, and
/// its host bits are those of the bits it was given.
pub proof fn lemma_subnet_address(cidr: CidrModel, bits: u128)
    requires
        valid_prefix_len(cidr.prefix_len),
    ensures
        in_subnet(subnet_address(cidr, bits), cidr),
        subnet_address(cidr, bits) & host_mask(cidr.prefix_len) == bits & host_mask(
            cidr.prefix_len,
        ),
{
    let base = cidr.base;
    let k: u32 = (128 - cidr.prefix_len) as u32;
    assert(((base & !(((1u128 << k) - 1) as u128)) | (bits & (((1u128 << k) - 1) as u128))) >> k
        == base >> k) by (bit_vector)
        requires
            k < 128,
    ;
    assert(((base & !(((1u128 << k) - 1) as u128)) | (bits & (((1u128 << k) - 1) as u128))) & (((
    1u128 << k) - 1) as u128) == bits & (((1u128 << k) - 1) as u128)) by (bit_vector)
        requires
            k < 128,
    ;
}

/// Different host bits give different addresses: two draws give the same
/// address exactly when they agree on the host bits.
pub proof fn lemma_subnet_address_distinguishes(cidr: CidrModel, r1: u128, r2: u128)
    requires
        valid_prefix_len(cidr.prefix_len),
    ensures
        subnet_address(cidr, r1) == subnet_address(cidr, r2) <==> r1 & host_mask(
            cidr.prefix_len,
        ) == r2 & host_mask(cidr.prefix_len),
{
    let base = cidr.base;
    let k: u32 = (128 - cidr.prefix_len) as u32;
    assert(((base & !(((1u128 << k) - 1) as u128)) | (r1 & (((1u128 << k) - 1) as u128))) == ((
    base & !(((1u128 << k) - 1) as u128)) | (r2 & (((1u128 << k) - 1) as u128))) <==> (r1 & (((
    1u128 << k) - 1) as u128)) == (r2 & (((1u128 << k) - 1) as u128))) by (bit_vector)
        requires
            k < 128,
    ;
}

/// Every address of the subnet can come out of `address_in_subnet`: given
/// the address itself as its bits, it gives the address back.
pub proof fn lemma_subnet_address_onto(cidr: CidrModel, addr: u128)
    requires
        valid_prefix_len(cidr.prefix_len),
        in_subnet(addr, cidr),
    ensures
        subnet_address(cidr, addr) == addr,
{
    let base = cidr.base;
    let k: u32 = (128 - cidr.prefix_len) as u32;
    assert(((base & !(((1u128 << k) - 1) as u128)) | (addr & (((1u128 << k) - 1) as u128)))
        == addr) by (bit_vector)
        requires
            k < 128,
            addr >> k == base >> k,
    ;
}

/// A subnet written as its address in eight full groups, `/`, and its
/// prefix length in decimal.
pub open spec fn cidr_full_text(cidr: CidrModel) -> Seq<char> {
    ipv6_full_text(cidr.base) + seq!['/'] + decimal_text(cidr.prefix_len as nat)
}

/// Parsing reads back every subnet from its full textual form.
pub proof fn lemma_cidr_text_round_trip(cidr: CidrModel)
    ensures
        cidr_text(cidr_full_text(cidr)) == Ok::<CidrModel, Seq<char>>(cidr),
{
    let a = ipv6_full_text(cidr.base);
    let d = decimal_text(cidr.prefix_len as nat);
    lemma_full_text_round_trip(cidr.base);
    lemma_decimal_text(cidr.prefix_len as nat);
    lemma_decimal_u32_of_text(cidr.prefix_len);
    assert(free_of(a, '/')) by {
        assert forall|i: int| 0 <= i < a.len() implies a[i] != '/' by {
            assert(is_hex_digit(a[i]) || a[i] == ':');
        }
    }
    assert(free_of(d, '/')) by {
        assert forall|i: int| 0 <= i < d.len() implies d[i] != '/' by {
            assert(is_ascii_digit(d[i]));
        }
    }
    lemma_split_on_free(a, '/');
    lemma_split_on_sep_then_free(a, d, '/');
    assert(split_on(cidr_full_text(cidr), '/') =~= seq![a, d]);
}

/// A subnet as `format!("{}/{}", ip, prefix_len)` writes it: the address as
/// `Ipv6Addr` displays it, `/`, and the prefix length in decimal.
pub open spec fn cidr_display_text(cidr: CidrModel) -> Seq<char> {
    ipv6_display_text(cidr.base) + seq!['/'] + decimal_text(cidr.prefix_len as nat)
}

/// Parsing reads back every subnet from its displayed form.
pub proof fn lemma_cidr_display_round_trip(cidr: CidrModel)
    ensures
        cidr_text(cidr_display_text(cidr)) == Ok::<CidrModel, Seq<char>>(cidr),
{
    let a = ipv6_display_text(cidr.base);
    let d = decimal_text(cidr.prefix_len as nat);
    lemma_display_round_trip(cidr.base);
    lemma_decimal_text(cidr.prefix_len as nat);
    lemma_decimal_u32_of_text(cidr.prefix_len);
    assert(free_of(a, '/')) by {
        assert forall|i: int| 0 <= i < a.len() implies a[i] != '/' by {
            assert(is_hex_digit(a[i]) || a[i] == ':' || a[i] == '.');
        }
    }
    assert(free_of(d, '/')) by {
        assert forall|i: int| 0 <= i < d.len() implies d[i] != '/' by {
            assert(is_ascii_digit(d[i]));
        }
    }
    lemma_split_on_free(a, '/');
    lemma_split_on_sep_then_free(a, d, '/');
    assert(split_on(cidr_display_text(cidr), '/') =~= seq![a, d]);
}

} // verus!

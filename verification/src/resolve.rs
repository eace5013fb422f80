//! Socket addresses and the cache of resolved destinations: a destination is
//! looked up once, and the first IPv6 address among the answers is kept.
use vstd::prelude::*;
use vstd::hash_map::StringHashMap;

verus! {

/// A socket address, as `std::net::SocketAddr` holds it; IP addresses are
/// the numbers whose big-endian bytes are their octets.
#[derive(Debug, Clone, Copy, PartialEq, Eq, Structural)]
#[allow(inconsistent_fields)]
pub enum SocketAddress {
    V4 { ip: u32, port: u16 },
    V6 { ip: u128, port: u16, flowinfo: u32, scope_id: u32 },
}

impl SocketAddress {
    /// Whether this is an IPv6 socket address.
    pub fn is_ipv6(&self) -> (r: bool)
        ensures
            r == (*self is V6),
    {
        match self {
            SocketAddress::V6 { .. } => true,
            SocketAddress::V4 { .. } => false,
        }
    }
}

/// The first IPv6 address of `s`.
pub open spec fn first_ipv6_of(s: Seq<SocketAddress>) -> Option<SocketAddress>
    decreases s.len(),
{
    if s.len() == 0 {
        None
    } else if s[0] is V6 {
        Some(s[0])
    } else {
        first_ipv6_of(s.drop_first())
    }
}

/// The first IPv6 address is the earliest IPv6 element: there is one
/// exactly when some element is IPv6, it is that element, and every element
/// before it is IPv4.
pub proof fn lemma_first_ipv6_of(s: Seq<SocketAddress>)
    ensures
        (exists|i: int| 0 <= i < s.len() && #[trigger] s[i] is V6) <==> first_ipv6_of(s) is Some,
        first_ipv6_of(s) matches Some(a) ==> exists|j: int|
            0 <= j < s.len() && s[j] == a && a is V6 && forall|i: int|
                0 <= i < j ==> #[trigger] s[i] is V4,
    decreases s.len(),
{
    if s.len() > 0 {
        let t = s.drop_first();
        lemma_first_ipv6_of(t);
        assert forall|i: int| 0 <= i < t.len() implies #[trigger] t[i] == s[i + 1] by {}
        if s[0] is V6 {
            assert(forall|i: int| 0 <= i < 0 ==> #[trigger] s[i] is V4);
        } else {
            if exists|i: int| 0 <= i < s.len() && #[trigger] s[i] is V6 {
                let i = choose|i: int| 0 <= i < s.len() && #[trigger] s[i] is V6;
                assert(t[i - 1] is V6);
            }
            if first_ipv6_of(s) is Some {
                let a = first_ipv6_of(s)->0;
                let j = choose|j: int|
                    0 <= j < t.len() && t[j] == a && a is V6 && forall|i: int|
                        0 <= i < j ==> #[trigger] t[i] is V4;
                assert(s[j + 1] == a);
                assert forall|i: int| 0 <= i < j + 1 implies #[trigger] s[i] is V4 by {
                    if i > 0 {
                        assert(t[i - 1] is V4);
                    }
                }
                assert(s[0] is V6 ==> false);
            }
        }
    }
}

/// An IPv6 answer in front of any others is the one chosen.
pub proof fn lemma_first_ipv6_leading(a: SocketAddress, s: Seq<SocketAddress>)
    requires
        a is V6,
    ensures
        first_ipv6_of(seq![a] + s) == Some(a),
{
    assert((seq![a] + s)[0] == a);
}

/// The first IPv6 address among the candidates.
pub fn first_ipv6(candidates: &Vec<SocketAddress>) -> (r: Option<SocketAddress>)
    ensures
        r == first_ipv6_of(candidates@),
{
    let mut i: usize = 0;
    assert(candidates@.skip(0) =~= candidates@);
    while i < candidates.len()
        invariant
            i <= candidates.len(),
            first_ipv6_of(candidates@) == first_ipv6_of(candidates@.skip(i as int)),
        decreases candidates.len() - i,
    {
        assert(candidates@.skip(i as int).drop_first() =~= candidates@.skip(i + 1));
        if candidates[i].is_ipv6() {
            return Some(candidates[i]);
        }
        i = i + 1;
    }
    None
}

/// The destinations resolved so far, each with the address it resolved to.
pub struct AddrCache {
    entries: StringHashMap<SocketAddress>,
}

impl View for AddrCache {
    type V = Map<Seq<char>, SocketAddress>;

    closed spec fn view(&self) -> Map<Seq<char>, SocketAddress> {
        self.entries@
    }
}

impl AddrCache {
    /// An empty cache.
    pub fn new() -> (r: Self)
        ensures
            r@ == Map::<Seq<char>, SocketAddress>::empty(),
    {
        AddrCache { entries: StringHashMap::new() }
    }

    /// The address that `key` resolved to, if it was resolved before.
    pub fn lookup(&self, key: &str) -> (r: Option<SocketAddress>)
        ensures
            r == self@.get(key@),
    {
        match self.entries.get(key) {
            Some(a) => Some(*a),
            None => None,
        }
    }

    /// Records that `key` resolved to `addr`.
    pub fn insert(&mut self, key: String, addr: SocketAddress)
        ensures
            final(self)@ == old(self)@.insert(key@, addr),
    {
        self.entries.insert(key, addr);
    }

    /// Takes the answers of a lookup of `key`: the first IPv6 address among
    /// them is recorded and returned; without one, the cache is unchanged
    /// and the error says so.
    pub fn record_resolution(&mut self, key: String, candidates: &Vec<SocketAddress>) -> (r: Result<
        SocketAddress,
        String,
    >)
        ensures
            match first_ipv6_of(candidates@) {
                Some(a) => r == Ok::<SocketAddress, String>(a) && final(self)@ == old(self)@.insert(
                    key@,
                    a,
                ),
                None => r matches Err(e) && e@ == "No IPv6 address found"@ && final(self)@ == old(
                    self,
                )@,
            },
    {
        match first_ipv6(candidates) {
            Some(a) => {
                self.insert(key, a);
                Ok(a)
            },
            None => Err(String::from_str("No IPv6 address found")),
        }
    }
}

/// A destination that was recorded is found again, with the address that
/// was recorded, and recording it changes no other destination.
pub proof fn lemma_lookup_after_record(
    cache: Map<Seq<char>, SocketAddress>,
    key: Seq<char>,
    other: Seq<char>,
    addr: SocketAddress,
)
    ensures
        cache.insert(key, addr).get(key) == Some(addr),
        other != key ==> cache.insert(key, addr).get(other) == cache.get(other),
{
}

/// One resolution as the proxy performs it with `lookup` and, on a miss,
/// `record_resolution`: a destination in the cache is answered from it and
/// leaves the cache as it is; otherwise the answers of a fresh lookup are
/// recorded. Gives the cache afterwards and the address answered.
pub open spec fn resolution_call(
    cache: Map<Seq<char>, SocketAddress>,
    key: Seq<char>,
    answers: Seq<SocketAddress>,
) -> (Map<Seq<char>, SocketAddress>, Option<SocketAddress>) {
    if cache.contains_key(key) {
        (cache, Some(cache[key]))
    } else {
        match first_ipv6_of(answers) {
            Some(a) => (cache.insert(key, a), Some(a)),
            None => (cache, None),
        }
    }
}

/// The cache after a series of resolutions, each a destination and the
/// answers that a fresh lookup of it would give.
pub open spec fn after_resolutions(
    cache: Map<Seq<char>, SocketAddress>,
    calls: Seq<(Seq<char>, Seq<SocketAddress>)>,
) -> Map<Seq<char>, SocketAddress>
    decreases calls.len(),
{
    if calls.len() == 0 {
        cache
    } else {
        resolution_call(
            after_resolutions(cache, calls.drop_last()),
            calls.last().0,
            calls.last().1,
        ).0
    }
}

/// Once a destination has resolved to an address, it keeps that address
/// through any later resolutions, and a later resolution of it answers that
/// address whatever a fresh lookup would give.
pub proof fn lemma_resolution_is_stable(
    cache: Map<Seq<char>, SocketAddress>,
    key: Seq<char>,
    addr: SocketAddress,
    calls: Seq<(Seq<char>, Seq<SocketAddress>)>,
    answers: Seq<SocketAddress>,
)
    requires
        cache.get(key) == Some(addr),
    ensures
        after_resolutions(cache, calls).get(key) == Some(addr),
        resolution_call(after_resolutions(cache, calls), key, answers).1 == Some(addr),
    decreases calls.len(),
{
    if calls.len() > 0 {
        lemma_resolution_is_stable(cache, key, addr, calls.drop_last(), answers);
        let before = after_resolutions(cache, calls.drop_last());
        let k2 = calls.last().0;
        if !before.contains_key(k2) {
            assert(k2 != key);
        }
    }
}

/// The first resolution of a destination that answers an address leaves it
/// cached with that address.
pub proof fn lemma_first_resolution_caches(
    cache: Map<Seq<char>, SocketAddress>,
    key: Seq<char>,
    answers: Seq<SocketAddress>,
)
    ensures
        resolution_call(cache, key, answers).1 matches Some(a) ==> resolution_call(
            cache,
            key,
            answers,
        ).0.get(key) == Some(a),
{
}

} // verus!

//! DNS over HTTPS: which resolvers are asked and how, which addresses an
//! answer offers, and the per-host answer cache.  The HTTP exchange and the
//! parsing of address text happen in the caller.

use vstd::prelude::*;
use vstd::hash_map::StringHashMap;
use vstd::utf8::{encode_utf8, valid_utf8};
use crate::bytes::{append_bytes, lit};
use crate::text::string_from_valid_utf8;

verus! {

/// How long a resolved address is kept, in nanoseconds (five minutes).
pub const TTL_NANOS: u64 = 300_000_000_000;

/// The DoH resolvers, asked in this order.
pub open spec fn resolvers() -> Seq<&'static str> {
    seq!["https://cloudflare-dns.com/dns-query", "https://dns.google/dns-query", "https://dns.quad9.net/dns-query"]
}

/// The `i`-th resolver, if there is one.
pub fn resolver(i: usize) -> (r: Option<&'static str>)
    ensures
        r == (if i < resolvers().len() { Some(resolvers()[i as int]) } else { None::<&'static str> }),
{
    if i == 0 {
        Some("https://cloudflare-dns.com/dns-query")
    } else if i == 1 {
        Some("https://dns.google/dns-query")
    } else if i == 2 {
        Some("https://dns.quad9.net/dns-query")
    } else {
        None
    }
}

/// The JSON-API query for the A records of `host` at `resolver`.
pub open spec fn spec_query_url(resolver: Seq<char>, host: Seq<char>) -> Seq<u8> {
    encode_utf8(resolver) + lit("?name=") + encode_utf8(host) + lit("&type=A")
}

/// The query URL for the A records of `host` at `resolver`.
pub fn query_url(resolver: &str, host: &str) -> (r: String)
    ensures
        encode_utf8(r@) == spec_query_url(resolver@, host@),
{
    let mut out: Vec<u8> = Vec::new();
    append_bytes(&mut out, resolver.as_bytes());
    append_bytes(&mut out, "?name=".as_bytes());
    append_bytes(&mut out, host.as_bytes());
    append_bytes(&mut out, "&type=A".as_bytes());
    proof {
        vstd::utf8::encode_utf8_valid_utf8(resolver@);
        vstd::utf8::encode_utf8_valid_utf8("?name="@);
        vstd::utf8::encode_utf8_valid_utf8(host@);
        vstd::utf8::encode_utf8_valid_utf8("&type=A"@);
        let (a, b, c, d) = (encode_utf8(resolver@), lit("?name="), encode_utf8(host@), lit("&type=A"));
        vstd::utf8::valid_utf8_concat(a, b);
        vstd::utf8::valid_utf8_concat(a + b, c);
        vstd::utf8::valid_utf8_concat(a + b + c, d);
        assert(out@ =~= spec_query_url(resolver@, host@));
    }
    string_from_valid_utf8(out)
}

/// What serde_json reads from a DoH JSON answer body: `None` if the body
/// is not JSON or has no `Answer` array; otherwise, per answer, its `type`
/// as an unsigned integer and its `data` as a string, where present.
pub uninterp spec fn spec_json_answers(body: Seq<u8>) -> Option<Seq<(Option<u64>, Option<Seq<char>>)>>;

/// The view of one decoded answer.
pub open spec fn answer_view(a: (Option<u64>, Option<String>)) -> (Option<u64>, Option<Seq<char>>) {
    (a.0, match a.1 {
        Some(s) => Some(s@),
        None => None,
    })
}

/// serde_json's `from_slice` into a `Value`, then `Answer` and, per
/// answer, `type` (`as_u64`) and `data` (`as_str`), each taken as a plain
/// value.  The result is named, not described; it depends on the body alone.
#[verifier::external_body]
fn json_answers(body: &[u8]) -> (r: Option<Vec<(Option<u64>, Option<String>)>>)
    ensures
        r is Some <==> spec_json_answers(body@) is Some,
        r matches Some(v) ==> v@.map_values(|a: (Option<u64>, Option<String>)| answer_view(a))
            == spec_json_answers(body@).unwrap(),
{
    let v: serde_json::Value = serde_json::from_slice(body).ok()?;
    let arr = v.get("Answer")?.as_array()?;
    Some(
        arr.iter().map(|a| {
            (
                a.get("type").and_then(serde_json::Value::as_u64),
                a.get("data").and_then(serde_json::Value::as_str).map(String::from),
            )
        }).collect(),
    )
}

/// The address texts an answer list offers, in order: the `data` of every
/// answer of type 1 (an A record) whose `data` is a string.
pub open spec fn spec_a_candidates(answers: Seq<(Option<u64>, Option<Seq<char>>)>) -> Seq<Seq<char>>
    decreases answers.len(),
{
    if answers.len() == 0 {
        Seq::empty()
    } else {
        let rest = spec_a_candidates(answers.drop_last());
        let a = answers.last();
        if a.0 == Some(1u64) && a.1 is Some {
            rest.push(a.1.unwrap())
        } else {
            rest
        }
    }
}

/// The address texts the decoded answers offer, in order: the `data` of
/// every answer of type 1 (an A record) whose `data` is a string.
pub fn answer_candidates(answers: &Vec<(Option<u64>, Option<String>)>) -> (r: Vec<String>)
    ensures
        r@.map_values(|s: String| s@)
            == spec_a_candidates(answers@.map_values(|a: (Option<u64>, Option<String>)| answer_view(a))),
{
    let ghost av = answers@.map_values(|a: (Option<u64>, Option<String>)| answer_view(a));
    let mut out: Vec<String> = Vec::new();
    let mut i: usize = 0;
    assert(av.subrange(0, 0) =~= Seq::<(Option<u64>, Option<Seq<char>>)>::empty());
    assert(out@.map_values(|s: String| s@) =~= Seq::<Seq<char>>::empty());
    while i < answers.len()
        invariant
            i <= answers@.len(),
            av == answers@.map_values(|a: (Option<u64>, Option<String>)| answer_view(a)),
            out@.map_values(|s: String| s@) == spec_a_candidates(av.subrange(0, i as int)),
        decreases answers@.len() - i,
    {
        let a = &answers[i];
        let ghost before = out@;
        assert(av.subrange(0, i + 1).drop_last() =~= av.subrange(0, i as int));
        assert(av.subrange(0, i + 1).last() == answer_view(*a));
        match (&a.0, &a.1) {
            (Some(t), Some(d)) => {
                if *t == 1 {
                    out.push(d.clone());
                    assert(out@.map_values(|s: String| s@) =~= before.map_values(|s: String| s@).push(d@));
                }
            },
            _ => {},
        }
        i = i + 1;
    }
    assert(av.subrange(0, answers@.len() as int) =~= av);
    out
}

/// The address texts of the A records in a DoH JSON answer body, in
/// order; the first that parses as an IP address is the answer.  Empty when
/// the body is not JSON or has no `Answer` array.
pub fn a_record_candidates(body: &[u8]) -> (r: Vec<String>)
    ensures
        r@.map_values(|s: String| s@) == match spec_json_answers(body@) {
            Some(a) => spec_a_candidates(a),
            None => Seq::empty(),
        },
{
    match json_answers(body) {
        Some(a) => answer_candidates(&a),
        None => {
            let v: Vec<String> = Vec::new();
            assert(v@.map_values(|s: String| s@) =~= Seq::<Seq<char>>::empty());
            v
        },
    }
}

/// A cached address and when it expires (nanoseconds on the caller's
/// monotonic clock).
pub struct CacheEntry<A> {
    pub addr: A,
    pub expires_nanos: u64,
}

/// Resolved addresses by host name.
#[verifier::reject_recursive_types(A)]
pub struct DnsCache<A> {
    map: StringHashMap<CacheEntry<A>>,
}

impl<A> View for DnsCache<A> {
    type V = Map<Seq<char>, CacheEntry<A>>;

    closed spec fn view(&self) -> Map<Seq<char>, CacheEntry<A>> {
        self.map@
    }
}

/// The cached address for `host` at time `now`, if it has not expired.
pub open spec fn spec_lookup<A>(m: Map<Seq<char>, CacheEntry<A>>, host: Seq<char>, now: u64) -> Option<A> {
    if m.contains_key(host) && now < m[host].expires_nanos {
        Some(m[host].addr)
    } else {
        None
    }
}

impl<A: Copy> DnsCache<A> {
    /// An empty cache.
    pub fn new() -> (r: Self)
        ensures
            r@ == Map::<Seq<char>, CacheEntry<A>>::empty(),
    {
        DnsCache { map: StringHashMap::new() }
    }

    /// The unexpired cached address for `host` at time `now_nanos`.
    pub fn lookup(&self, host: &str, now_nanos: u64) -> (r: Option<A>)
        ensures
            r == spec_lookup(self@, host@, now_nanos),
    {
        match self.map.get(host) {
            Some(e) => if now_nanos < e.expires_nanos { Some(e.addr) } else { None },
            None => None,
        }
    }

    /// Remember `addr` for `host`, resolved at time `now_nanos`, for five
    /// minutes.
    pub fn insert(&mut self, host: &str, addr: A, now_nanos: u64)
        requires
            now_nanos <= u64::MAX - TTL_NANOS,
        ensures
            final(self)@ == old(self)@.insert(host@, CacheEntry { addr, expires_nanos: (now_nanos + TTL_NANOS) as u64 }),
    {
        let key = host.to_owned();
        self.map.insert(key, CacheEntry { addr, expires_nanos: now_nanos + TTL_NANOS });
    }
}

/// Where a resolution stands after asking someone.
#[derive(Clone, Copy, Debug, PartialEq, Eq, Structural)]
pub enum Asked {
    /// The `i`-th DoH resolver.
    Resolver(usize),
    /// The system resolver, the last resort.
    System,
}

/// What to do next to resolve a host.
#[derive(Debug)]
pub enum ResolveAction<A> {
    /// The address is known.
    Answer(A),
    /// Ask the `i`-th DoH resolver.
    AskResolver(usize),
    /// Ask the system resolver.
    AskSystem,
    /// Nobody could resolve the host.
    GiveUp,
}

impl<A: Copy> DnsCache<A> {
    /// Start resolving `host` at time `now_nanos`: an unexpired cached
    /// address is the answer; otherwise ask the first resolver.
    pub fn resolve_start(&self, host: &str, now_nanos: u64) -> (r: ResolveAction<A>)
        ensures
            match spec_lookup(self@, host@, now_nanos) {
                Some(a) => r matches ResolveAction::Answer(b) && b == a,
                None => r matches ResolveAction::AskResolver(0),
            },
    {
        match self.lookup(host, now_nanos) {
            Some(a) => ResolveAction::Answer(a),
            None => ResolveAction::AskResolver(0),
        }
    }

    /// Continue resolving `host` after `asked` answered `got` at time
    /// `now_nanos`: an address is cached and is the answer; otherwise ask
    /// the next resolver, then the system, then give up.
    pub fn resolve_next(&mut self, host: &str, asked: Asked, got: Option<A>, now_nanos: u64) -> (r: ResolveAction<A>)
        requires
            now_nanos <= u64::MAX - TTL_NANOS,
        ensures
            match got {
                Some(a) => {
                    &&& r matches ResolveAction::Answer(b) && b == a
                    &&& final(self)@ == old(self)@.insert(host@, CacheEntry { addr: a, expires_nanos: (now_nanos + TTL_NANOS) as u64 })
                },
                None => {
                    &&& final(self)@ == old(self)@
                    &&& match asked {
                        Asked::Resolver(i) => if i + 1 < resolvers().len() {
                            r matches ResolveAction::AskResolver(j) && j == i + 1
                        } else {
                            r matches ResolveAction::AskSystem
                        },
                        Asked::System => r matches ResolveAction::GiveUp,
                    }
                },
            },
    {
        match got {
            Some(a) => {
                self.insert(host, a, now_nanos);
                ResolveAction::Answer(a)
            },
            None => match asked {
                Asked::Resolver(i) => if i < 2 { ResolveAction::AskResolver(i + 1) } else { ResolveAction::AskSystem },
                Asked::System => ResolveAction::GiveUp,
            },
        }
    }
}

/// A lookup gives back what was stored: within five minutes of storing
/// `addr` for `host`, a lookup of `host` finds `addr`; after that it finds
/// nothing; lookups of other hosts are unaffected.
pub proof fn lemma_cache_read_after_write<A>(m: Map<Seq<char>, CacheEntry<A>>, host: Seq<char>, addr: A, t: u64,
    other: Seq<char>, now: u64)
    requires
        t <= u64::MAX - TTL_NANOS,
    ensures
        ({
            let m2 = m.insert(host, CacheEntry { addr, expires_nanos: (t + TTL_NANOS) as u64 });
            &&& now < t + TTL_NANOS ==> spec_lookup(m2, host, now) == Some(addr)
            &&& now >= t + TTL_NANOS ==> spec_lookup(m2, host, now) is None
            &&& other != host ==> spec_lookup(m2, other, now) == spec_lookup(m, other, now)
        }),
{
}

} // verus!

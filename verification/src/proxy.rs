//! The client side of the local proxy: telling SOCKS5 from HTTP CONNECT,
//! the SOCKS5 handshake (RFC 1928, no authentication, CONNECT only) as a
//! state machine, and the HTTP CONNECT request head.  The caller does the
//! reading and writing; these functions decide what to read, what to send
//! and where to tunnel.

use vstd::prelude::*;
use vstd::utf8::{decode_utf8, valid_utf8};
use crate::bytes::{append_bytes, bytes_eq, find_byte, spec_find_byte, spec_strip_cr, strip_cr, lemma_find_byte_range};
use crate::numfmt::{push_decimal, spec_decimal};
use crate::text::{chars_of, string_from_utf8, next_word, push_char, spec_words, str_from_utf8, string_from_valid_utf8, string_of,
    lemma_ascii_valid_utf8};

verus! {

/// Why a client connection is given up.
#[derive(Clone, Copy, Debug, PartialEq, Eq, Structural)]
pub enum ProxyError {
    /// The port of a CONNECT target is not a number from 0 to 65535.
    BadPort,
    /// The request line or a SOCKS5 domain name is not UTF-8.
    NotUtf8,
    /// No blank line within the first 8192 bytes of an HTTP CONNECT head.
    HeadTooLarge,
}

/// The protocol a client speaks, told by its first byte.
#[derive(Clone, Copy, Debug, PartialEq, Eq, Structural)]
pub enum Protocol {
    Socks5,
    HttpConnect,
}

/// SOCKS5 speaks first with version byte 5; anything else is taken as the
/// first byte of an HTTP request.
pub fn protocol_for(first: u8) -> (r: Protocol)
    ensures
        r == (if first == 5 { Protocol::Socks5 } else { Protocol::HttpConnect }),
{
    if first == 5 { Protocol::Socks5 } else { Protocol::HttpConnect }
}

// ── host:port ────────────────────────────────────────────────────────────

/// Decimal value of a digit string.
pub open spec fn spec_digits_value(d: Seq<char>) -> nat
    decreases d.len(),
{
    if d.len() == 0 {
        0
    } else {
        spec_digits_value(d.drop_last()) * 10 + ((d.last() as u32) - 48) as nat
    }
}

pub open spec fn is_digit(c: char) -> bool {
    '0' <= c <= '9'
}

/// `s` without one leading '+'.
pub open spec fn spec_without_plus(s: Seq<char>) -> Seq<char> {
    if s.len() > 0 && s[0] == '+' { s.drop_first() } else { s }
}

/// Every character is a decimal digit.
pub open spec fn all_digits(d: Seq<char>) -> bool {
    forall|i: int| 0 <= i < d.len() ==> is_digit(#[trigger] d[i])
}

/// `u16::from_str`: an optional '+', then at least one decimal digit, with
/// a value of at most 65535.
pub open spec fn spec_parse_u16(s: Seq<char>) -> Option<u16> {
    let d = spec_without_plus(s);
    if d.len() == 0 || !all_digits(d) {
        None
    } else if spec_digits_value(d) > 65535 {
        None
    } else {
        Some(spec_digits_value(d) as u16)
    }
}

/// The index of the last ':' in `s`, if any.
pub open spec fn spec_last_colon(s: Seq<char>) -> Option<int>
    decreases s.len(),
{
    if s.len() == 0 {
        None
    } else if s.last() == ':' {
        Some(s.len() - 1)
    } else {
        spec_last_colon(s.drop_last())
    }
}

/// A CONNECT target split at its last ':' into host and port; without a
/// ':' the whole text is the host and the port is 443.
pub open spec fn spec_parse_hostport(s: Seq<char>) -> Result<(Seq<char>, u16), ProxyError> {
    match spec_last_colon(s) {
        Some(i) => match spec_parse_u16(s.subrange(i + 1, s.len() as int)) {
            Some(p) => Ok((s.subrange(0, i), p)),
            None => Err(ProxyError::BadPort),
        },
        None => Ok((s, 443u16)),
    }
}

/// Parse the number `cs[lo..hi]` as `u16::from_str` does.
fn parse_u16(cs: &[char], lo: usize, hi: usize) -> (r: Option<u16>)
    requires
        lo <= hi <= cs@.len(),
    ensures
        r == spec_parse_u16(cs@.subrange(lo as int, hi as int)),
{
    let ghost s = cs@.subrange(lo as int, hi as int);
    let start = if lo < hi && cs[lo] == '+' { lo + 1 } else { lo };
    let ghost d = cs@.subrange(start as int, hi as int);
    assert(d =~= spec_without_plus(s));
    if start == hi {
        return None;
    }
    let mut v: u32 = 0;
    let mut i = start;
    while i < hi
        invariant
            start <= i <= hi,
            hi <= cs@.len(),
            d == cs@.subrange(start as int, hi as int),
            s == cs@.subrange(lo as int, hi as int),
            d == spec_without_plus(s),
            start < hi,
            lo <= start,
            forall|k: int| start <= k < i ==> is_digit(#[trigger] cs@[k]),
            v as nat == spec_digits_value(cs@.subrange(start as int, i as int)),
            v <= 65535,
        decreases hi - i,
    {
        let c = cs[i];
        if !('0' <= c && c <= '9') {
            assert(d[i - start] == c);
            assert(!is_digit(d[i - start]));
            return None;
        }
        let digit = (c as u32) - 48;
        proof {
            assert(cs@.subrange(start as int, i + 1).drop_last() =~= cs@.subrange(start as int, i as int));
        }
        v = v * 10 + digit;
        if v > 65535 {
            proof {
                if all_digits(d) {
                    lemma_digits_value_prefix(d, i + 1 - start);
                    assert(d.subrange(0, i + 1 - start) =~= cs@.subrange(start as int, i + 1));
                }
            }
            return None;
        }
        i = i + 1;
    }
    assert(cs@.subrange(start as int, hi as int) =~= d);
    assert forall|k: int| 0 <= k < d.len() implies is_digit(#[trigger] d[k]) by {
        assert(d[k] == cs@[start + k]);
    }
    Some(v as u16)
}

/// A digit string is worth at least any of its prefixes.
proof fn lemma_digits_value_prefix(d: Seq<char>, n: int)
    requires
        0 <= n <= d.len(),
        forall|i: int| 0 <= i < d.len() ==> is_digit(#[trigger] d[i]),
    ensures
        spec_digits_value(d) >= spec_digits_value(d.subrange(0, n)),
    decreases d.len(),
{
    if n < d.len() {
        assert(d.drop_last().subrange(0, n) =~= d.subrange(0, n));
        assert forall|i: int| 0 <= i < d.drop_last().len() implies is_digit(#[trigger] d.drop_last()[i]) by {
            assert(d.drop_last()[i] == d[i]);
        }
        lemma_digits_value_prefix(d.drop_last(), n);
    } else {
        assert(d.subrange(0, n) =~= d);
    }
}

/// Split a CONNECT target `host:port` at its last ':'; the port defaults
/// to 443.
pub fn parse_hostport(hp: &str) -> (r: Result<(String, u16), ProxyError>)
    ensures
        match r {
            Ok((h, p)) => spec_parse_hostport(hp@) == Ok::<(Seq<char>, u16), ProxyError>((h@, p)),
            Err(e) => spec_parse_hostport(hp@) == Err::<(Seq<char>, u16), ProxyError>(e),
        },
{
    let cs = chars_of(hp);
    let n = cs.len();
    let mut i = n;
    assert(cs@.subrange(0, n as int) =~= cs@);
    while i > 0 && cs[i - 1] != ':'
        invariant
            i <= n,
            n == cs@.len(),
            cs@ == hp@,
            spec_last_colon(cs@) == spec_last_colon(cs@.subrange(0, i as int)),
        decreases i,
    {
        assert(cs@.subrange(0, i as int).drop_last() =~= cs@.subrange(0, i - 1));
        i = i - 1;
    }
    if i == 0 {
        assert(cs@.subrange(0, 0) =~= Seq::<char>::empty());
        let h = string_of(cs.as_slice(), 0, n);
        assert(cs@.subrange(0, n as int) =~= cs@);
        return Ok((h, 443));
    }
    let colon = i - 1;
    assert(spec_last_colon(cs@.subrange(0, i as int)) == Some(colon as int));
    match parse_u16(cs.as_slice(), colon + 1, n) {
        Some(p) => Ok((string_of(cs.as_slice(), 0, colon), p)),
        None => Err(ProxyError::BadPort),
    }
}

// ── HTTP CONNECT ─────────────────────────────────────────────────────────

/// Where reading an HTTP CONNECT head stands.
#[derive(Clone, Copy, Debug, PartialEq, Eq, Structural)]
pub enum HeadState {
    /// The head ends with CR LF CR LF.
    Complete,
    /// Over 8192 bytes without the blank line.
    TooLarge,
    /// Read another byte.
    NeedMore,
}

/// The longest HTTP CONNECT head read before giving up.
pub const MAX_CONNECT_HEAD: usize = 8192;

pub open spec fn ends_with_crlf2(b: Seq<u8>) -> bool {
    b.len() >= 4 && b.subrange(b.len() - 4, b.len() as int) == seq![13u8, 10u8, 13u8, 10u8]
}

/// Whether the head read so far is complete, too large, or still short.
pub fn connect_head_state(buf: &[u8]) -> (r: HeadState)
    ensures
        r == (if ends_with_crlf2(buf@) {
            HeadState::Complete
        } else if buf@.len() > MAX_CONNECT_HEAD {
            HeadState::TooLarge
        } else {
            HeadState::NeedMore
        }),
{
    let n = buf.len();
    if n >= 4 && buf[n - 4] == 13 && buf[n - 3] == 10 && buf[n - 2] == 13 && buf[n - 1] == 10 {
        assert(buf@.subrange(n - 4, n as int) =~= seq![13u8, 10u8, 13u8, 10u8]);
        HeadState::Complete
    } else {
        proof {
            if n >= 4 {
                let t = buf@.subrange(n - 4, n as int);
                if t == seq![13u8, 10u8, 13u8, 10u8] {
                    assert(t[0] == buf@[n - 4]);
                    assert(t[1] == buf@[n - 3]);
                    assert(t[2] == buf@[n - 2]);
                    assert(t[3] == buf@[n - 1]);
                }
            }
        }
        if n > MAX_CONNECT_HEAD { HeadState::TooLarge } else { HeadState::NeedMore }
    }
}

/// ASCII lowercase of one character.
pub open spec fn lower_char(c: char) -> char {
    if 'A' <= c <= 'Z' { ((c as u32) + 32) as char } else { c }
}

/// `w` is "CONNECT" in any ASCII case.
pub open spec fn is_connect_word(w: Seq<char>) -> bool {
    w.len() == 7 && forall|i: int| 0 <= i < 7 ==> lower_char(#[trigger] w[i]) == "connect"@[i]
}

/// The first line of a request head, without its line ending.
pub open spec fn spec_request_line(head: Seq<u8>) -> Seq<u8> {
    match spec_find_byte(head, 10u8, 0) {
        Some(j) => spec_strip_cr(head.subrange(0, j)),
        None => spec_strip_cr(head),
    }
}

/// The tunnel target of an HTTP CONNECT head: an error if the request
/// line is not UTF-8 or the port is bad; `None` (the connection is closed
/// quietly) unless the line has at least two words, the first being
/// CONNECT in any case; otherwise the host and port of the second word.
pub open spec fn spec_connect_target(head: Seq<u8>) -> Result<Option<(Seq<char>, u16)>, ProxyError> {
    let line = spec_request_line(head);
    if !valid_utf8(line) {
        Err(ProxyError::NotUtf8)
    } else {
        let w = spec_words(decode_utf8(line), 0);
        if w.len() < 2 || !is_connect_word(w[0]) {
            Ok(None)
        } else {
            match spec_parse_hostport(w[1]) {
                Ok((h, p)) => Ok(Some((h, p))),
                Err(e) => Err(e),
            }
        }
    }
}

/// The tunnel target of a complete HTTP CONNECT head.
pub fn connect_target(head: &[u8]) -> (r: Result<Option<(String, u16)>, ProxyError>)
    ensures
        match r {
            Ok(Some((h, p))) => spec_connect_target(head@) == Ok::<Option<(Seq<char>, u16)>, ProxyError>(Some((h@, p))),
            Ok(None) => spec_connect_target(head@) == Ok::<Option<(Seq<char>, u16)>, ProxyError>(None),
            Err(e) => spec_connect_target(head@) == Err::<Option<(Seq<char>, u16)>, ProxyError>(e),
        },
{
    let line = match find_byte(head, 10, 0) {
        Some(j) => strip_cr(&head[0..j]),
        None => strip_cr(head),
    };
    let text = match str_from_utf8(line) {
        Some(t) => t,
        None => return Err(ProxyError::NotUtf8),
    };
    let cs = chars_of(text);
    let n = cs.len();
    assert(cs@.subrange(0, n as int) =~= cs@);
    let (j0, k0) = match next_word(cs.as_slice(), 0, n) {
        Some(w) => w,
        None => return Ok(None),
    };
    let (j1, k1) = match next_word(cs.as_slice(), k0, n) {
        Some(w) => w,
        None => return Ok(None),
    };
    let ghost w = spec_words(cs@, 0);
    assert(w[0] == cs@.subrange(j0 as int, k0 as int));
    assert(w[1] == cs@.subrange(j1 as int, k1 as int));
    if !is_connect(cs.as_slice(), j0, k0) {
        return Ok(None);
    }
    let target = string_of(cs.as_slice(), j1, k1);
    match parse_hostport(target.as_str()) {
        Ok((h, p)) => Ok(Some((h, p))),
        Err(e) => Err(e),
    }
}

/// `cs[lo..hi]` is "CONNECT" in any ASCII case.
fn is_connect(cs: &[char], lo: usize, hi: usize) -> (r: bool)
    requires
        lo <= hi <= cs@.len(),
    ensures
        r == is_connect_word(cs@.subrange(lo as int, hi as int)),
{
    let want = chars_of("connect");
    proof { reveal_strlit("connect"); }
    if hi - lo != 7 {
        return false;
    }
    let mut i: usize = 0;
    while i < 7
        invariant
            hi - lo == 7,
            lo <= hi <= cs@.len(),
            want@ == "connect"@,
            want@.len() == 7,
            i <= 7,
            forall|k: int| 0 <= k < i ==> lower_char(#[trigger] cs@[lo + k]) == "connect"@[k],
        decreases 7 - i,
    {
        let c = cs[lo + i];
        let l = if 'A' <= c && c <= 'Z' { ((c as u32) + 32) as u8 as char } else { c };
        assert(l == lower_char(c));
        if l != want[i] {
            assert(cs@.subrange(lo as int, hi as int)[i as int] == c);
            return false;
        }
        i = i + 1;
    }
    assert forall|k: int| 0 <= k < 7 implies lower_char(#[trigger] cs@.subrange(lo as int, hi as int)[k]) == "connect"@[k] by {
        assert(cs@.subrange(lo as int, hi as int)[k] == cs@[lo + k]);
    }
    true
}

// ── SOCKS5 ───────────────────────────────────────────────────────────────

/// Where a SOCKS5 handshake stands: what the next bytes read will be.
/// The version byte 5 has already been read when the handshake starts.
#[derive(Debug)]
pub enum Socks5State {
    /// The number of authentication methods offered (1 byte).
    Greeting,
    /// The methods themselves (as many bytes as announced); ignored.
    Methods,
    /// VER CMD RSV ATYP (4 bytes).
    Request,
    /// An IPv4 destination (4 bytes).
    AddrV4,
    /// The length of a domain-name destination (1 byte).
    DomainLen,
    /// The domain name (as many bytes as announced).
    Domain,
    /// An IPv6 destination (16 bytes).
    AddrV6,
    /// The destination port, big-endian (2 bytes), for this host.
    Port(Host),
}

/// A SOCKS5 destination host.
#[derive(Debug)]
pub enum Host {
    /// A domain name, or an IPv4 address in dotted-decimal form.
    Name(String),
    /// The 16 octets of an IPv6 address (the caller writes its text form).
    V6(Vec<u8>),
}

/// What the caller does after a handshake step.
#[derive(Debug)]
pub enum Socks5Next {
    /// Read exactly this many bytes and pass them to the given state.
    Read(Socks5State, usize),
    /// The request is refused; close the connection.
    Close,
    /// The connection fails with this error.
    Fail(ProxyError),
    /// The handshake is done: tunnel to this host and port.
    Tunnel(Host, u16),
}

/// One handshake step: bytes to send back first (possibly none), then
/// what to do next.
#[derive(Debug)]
pub struct Socks5Step {
    pub reply: Vec<u8>,
    pub next: Socks5Next,
}

/// Reply: no authentication required.
pub open spec fn reply_no_auth() -> Seq<u8> {
    seq![5u8, 0u8]
}

/// Reply with status `rep` and a zero IPv4 bound address and port.
pub open spec fn reply_status(rep: u8) -> Seq<u8> {
    seq![5u8, rep, 0u8, 1u8, 0u8, 0u8, 0u8, 0u8, 0u8, 0u8]
}

/// Dotted-decimal text of four octets.
pub open spec fn spec_ipv4_text(b: Seq<u8>) -> Seq<u8> {
    spec_decimal(b[0] as nat) + seq![46u8] + spec_decimal(b[1] as nat) + seq![46u8] + spec_decimal(b[2] as nat)
        + seq![46u8] + spec_decimal(b[3] as nat)
}

/// How many bytes a state reads, when that is fixed.
pub open spec fn spec_fixed_len(s: Socks5State) -> Option<nat> {
    match s {
        Socks5State::Greeting => Some(1),
        Socks5State::Methods => None,
        Socks5State::Request => Some(4),
        Socks5State::AddrV4 => Some(4),
        Socks5State::DomainLen => Some(1),
        Socks5State::Domain => None,
        Socks5State::AddrV6 => Some(16),
        Socks5State::Port(_) => Some(2),
    }
}

/// Two hosts name the same destination.
pub open spec fn same_host(a: Host, b: Host) -> bool {
    match (a, b) {
        (Host::Name(x), Host::Name(y)) => x@ == y@,
        (Host::V6(x), Host::V6(y)) => x@ == y@,
        _ => false,
    }
}

/// `r` is what the handshake does in state `s` on reading `input`.
pub open spec fn spec_socks5_step(s: Socks5State, input: Seq<u8>, r: Socks5Step) -> bool {
    match s {
        Socks5State::Greeting => {
            &&& r.reply@ == Seq::<u8>::empty()
            &&& r.next matches Socks5Next::Read(Socks5State::Methods, n)
            &&& n == input[0] as usize
        },
        Socks5State::Methods => {
            &&& r.reply@ == reply_no_auth()
            &&& r.next matches Socks5Next::Read(Socks5State::Request, 4)
        },
        Socks5State::Request => if input[1] != 1 {
            r.reply@ == reply_status(7) && r.next is Close
        } else if input[3] == 1 {
            &&& r.reply@ == Seq::<u8>::empty()
            &&& r.next matches Socks5Next::Read(Socks5State::AddrV4, 4)
        } else if input[3] == 3 {
            &&& r.reply@ == Seq::<u8>::empty()
            &&& r.next matches Socks5Next::Read(Socks5State::DomainLen, 1)
        } else if input[3] == 4 {
            &&& r.reply@ == Seq::<u8>::empty()
            &&& r.next matches Socks5Next::Read(Socks5State::AddrV6, 16)
        } else {
            r.reply@ == reply_status(8) && r.next is Close
        },
        Socks5State::AddrV4 => {
            &&& r.reply@ == Seq::<u8>::empty()
            &&& r.next matches Socks5Next::Read(Socks5State::Port(Host::Name(h)), 2)
            &&& vstd::utf8::encode_utf8(h@) == spec_ipv4_text(input)
        },
        Socks5State::DomainLen => {
            &&& r.reply@ == Seq::<u8>::empty()
            &&& r.next matches Socks5Next::Read(Socks5State::Domain, n)
            &&& n == input[0] as usize
        },
        Socks5State::Domain => {
            &&& r.reply@ == Seq::<u8>::empty()
            &&& if valid_utf8(input) {
                &&& r.next matches Socks5Next::Read(Socks5State::Port(Host::Name(h)), 2)
                &&& h@ == decode_utf8(input)
            } else {
                r.next matches Socks5Next::Fail(ProxyError::NotUtf8)
            }
        },
        Socks5State::AddrV6 => {
            &&& r.reply@ == Seq::<u8>::empty()
            &&& r.next matches Socks5Next::Read(Socks5State::Port(Host::V6(o)), 2)
            &&& o@ == input
        },
        Socks5State::Port(h) => {
            &&& r.reply@ == reply_status(0)
            &&& r.next matches Socks5Next::Tunnel(h2, p)
            &&& same_host(h, h2)
            &&& p as int == input[0] as int * 256 + input[1] as int
        },
    }
}

/// Dotted-decimal text of four octets.
fn ipv4_text(b: &[u8]) -> (r: String)
    requires
        b@.len() == 4,
    ensures
        vstd::utf8::encode_utf8(r@) == spec_ipv4_text(b@),
{
    let mut out: Vec<u8> = Vec::new();
    push_decimal(&mut out, b[0] as u128);
    out.push(46);
    push_decimal(&mut out, b[1] as u128);
    out.push(46);
    push_decimal(&mut out, b[2] as u128);
    out.push(46);
    push_decimal(&mut out, b[3] as u128);
    proof {
        assert(out@ =~= spec_ipv4_text(b@));
        crate::numfmt::lemma_decimal_ascii(b@[0] as nat);
        crate::numfmt::lemma_decimal_ascii(b@[1] as nat);
        crate::numfmt::lemma_decimal_ascii(b@[2] as nat);
        crate::numfmt::lemma_decimal_ascii(b@[3] as nat);
        assert forall|i: int| 0 <= i < out@.len() implies #[trigger] out@[i] < 128 by {}
        lemma_ascii_valid_utf8(out@);
    }
    string_from_valid_utf8(out)
}

fn status_reply(rep: u8) -> (r: Vec<u8>)
    ensures
        r@ == reply_status(rep),
{
    let mut r: Vec<u8> = Vec::new();
    r.push(5);
    r.push(rep);
    r.push(0);
    r.push(1);
    r.push(0);
    r.push(0);
    r.push(0);
    r.push(0);
    r.push(0);
    r.push(0);
    assert(r@ =~= reply_status(rep));
    r
}

/// Advance the SOCKS5 handshake by the bytes `input` read in state `state`.
pub fn socks5_step(state: Socks5State, input: &[u8]) -> (r: Socks5Step)
    requires
        spec_fixed_len(state) matches Some(n) ==> input@.len() == n,
    ensures
        spec_socks5_step(state, input@, r),
{
    match state {
        Socks5State::Greeting => Socks5Step {
            reply: Vec::new(),
            next: Socks5Next::Read(Socks5State::Methods, input[0] as usize),
        },
        Socks5State::Methods => {
            let mut reply: Vec<u8> = Vec::new();
            reply.push(5);
            reply.push(0);
            assert(reply@ =~= reply_no_auth());
            Socks5Step { reply, next: Socks5Next::Read(Socks5State::Request, 4) }
        },
        Socks5State::Request => {
            if input[1] != 1 {
                Socks5Step { reply: status_reply(7), next: Socks5Next::Close }
            } else if input[3] == 1 {
                Socks5Step { reply: Vec::new(), next: Socks5Next::Read(Socks5State::AddrV4, 4) }
            } else if input[3] == 3 {
                Socks5Step { reply: Vec::new(), next: Socks5Next::Read(Socks5State::DomainLen, 1) }
            } else if input[3] == 4 {
                Socks5Step { reply: Vec::new(), next: Socks5Next::Read(Socks5State::AddrV6, 16) }
            } else {
                Socks5Step { reply: status_reply(8), next: Socks5Next::Close }
            }
        },
        Socks5State::AddrV4 => Socks5Step {
            reply: Vec::new(),
            next: Socks5Next::Read(Socks5State::Port(Host::Name(ipv4_text(input))), 2),
        },
        Socks5State::DomainLen => Socks5Step {
            reply: Vec::new(),
            next: Socks5Next::Read(Socks5State::Domain, input[0] as usize),
        },
        Socks5State::Domain => {
            let mut name: Vec<u8> = Vec::new();
            append_bytes(&mut name, input);
            match string_from_utf8(name) {
                Some(h) => Socks5Step {
                    reply: Vec::new(),
                    next: Socks5Next::Read(Socks5State::Port(Host::Name(h)), 2),
                },
                None => Socks5Step { reply: Vec::new(), next: Socks5Next::Fail(ProxyError::NotUtf8) },
            }
        },
        Socks5State::AddrV6 => {
            let mut o: Vec<u8> = Vec::new();
            append_bytes(&mut o, input);
            Socks5Step { reply: Vec::new(), next: Socks5Next::Read(Socks5State::Port(Host::V6(o)), 2) }
        },
        Socks5State::Port(h) => {
            let port: u16 = (input[0] as u16) * 256 + (input[1] as u16);
            Socks5Step { reply: status_reply(0), next: Socks5Next::Tunnel(h, port) }
        },
    }
}

/// The handshake asks for what it can take: whenever a step says to read
/// `n` bytes for the next state, `n` is exactly what that state reads when
/// its size is fixed, so reading `n` bytes always meets the next step's
/// precondition.
pub proof fn lemma_socks5_reads_fit(s: Socks5State, input: Seq<u8>, r: Socks5Step)
    requires
        spec_socks5_step(s, input, r),
    ensures
        r.next matches Socks5Next::Read(s2, n) ==> (spec_fixed_len(s2) matches Some(k) ==> n == k),
{
}

// ── The first payload of a tunnel ────────────────────────────────────────

/// What is written to the server for the client's first payload `d`, one
/// write per element: a ClientHello as two TLS records; an HTTP request
/// with its header names mangled, then sanitized; anything else as is.
pub open spec fn spec_first_writes(d: Seq<u8>) -> Seq<Seq<u8>> {
    if crate::tls::spec_is_client_hello(d) {
        seq![crate::tls::spec_split(d).0, crate::tls::spec_split(d).1]
    } else if crate::http::spec_is_http(d) {
        seq![crate::anon::spec_sanitize_http(crate::http::spec_mangle_alternating(d))]
    } else {
        seq![d]
    }
}

/// The writes, in order, that carry the client's first payload `first` to
/// the server; each is sent on its own so that it leaves in its own TCP
/// segment.
///
/// The record split stands in for the native bypass core, whose source is
/// not part of this project; header names are mangled in the alternating
/// case that core writes (`User-Agent` becomes `uSeR-AgEnT`).
pub fn first_payload_writes(first: &[u8]) -> (r: Vec<Vec<u8>>)
    ensures
        r@.map_values(|w: Vec<u8>| w@) == spec_first_writes(first@),
{
    let mut out: Vec<Vec<u8>> = Vec::new();
    if crate::tls::is_client_hello(first) {
        let (r1, r2) = crate::tls::split_into_records(first);
        out.push(r1);
        out.push(r2);
    } else if crate::anon::is_http(first) {
        let mangled = crate::http::mangle_alternating(first);
        out.push(crate::anon::sanitize_http(mangled.as_slice()));
    } else {
        let mut raw: Vec<u8> = Vec::new();
        append_bytes(&mut raw, first);
        out.push(raw);
    }
    assert(out@.map_values(|w: Vec<u8>| w@) =~= spec_first_writes(first@));
    out
}

} // verus!

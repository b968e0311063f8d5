//! Anonymity and traffic normalisation layer, applied to plain HTTP
//! requests before they leave through the bypass tunnel:
//!   • headers that reveal the client's real IP or a proxy chain are removed
//!   • Referer is removed
//!   • User-Agent becomes one generic browser string
//!   • Accept-Language becomes "en-US,en;q=0.9"

use vstd::prelude::*;
use crate::bytes::{
    crlf2_at, ends_with_cr, line_crlf_fn, no_lf, plain_lines, spec_join_rest,
    append_bytes, ascii_lower, bytes_eq, crlf, find_byte, find_crlf2, lemma_find_byte_range,
    lemma_render_last, lemma_render_starts_with_request_line, lemma_render_step, lit, push_crlf,
    spec_ascii_lower, spec_find_byte, spec_find_crlf2, spec_lines, spec_render_lines, spec_render_one,
    spec_strip_cr, strip_cr, to_vec,
};
use crate::http::{lemma_vary_case_same_name, spec_keep_canonical, spec_mangle_line_as, spec_vary_case};

verus! {

/// Generic Chrome User-Agent: common, so it singles out no one.
pub const GENERIC_UA: &'static str = "Mozilla/5.0 (Windows NT 10.0; Win64; x64) AppleWebKit/537.36 (KHTML, like Gecko) Chrome/124.0.0.0 Safari/537.36";

/// Accept-Language value sent in place of the client's own.
pub const GENERIC_ACCEPT_LANGUAGE: &'static str = "en-US,en;q=0.9";

/// Lowercase header names that reveal the client's real IP or a proxy chain.
pub open spec fn is_leaky_header(n: Seq<u8>) -> bool {
    ||| n == lit("x-real-ip")
    ||| n == lit("x-forwarded-for")
    ||| n == lit("x-forwarded-host")
    ||| n == lit("x-forwarded-proto")
    ||| n == lit("x-forwarded-port")
    ||| n == lit("forwarded")
    ||| n == lit("via")
    ||| n == lit("proxy-connection")
    ||| n == lit("proxy-authorization")
    ||| n == lit("x-proxy-id")
    ||| n == lit("x-tin")
    ||| n == lit("client-ip")
    ||| n == lit("x-client-ip")
    ||| n == lit("true-client-ip")
    ||| n == lit("cf-connecting-ip")
    ||| n == lit("fastly-client-ip")
    ||| n == lit("x-cluster-client-ip")
    ||| n == lit("wl-proxy-client-ip")
}

/// The header line `User-Agent: <generic>` with CR LF.
pub open spec fn generic_ua_line() -> Seq<u8> {
    lit("User-Agent: ") + lit(GENERIC_UA) + crlf()
}

/// The header line `Accept-Language: en-US,en;q=0.9` with CR LF.
pub open spec fn generic_accept_language_line() -> Seq<u8> {
    lit("Accept-Language: ") + lit(GENERIC_ACCEPT_LANGUAGE) + crlf()
}

/// What one header line (not the request line) becomes, with its CR LF;
/// the empty sequence means the line is dropped.
pub open spec fn spec_sanitize_line(l: Seq<u8>) -> Seq<u8> {
    match spec_find_byte(l, 58u8, 0) {
        None => l + crlf(),
        Some(c) => {
            let n = spec_ascii_lower(l.subrange(0, c));
            if is_leaky_header(n) || n == lit("referer") {
                Seq::empty()
            } else if n == lit("user-agent") {
                generic_ua_line()
            } else if n == lit("accept-language") {
                generic_accept_language_line()
            } else {
                l + crlf()
            }
        },
    }
}

pub open spec fn sanitize_line_fn() -> spec_fn(Seq<u8>) -> Seq<u8> {
    |l: Seq<u8>| spec_sanitize_line(l)
}

/// The sanitized request: unchanged unless it starts with an HTTP method
/// and has a CR LF CR LF; otherwise the request line verbatim, every other
/// header line as `spec_sanitize_line` says, the blank line, and everything
/// after the first CR LF CR LF.
pub open spec fn spec_sanitize_http(d: Seq<u8>) -> Seq<u8> {
    if !spec_is_http(d) {
        d
    } else {
        match spec_find_crlf2(d, 0) {
            None => d,
            Some(p) => spec_render_lines(d.subrange(0, p), 0, true, sanitize_line_fn()) + crlf()
                + d.subrange(p + 4, d.len() as int),
        }
    }
}

/// Same method test as the mangler uses.
pub open spec fn spec_is_http(d: Seq<u8>) -> bool {
    crate::http::spec_is_http(d)
}

/// Apply the anonymity transforms to a raw HTTP/1.x request.
pub fn sanitize_http(data: &[u8]) -> (r: Vec<u8>)
    ensures
        r@ == spec_sanitize_http(data@),
{
    if !is_http(data) {
        return to_vec(data);
    }
    let sep = match find_crlf2(data) {
        Some(p) => p,
        None => return to_vec(data),
    };
    proof { crate::bytes::lemma_find_crlf2_range(data@, 0); }
    assert(crlf2_at(data@, sep as int));
    assert(sep + 4 <= data.len());
    let block = &data[0..sep];
    let body = &data[sep + 4..data.len()];
    let ghost f = sanitize_line_fn();
    let mut out: Vec<u8> = Vec::new();
    let mut start: usize = 0;
    let mut first = true;
    loop
        invariant_except_break
            f == sanitize_line_fn(),
            start <= block@.len(),
            spec_render_lines(block@, 0, true, f) == out@ + spec_render_lines(block@, start as int, first, f),
        ensures
            f == sanitize_line_fn(),
            spec_render_lines(block@, 0, true, f) == out@,
        decreases block@.len() - start,
    {
        match find_byte(block, 10, start) {
            Some(j) => {
                proof { lemma_render_step(block@, start as int, j as int, first, f); }
                let line = strip_cr(&block[start..j]);
                let ghost before = out@;
                if first {
                    append_bytes(&mut out, line);
                    push_crlf(&mut out);
                    assert(out@ =~= before + (line@ + crlf()));
                } else {
                    sanitize_line(line, &mut out);
                    assert(f(line@) == spec_sanitize_line(line@));
                }
                assert(out@ == before + spec_render_one(spec_strip_cr(block@.subrange(start as int, j as int)), first, f));
                assert(j < block.len());
                start = j + 1;
                first = false;
            },
            None => {
                proof { lemma_render_last(block@, start as int, first, f); }
                let line = strip_cr(&block[start..block.len()]);
                let ghost before = out@;
                if first {
                    append_bytes(&mut out, line);
                    push_crlf(&mut out);
                    assert(out@ =~= before + (line@ + crlf()));
                } else {
                    sanitize_line(line, &mut out);
                    assert(f(line@) == spec_sanitize_line(line@));
                }
                assert(out@ == before + spec_render_one(spec_strip_cr(block@.subrange(start as int, block@.len() as int)), first, f));
                break;
            },
        }
    }
    push_crlf(&mut out);
    append_bytes(&mut out, body);
    out
}

/// Append what header line `line` becomes to `out`.
fn sanitize_line(line: &[u8], out: &mut Vec<u8>)
    ensures
        final(out)@ == old(out)@ + spec_sanitize_line(line@),
{
    let ghost before = out@;
    match find_byte(line, 58, 0) {
        None => {
            append_bytes(out, line);
            push_crlf(out);
            assert(out@ =~= before + (line@ + crlf()));
        },
        Some(c) => {
            let lower = ascii_lower(&line[0..c]);
            let n = lower.as_slice();
            if is_leaky(n) || bytes_eq(n, "referer".as_bytes()) {
                assert(out@ =~= before + Seq::<u8>::empty());
            } else if bytes_eq(n, "user-agent".as_bytes()) {
                append_bytes(out, "User-Agent: ".as_bytes());
                append_bytes(out, GENERIC_UA.as_bytes());
                push_crlf(out);
            } else if bytes_eq(n, "accept-language".as_bytes()) {
                append_bytes(out, "Accept-Language: ".as_bytes());
                append_bytes(out, GENERIC_ACCEPT_LANGUAGE.as_bytes());
                push_crlf(out);
            } else {
                append_bytes(out, line);
                push_crlf(out);
                assert(out@ =~= before + (line@ + crlf()));
            }
        },
    }
}

/// `n` (already lowercase) names a header that leaks the client's identity.
fn is_leaky(n: &[u8]) -> (r: bool)
    ensures
        r == is_leaky_header(n@),
{
    bytes_eq(n, "x-real-ip".as_bytes()) || bytes_eq(n, "x-forwarded-for".as_bytes())
        || bytes_eq(n, "x-forwarded-host".as_bytes()) || bytes_eq(n, "x-forwarded-proto".as_bytes())
        || bytes_eq(n, "x-forwarded-port".as_bytes()) || bytes_eq(n, "forwarded".as_bytes())
        || bytes_eq(n, "via".as_bytes()) || bytes_eq(n, "proxy-connection".as_bytes())
        || bytes_eq(n, "proxy-authorization".as_bytes()) || bytes_eq(n, "x-proxy-id".as_bytes())
        || bytes_eq(n, "x-tin".as_bytes()) || bytes_eq(n, "client-ip".as_bytes())
        || bytes_eq(n, "x-client-ip".as_bytes()) || bytes_eq(n, "true-client-ip".as_bytes())
        || bytes_eq(n, "cf-connecting-ip".as_bytes()) || bytes_eq(n, "fastly-client-ip".as_bytes())
        || bytes_eq(n, "x-cluster-client-ip".as_bytes()) || bytes_eq(n, "wl-proxy-client-ip".as_bytes())
}

/// True if `data` starts with a recognised HTTP method.
pub fn is_http(data: &[u8]) -> (r: bool)
    ensures
        r == spec_is_http(data@),
{
    crate::http::is_http(data)
}

/// Identifying headers never leave: a header line whose name (in any
/// case) is one of the IP- or proxy-revealing headers, or Referer, is
/// dropped.
pub proof fn lemma_leaky_headers_dropped(l: Seq<u8>, c: int)
    requires
        spec_find_byte(l, 58u8, 0) == Some(c),
        is_leaky_header(spec_ascii_lower(l.subrange(0, c))) || spec_ascii_lower(l.subrange(0, c)) == lit("referer"),
    ensures
        spec_sanitize_line(l) == Seq::<u8>::empty(),
{
}

/// Whatever User-Agent or Accept-Language a client sends, the same generic
/// line goes out in its place.
pub proof fn lemma_fingerprint_headers_normalised(l: Seq<u8>, c: int)
    requires
        spec_find_byte(l, 58u8, 0) == Some(c),
    ensures
        spec_ascii_lower(l.subrange(0, c)) == lit("user-agent") ==> spec_sanitize_line(l) == generic_ua_line(),
        spec_ascii_lower(l.subrange(0, c)) == lit("accept-language")
            ==> spec_sanitize_line(l) == generic_accept_language_line(),
{
    reveal_strlit("user-agent");
    reveal_strlit("referer");
    reveal_strlit("accept-language");
    let n = spec_ascii_lower(l.subrange(0, c));
    if n == lit("user-agent") {
        lemma_not_leaky_or_referer(n);
    }
    if n == lit("accept-language") {
        lemma_not_leaky_or_referer(n);
        assert(lit("accept-language") != lit("user-agent")) by {
            lemma_ascii_lit_len("accept-language");
            lemma_ascii_lit_len("user-agent");
        }
    }
}

/// Other headers pass through byte for byte.
pub proof fn lemma_other_headers_kept(l: Seq<u8>, c: int)
    requires
        spec_find_byte(l, 58u8, 0) == Some(c),
        !is_leaky_header(spec_ascii_lower(l.subrange(0, c))),
        spec_ascii_lower(l.subrange(0, c)) != lit("referer"),
        spec_ascii_lower(l.subrange(0, c)) != lit("user-agent"),
        spec_ascii_lower(l.subrange(0, c)) != lit("accept-language"),
    ensures
        spec_sanitize_line(l) == l + crlf(),
{
}

/// The request line, the blank line and the body are never touched: a
/// sanitized HTTP request starts with the original request line and CR LF,
/// and ends with everything from the second CR LF of the original's first
/// CR LF CR LF on.
pub proof fn lemma_sanitize_keeps_request_line_and_body(d: Seq<u8>, p: int)
    requires
        spec_is_http(d),
        spec_find_crlf2(d, 0) == Some(p),
    ensures
        spec_sanitize_http(d).subrange(0, spec_lines(d.subrange(0, p), 0)[0].len() + 2int)
            == spec_lines(d.subrange(0, p), 0)[0] + crlf(),
        spec_sanitize_http(d).len() >= d.len() - (p + 2),
        spec_sanitize_http(d).subrange(spec_sanitize_http(d).len() - (d.len() - (p + 2)), spec_sanitize_http(d).len() as int)
            == d.subrange(p + 2, d.len() as int),
{
    crate::bytes::lemma_find_crlf2_range(d, 0);
    let block = d.subrange(0, p);
    let f = sanitize_line_fn();
    lemma_render_starts_with_request_line(block, f);
    let first = spec_lines(block, 0)[0];
    let rendered = spec_render_lines(block, 0, true, f);
    let r = spec_sanitize_http(d);
    assert(r == rendered + crlf() + d.subrange(p + 4, d.len() as int));
    assert(r.subrange(0, first.len() + 2int) =~= rendered.subrange(0, first.len() + 2int));
    assert(r.subrange(r.len() - (d.len() - (p + 2)), r.len() as int) =~= d.subrange(p + 2, d.len() as int));
}

/// Case mangling does not hide a leaky header from the anonymity layer:
/// after the mangler has varied a leaky header's name, the sanitizer still
/// drops that line.
pub proof fn lemma_leaky_header_dropped_after_mangling(l: Seq<u8>, c: int, alternating: bool)
    requires
        spec_find_byte(l, 58u8, 0) == Some(c),
        is_leaky_header(spec_ascii_lower(l.subrange(0, c))),
    ensures
        spec_sanitize_line(spec_mangle_line_as(l, alternating).drop_last().drop_last()) == Seq::<u8>::empty(),
{
    lemma_find_byte_range(l, 58u8, 0);
    let name = l.subrange(0, c);
    let rest = l.subrange(c, l.len() as int);
    let m = if spec_keep_canonical(name) { name } else { spec_vary_case(name, alternating) };
    lemma_vary_case_same_name(name, alternating);
    assert(name + rest =~= l);
    let ml = m + rest;
    assert(spec_mangle_line_as(l, alternating) == ml + crlf());
    assert(spec_mangle_line_as(l, alternating).drop_last().drop_last() =~= ml);
    lemma_find_colon_same_prefix(name, m, rest);
    assert(ml.subrange(0, c) =~= m);
}

proof fn lemma_find_colon_same_prefix(name: Seq<u8>, m: Seq<u8>, rest: Seq<u8>)
    requires
        m.len() == name.len(),
        spec_ascii_lower(m) == spec_ascii_lower(name),
        spec_find_byte(name + rest, 58u8, 0) == Some(name.len() as int),
    ensures
        spec_find_byte(m + rest, 58u8, 0) == Some(name.len() as int),
{
    lemma_find_prefix_no_colon(name, m, rest, 0);
}

proof fn lemma_find_prefix_no_colon(name: Seq<u8>, m: Seq<u8>, rest: Seq<u8>, i: int)
    requires
        m.len() == name.len(),
        spec_ascii_lower(m) == spec_ascii_lower(name),
        0 <= i <= name.len(),
        spec_find_byte(name + rest, 58u8, i) == Some(name.len() as int),
    ensures
        spec_find_byte(m + rest, 58u8, i) == Some(name.len() as int),
    decreases name.len() - i,
{
    if i < name.len() {
        assert((name + rest)[i] == name[i]);
        assert((m + rest)[i] == m[i]);
        assert(spec_ascii_lower(m)[i] == spec_ascii_lower(name)[i]);
        assert(spec_ascii_lower(m)[i] == crate::bytes::lower_byte(m[i]));
        assert(spec_ascii_lower(name)[i] == crate::bytes::lower_byte(name[i]));
        assert(name[i] != 58u8);
        assert(m[i] != 58u8);
        lemma_find_prefix_no_colon(name, m, rest, i + 1);
    } else {
        lemma_find_byte_range(name + rest, 58u8, i + 1);
        assert((name + rest)[i] == rest[0]);
        assert((m + rest)[i] == rest[0]);
    }
}

/// The generic User-Agent header line, without its CR LF.
pub open spec fn generic_ua_content() -> Seq<u8> {
    lit("User-Agent: ") + lit(GENERIC_UA)
}

/// The generic Accept-Language header line, without its CR LF.
pub open spec fn generic_accept_language_content() -> Seq<u8> {
    lit("Accept-Language: ") + lit(GENERIC_ACCEPT_LANGUAGE)
}

/// A header line without LF that the sanitizer writes back as it is.
pub open spec fn settled_line(c: Seq<u8>) -> bool {
    &&& spec_sanitize_line(c) == c + crlf()
    &&& no_lf(c)
}

/// A header line that the sanitizer leaves alone: no ':' at all, or a
/// name that is neither stripped nor normalised.
pub open spec fn is_plain_header(l: Seq<u8>) -> bool {
    match spec_find_byte(l, 58u8, 0) {
        None => true,
        Some(c) => {
            let n = spec_ascii_lower(l.subrange(0, c));
            &&& !is_leaky_header(n)
            &&& n != lit("referer")
            &&& n != lit("user-agent")
            &&& n != lit("accept-language")
        },
    }
}

/// What the header lines `ls` leave in the output, each without its CR LF;
/// dropped lines leave nothing.
pub open spec fn spec_emitted(ls: Seq<Seq<u8>>) -> Seq<Seq<u8>>
    decreases ls.len(),
{
    if ls.len() == 0 {
        Seq::empty()
    } else {
        let r = spec_sanitize_line(ls[0]);
        let rest = spec_emitted(ls.drop_first());
        if r.len() == 0 { rest } else { seq![r.subrange(0, r.len() - 2)] + rest }
    }
}

proof fn lemma_generic_ua_content()
    ensures
        settled_line(generic_ua_content()),
        generic_ua_content().len() > 0,
        !ends_with_cr(generic_ua_content()),
        generic_ua_line() == generic_ua_content() + crlf(),
{
    reveal_strlit("User-Agent: ");
    reveal_strlit("Mozilla/5.0 (Windows NT 10.0; Win64; x64) AppleWebKit/537.36 (KHTML, like Gecko) Chrome/124.0.0.0 Safari/537.36");
    reveal_strlit("user-agent");
    lemma_ascii_lit("User-Agent: ");
    lemma_ascii_lit(GENERIC_UA);
    lemma_ascii_lit("user-agent");
    let h = lit("User-Agent: ");
    let u = lit(GENERIC_UA);
    let c = generic_ua_content();
    assert forall|k: int| 0 <= k < 10 implies c[k] != 58u8 by {
        assert(c[k] == h[k]);
    }
    crate::bytes::lemma_find_byte_skip(c, 58u8, 0, 10);
    assert(c[10] == 58u8);
    assert(spec_find_byte(c, 58u8, 0) == Some(10int));
    assert(spec_ascii_lower(c.subrange(0, 10)) =~= lit("user-agent"));
    lemma_not_leaky_or_referer(lit("user-agent"));
    assert(generic_ua_line() =~= c + crlf());
    assert forall|k: int| 0 <= k < c.len() implies c[k] != 10u8 by {
        if k < 12 {
            assert(c[k] == h[k]);
        } else {
            assert(c[k] == u[k - 12]);
        }
    }
    assert(c.last() == u.last());
}

proof fn lemma_generic_accept_language_content()
    ensures
        settled_line(generic_accept_language_content()),
        generic_accept_language_content().len() > 0,
        !ends_with_cr(generic_accept_language_content()),
        generic_accept_language_line() == generic_accept_language_content() + crlf(),
{
    reveal_strlit("Accept-Language: ");
    reveal_strlit("en-US,en;q=0.9");
    reveal_strlit("accept-language");
    reveal_strlit("user-agent");
    lemma_ascii_lit("Accept-Language: ");
    lemma_ascii_lit(GENERIC_ACCEPT_LANGUAGE);
    lemma_ascii_lit("accept-language");
    lemma_ascii_lit("user-agent");
    let h = lit("Accept-Language: ");
    let u = lit(GENERIC_ACCEPT_LANGUAGE);
    let c = generic_accept_language_content();
    assert forall|k: int| 0 <= k < 15 implies c[k] != 58u8 by {
        assert(c[k] == h[k]);
    }
    crate::bytes::lemma_find_byte_skip(c, 58u8, 0, 15);
    assert(c[15] == 58u8);
    assert(spec_find_byte(c, 58u8, 0) == Some(15int));
    assert(spec_ascii_lower(c.subrange(0, 15)) =~= lit("accept-language"));
    lemma_not_leaky_or_referer(lit("accept-language"));
    assert(lit("accept-language") != lit("user-agent"));
    assert(generic_accept_language_line() =~= c + crlf());
    assert forall|k: int| 0 <= k < c.len() implies c[k] != 10u8 by {
        if k < 17 {
            assert(c[k] == h[k]);
        } else {
            assert(c[k] == u[k - 17]);
        }
    }
    assert(c.last() == u.last());
}

/// What a header line becomes is nothing, or one line and its CR LF: the
/// line itself, or one of the generic lines.
proof fn lemma_sanitize_line_shape(l: Seq<u8>)
    ensures
        ({
            let r = spec_sanitize_line(l);
            r.len() == 0 || {
                &&& r.len() >= 2
                &&& r == r.subrange(0, r.len() - 2) + crlf()
                &&& (r.subrange(0, r.len() - 2) == l || r.subrange(0, r.len() - 2) == generic_ua_content()
                    || r.subrange(0, r.len() - 2) == generic_accept_language_content())
            }
        }),
{
    lemma_generic_ua_content();
    lemma_generic_accept_language_content();
    let r = spec_sanitize_line(l);
    if r.len() > 0 {
        assert(r.subrange(0, r.len() - 2) + crlf() =~= r);
        if r == l + crlf() {
            assert(r.subrange(0, r.len() - 2) =~= l);
        } else if r == generic_ua_line() {
            assert(r.subrange(0, r.len() - 2) =~= generic_ua_content());
        } else {
            assert(r.subrange(0, r.len() - 2) =~= generic_accept_language_content());
        }
    }
}

/// Sanitizing header lines is joining what they leave, each with CR LF.
proof fn lemma_join_emitted(ls: Seq<Seq<u8>>)
    ensures
        spec_join_rest(ls, sanitize_line_fn()) == spec_join_rest(spec_emitted(ls), line_crlf_fn()),
    decreases ls.len(),
{
    if ls.len() > 0 {
        let f = sanitize_line_fn();
        let g = line_crlf_fn();
        let rest = ls.drop_first();
        lemma_join_emitted(rest);
        lemma_sanitize_line_shape(ls[0]);
        let r = spec_sanitize_line(ls[0]);
        assert(f(ls[0]) == r);
        if r.len() > 0 {
            let c = r.subrange(0, r.len() - 2);
            let e = spec_emitted(ls);
            assert(e == seq![c] + spec_emitted(rest));
            assert(e[0] == c);
            assert(e.drop_first() =~= spec_emitted(rest));
            assert(g(c) == c + crlf());
        } else {
            assert(r =~= Seq::<u8>::empty());
        }
    }
}

/// Header lines without LF leave only settled lines behind.
proof fn lemma_emitted_settled(ls: Seq<Seq<u8>>)
    requires
        forall|i: int| 0 <= i < ls.len() ==> no_lf(#[trigger] ls[i]),
    ensures
        forall|i: int| 0 <= i < spec_emitted(ls).len() ==> settled_line(#[trigger] spec_emitted(ls)[i]),
    decreases ls.len(),
{
    if ls.len() > 0 {
        let rest = ls.drop_first();
        assert forall|i: int| 0 <= i < rest.len() implies no_lf(#[trigger] rest[i]) by {
            assert(rest[i] == ls[i + 1]);
        }
        lemma_emitted_settled(rest);
        lemma_sanitize_line_shape(ls[0]);
        lemma_generic_ua_content();
        lemma_generic_accept_language_content();
        let r = spec_sanitize_line(ls[0]);
        let e = spec_emitted(ls);
        if r.len() > 0 {
            let c = r.subrange(0, r.len() - 2);
            assert(e == seq![c] + spec_emitted(rest));
            assert(settled_line(c));
            assert forall|i: int| 0 <= i < e.len() implies settled_line(#[trigger] e[i]) by {
                if i > 0 {
                    assert(e[i] == spec_emitted(rest)[i - 1]);
                }
            }
        }
    }
}

/// The first three bytes of an HTTP request are letters.
proof fn lemma_http_prefix(d: Seq<u8>)
    requires
        spec_is_http(d),
    ensures
        d.len() >= 3,
        forall|k: int| 0 <= k < 3 ==> d[k] != 10u8 && d[k] != 13u8,
{
    reveal_strlit("GET");
    reveal_strlit("POS");
    reveal_strlit("PUT");
    reveal_strlit("DEL");
    reveal_strlit("HEA");
    reveal_strlit("OPT");
    reveal_strlit("PAT");
    lemma_ascii_lit("GET");
    lemma_ascii_lit("POS");
    lemma_ascii_lit("PUT");
    lemma_ascii_lit("DEL");
    lemma_ascii_lit("HEA");
    lemma_ascii_lit("OPT");
    lemma_ascii_lit("PAT");
    let p = d.subrange(0, 3);
    assert forall|k: int| 0 <= k < 3 implies d[k] != 10u8 && d[k] != 13u8 by {
        assert(d[k] == p[k]);
    }
}

/// The request line of an HTTP request keeps its first three bytes.
proof fn lemma_request_line_prefix(d: Seq<u8>, p: int)
    requires
        spec_is_http(d),
        3 <= p <= d.len(),
    ensures
        spec_lines(d.subrange(0, p), 0)[0].len() >= 3,
        spec_lines(d.subrange(0, p), 0)[0].subrange(0, 3) == d.subrange(0, 3),
{
    lemma_http_prefix(d);
    let h = d.subrange(0, p);
    crate::bytes::lemma_find_byte_range(h, 10u8, 0);
    crate::bytes::lemma_find_byte_first(h, 10u8, 0);
    let seg = match spec_find_byte(h, 10u8, 0) {
        Some(j) => h.subrange(0, j),
        None => h,
    };
    match spec_find_byte(h, 10u8, 0) {
        Some(j) => {
            assert(h[0] == d[0] && h[1] == d[1] && h[2] == d[2]);
            assert(j >= 3);
        },
        None => {
            assert(h.subrange(0, h.len() as int) =~= h);
        },
    }
    assert(spec_lines(h, 0)[0] == spec_strip_cr(seg));
    assert(seg.len() >= 3);
    assert(seg.len() == 3 ==> seg.last() == d[2]);
    assert(spec_strip_cr(seg).subrange(0, 3) =~= d.subrange(0, 3));
}

/// Input that is not an HTTP request passes through unchanged.
pub proof fn lemma_sanitize_passes_non_http(d: Seq<u8>)
    requires
        !spec_is_http(d),
    ensures
        spec_sanitize_http(d) == d,
{
}

/// A request with nothing to change comes back byte for byte: an HTTP
/// request whose header lines all end in CR LF and whose header names are
/// neither stripped nor normalised.
pub proof fn lemma_sanitize_leaves_plain_request(d: Seq<u8>, p: int)
    requires
        spec_is_http(d),
        spec_find_crlf2(d, 0) == Some(p),
        crate::bytes::crlf_separated(d.subrange(0, p)),
        !ends_with_cr(d.subrange(0, p)),
        forall|i: int| 1 <= i < spec_lines(d.subrange(0, p), 0).len()
            ==> is_plain_header(#[trigger] spec_lines(d.subrange(0, p), 0)[i]),
    ensures
        spec_sanitize_http(d) == d,
{
    crate::bytes::lemma_find_crlf2_range(d, 0);
    let h = d.subrange(0, p);
    let f = sanitize_line_fn();
    let g = line_crlf_fn();
    let ls = spec_lines(h, 0);
    crate::bytes::lemma_render_is_per_line(h, 0, true, f);
    let rest = ls.drop_first();
    assert forall|i: int| 0 <= i < rest.len() implies f(#[trigger] rest[i]) == rest[i] + crlf() by {
        assert(rest[i] == ls[i + 1]);
        assert(is_plain_header(ls[i + 1]));
    }
    crate::bytes::lemma_join_fixed(rest, f);
    crate::bytes::lemma_lines_rejoin(h, 0);
    assert(spec_join_rest(ls, g) == g(ls[0]) + spec_join_rest(rest, g));
    assert(spec_render_lines(h, 0, true, f) == h + crlf());
    assert(h + crlf() + crlf() + d.subrange(p + 4, d.len() as int) =~= d);
}

/// The lines the head of a sanitized request is made of: the request line,
/// then what each header line of `d.subrange(0, p)` leaves, each without
/// its CR LF.
pub open spec fn spec_sanitized_head_lines(d: Seq<u8>, p: int) -> Seq<Seq<u8>> {
    let ls = spec_lines(d.subrange(0, p), 0);
    seq![ls[0]] + spec_emitted(ls.drop_first())
}

/// The index of the first empty line of `cs` at or after `i`, or the number
/// of lines.
pub open spec fn spec_first_empty(cs: Seq<Seq<u8>>, i: int) -> int
    decreases cs.len() - i,
{
    if i < 0 || i >= cs.len() {
        cs.len() as int
    } else if cs[i].len() == 0 {
        i
    } else {
        spec_first_empty(cs, i + 1)
    }
}

proof fn lemma_first_empty(cs: Seq<Seq<u8>>, i: int)
    requires
        0 <= i <= cs.len(),
    ensures
        i <= spec_first_empty(cs, i) <= cs.len(),
        forall|k: int| i <= k < spec_first_empty(cs, i) ==> (#[trigger] cs[k]).len() > 0,
        spec_first_empty(cs, i) < cs.len() ==> cs[spec_first_empty(cs, i)].len() == 0,
    decreases cs.len() - i,
{
    if i < cs.len() && cs[i].len() > 0 {
        lemma_first_empty(cs, i + 1);
    }
}

/// Joining two runs of lines is joining each and putting them together.
proof fn lemma_join_concat(a: Seq<Seq<u8>>, b: Seq<Seq<u8>>, f: spec_fn(Seq<u8>) -> Seq<u8>)
    ensures
        spec_join_rest(a + b, f) == spec_join_rest(a, f) + spec_join_rest(b, f),
    decreases a.len(),
{
    if a.len() == 0 {
        assert(a + b =~= b);
        assert(spec_join_rest(a, f) =~= Seq::<u8>::empty());
    } else {
        lemma_join_concat(a.drop_first(), b, f);
        assert((a + b).drop_first() =~= a.drop_first() + b);
        assert((a + b)[0] == a[0]);
        assert(spec_join_rest(a + b, f) == f(a[0]) + spec_join_rest(a.drop_first() + b, f));
        assert(spec_join_rest(a, f) == f(a[0]) + spec_join_rest(a.drop_first(), f));
    }
}

/// Sanitizing twice is sanitizing once, unless the last line the sanitizer
/// writes before its first blank line ends in CR (that CR would be taken as
/// part of the line ending on the second pass).
pub proof fn lemma_sanitize_idempotent(d: Seq<u8>)
    requires
        spec_is_http(d) ==> (spec_find_crlf2(d, 0) matches Some(p) ==> !ends_with_cr(
            spec_sanitized_head_lines(d, p)[spec_first_empty(spec_sanitized_head_lines(d, p), 0) - 1])),
    ensures
        spec_sanitize_http(spec_sanitize_http(d)) == spec_sanitize_http(d),
{
    if spec_is_http(d) {
        if let Some(p) = spec_find_crlf2(d, 0) {
            crate::bytes::lemma_find_crlf2_range(d, 0);
            lemma_http_prefix(d);
            assert(p >= 3) by {
                assert(d[p] == 13u8);
            }
            let h = d.subrange(0, p);
            let b = d.subrange(p + 4, d.len() as int);
            let f = sanitize_line_fn();
            let g = line_crlf_fn();
            let ls = spec_lines(h, 0);
            crate::bytes::lemma_render_is_per_line(h, 0, true, f);
            crate::bytes::lemma_lines_no_lf(h, 0);
            lemma_request_line_prefix(d, p);
            let rest = ls.drop_first();
            assert forall|i: int| 0 <= i < rest.len() implies no_lf(#[trigger] rest[i]) by {
                assert(rest[i] == ls[i + 1]);
            }
            lemma_join_emitted(rest);
            lemma_emitted_settled(rest);
            let em = spec_emitted(rest);
            let cs = spec_sanitized_head_lines(d, p);
            assert(cs == seq![ls[0]] + em);
            assert(cs[0] == ls[0]);
            assert(cs.drop_first() =~= em);
            let j = spec_join_rest(cs, g);
            assert(j == g(ls[0]) + spec_join_rest(em, g));
            assert(spec_render_lines(h, 0, true, f) == j);
            let s = spec_sanitize_http(d);
            assert(s == j + crlf() + b);
            // The lines up to the first blank one.
            lemma_first_empty(cs, 0);
            let k = spec_first_empty(cs, 0);
            assert(cs[0].len() >= 3);
            assert(k >= 1);
            let pre = cs.subrange(0, k);
            let post = cs.subrange(k, cs.len() as int);
            assert(pre + post =~= cs);
            lemma_join_concat(pre, post, g);
            let jp = spec_join_rest(pre, g);
            let bstar = if k < cs.len() {
                spec_join_rest(post.drop_first(), g) + crlf() + b
            } else {
                b
            };
            assert(s =~= jp + crlf() + bstar) by {
                if k < cs.len() {
                    assert(post[0] == cs[k]);
                    assert(post[0] =~= Seq::<u8>::empty());
                    assert(spec_join_rest(post, g) == g(post[0]) + spec_join_rest(post.drop_first(), g));
                    assert(g(post[0]) =~= crlf());
                } else {
                    assert(post =~= Seq::<Seq<u8>>::empty());
                    assert(spec_join_rest(post, g) =~= Seq::<u8>::empty());
                }
            }
            assert forall|i: int| 0 <= i < pre.len() implies (#[trigger] pre[i]).len() > 0 && no_lf(pre[i]) by {
                assert(pre[i] == cs[i]);
                if i > 0 {
                    assert(cs[i] == em[i - 1]);
                    assert(settled_line(em[i - 1]));
                }
            }
            assert(plain_lines(pre));
            assert(pre.last() == cs[k - 1]);
            crate::bytes::lemma_join_find_blank(pre, bstar);
            crate::bytes::lemma_join_lines(pre);
            assert(s.subrange(0, 3) =~= d.subrange(0, 3)) by {
                assert(pre[0] == ls[0]);
                assert(jp == g(pre[0]) + spec_join_rest(pre.drop_first(), g));
                assert(jp.subrange(0, 3) =~= ls[0].subrange(0, 3));
            }
            assert(spec_is_http(s));
            let q = jp.len() - 2;
            assert(spec_find_crlf2(s, 0) == Some(q));
            let h2 = s.subrange(0, q);
            assert(h2 =~= jp.subrange(0, q));
            assert(spec_lines(h2, 0) == pre);
            crate::bytes::lemma_render_is_per_line(h2, 0, true, f);
            let pr = pre.drop_first();
            assert forall|i: int| 0 <= i < pr.len() implies f(#[trigger] pr[i]) == pr[i] + crlf() by {
                assert(pr[i] == cs[i + 1]);
                assert(cs[i + 1] == em[i]);
                assert(settled_line(em[i]));
            }
            crate::bytes::lemma_join_fixed(pr, f);
            assert(jp == g(pre[0]) + spec_join_rest(pr, g));
            assert(spec_render_lines(h2, 0, true, f) == jp);
            assert(s.subrange(q + 4, s.len() as int) =~= bstar);
        }
    }
}

proof fn lemma_ascii_lit_len(s: &str)
    requires
        vstd::utf8::is_ascii_chars(s@),
    ensures
        lit(s).len() == s@.len(),
{
    vstd::utf8::is_ascii_chars_encode_utf8(s@);
}

/// The bytes of an ASCII literal are its characters.
proof fn lemma_ascii_lit(s: &str)
    requires
        vstd::utf8::is_ascii_chars(s@),
    ensures
        lit(s).len() == s@.len(),
        forall|i: int| 0 <= i < s@.len() ==> #[trigger] lit(s)[i] == s@[i] as u8,
{
    vstd::utf8::is_ascii_chars_encode_utf8(s@);
}

proof fn lemma_not_leaky_or_referer(n: Seq<u8>)
    requires
        n == lit("user-agent") || n == lit("accept-language"),
    ensures
        !is_leaky_header(n),
        n != lit("referer"),
{
    reveal_strlit("x-real-ip");
    lemma_ascii_lit("x-real-ip");
    reveal_strlit("x-forwarded-for");
    lemma_ascii_lit("x-forwarded-for");
    reveal_strlit("x-forwarded-host");
    lemma_ascii_lit("x-forwarded-host");
    reveal_strlit("x-forwarded-proto");
    lemma_ascii_lit("x-forwarded-proto");
    reveal_strlit("x-forwarded-port");
    lemma_ascii_lit("x-forwarded-port");
    reveal_strlit("forwarded");
    lemma_ascii_lit("forwarded");
    reveal_strlit("via");
    lemma_ascii_lit("via");
    reveal_strlit("proxy-connection");
    lemma_ascii_lit("proxy-connection");
    reveal_strlit("proxy-authorization");
    lemma_ascii_lit("proxy-authorization");
    reveal_strlit("x-proxy-id");
    lemma_ascii_lit("x-proxy-id");
    reveal_strlit("x-tin");
    lemma_ascii_lit("x-tin");
    reveal_strlit("client-ip");
    lemma_ascii_lit("client-ip");
    reveal_strlit("x-client-ip");
    lemma_ascii_lit("x-client-ip");
    reveal_strlit("true-client-ip");
    lemma_ascii_lit("true-client-ip");
    reveal_strlit("cf-connecting-ip");
    lemma_ascii_lit("cf-connecting-ip");
    reveal_strlit("fastly-client-ip");
    lemma_ascii_lit("fastly-client-ip");
    reveal_strlit("x-cluster-client-ip");
    lemma_ascii_lit("x-cluster-client-ip");
    reveal_strlit("wl-proxy-client-ip");
    lemma_ascii_lit("wl-proxy-client-ip");
    reveal_strlit("referer");
    lemma_ascii_lit("referer");
    reveal_strlit("user-agent");
    lemma_ascii_lit("user-agent");
    reveal_strlit("accept-language");
    lemma_ascii_lit("accept-language");
    assert(lit("user-agent")[0] != lit("x-proxy-id")[0]);
    assert(lit("accept-language")[0] != lit("x-forwarded-for")[0]);
}

} // verus!

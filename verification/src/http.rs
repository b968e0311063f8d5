//! HTTP/1.x request mangling: header-name casing is varied so that DPI
//! keyword matching on plain HTTP fails, while the names stay equal under
//! the case-insensitive comparison that HTTP servers apply.

use vstd::prelude::*;
use crate::bytes::{
    append_bytes, ascii_lower, bytes_eq, crlf, find_byte, find_crlf2, push_crlf, lemma_find_byte_range,
    lemma_render_is_per_line, lemma_render_last, lemma_render_step, lit, spec_ascii_lower,
    spec_find_byte, spec_find_crlf2, spec_join_rest, spec_lines, spec_render_lines, spec_render_one,
    spec_strip_cr, strip_cr, to_vec,
};

verus! {

/// The request starts with the first three letters of a known HTTP method.
pub open spec fn spec_is_http(d: Seq<u8>) -> bool {
    d.len() >= 3 && {
        let p = d.subrange(0, 3);
        ||| p == lit("GET")
        ||| p == lit("POS")
        ||| p == lit("PUT")
        ||| p == lit("DEL")
        ||| p == lit("HEA")
        ||| p == lit("OPT")
        ||| p == lit("PAT")
    }
}

/// ASCII letter.
pub open spec fn is_alpha(b: u8) -> bool {
    (65 <= b <= 90) || (97 <= b <= 122)
}

/// The same letter in the other case; other bytes unchanged.
pub open spec fn toggle_case(b: u8) -> u8 {
    if 65 <= b <= 90 {
        (b + 32) as u8
    } else if 97 <= b <= 122 {
        (b - 32) as u8
    } else {
        b
    }
}

/// Every letter at an odd position switches case.
pub open spec fn spec_randomize_case(n: Seq<u8>) -> Seq<u8> {
    Seq::new(n.len(), |i: int| if is_alpha(n[i]) && i % 2 == 1 { toggle_case(n[i]) } else { n[i] })
}

/// ASCII uppercase of one byte.
pub open spec fn upper_byte(b: u8) -> u8 {
    if 97 <= b <= 122 { (b - 32) as u8 } else { b }
}

/// Letters alternate in case: lower case at even positions, upper case at
/// odd ones (`User-Agent` becomes `uSeR-AgEnT`).
pub open spec fn spec_alternate_case(n: Seq<u8>) -> Seq<u8> {
    Seq::new(n.len(), |i: int| if i % 2 == 0 { crate::bytes::lower_byte(n[i]) } else { upper_byte(n[i]) })
}

/// The case variation in use: alternating, or switching the letters at
/// odd positions.
pub open spec fn spec_vary_case(n: Seq<u8>, alternating: bool) -> Seq<u8> {
    if alternating { spec_alternate_case(n) } else { spec_randomize_case(n) }
}

/// Header names whose casing is left alone: framing and routing headers.
pub open spec fn spec_keep_canonical(name: Seq<u8>) -> bool {
    let l = spec_ascii_lower(name);
    ||| l == lit("host")
    ||| l == lit("content-length")
    ||| l == lit("transfer-encoding")
    ||| l == lit("content-type")
}

/// One header line after mangling (with its CR LF): the name before the
/// first ':' is case-varied unless it is kept canonical; a line without
/// ':' is written unchanged.
pub open spec fn spec_mangle_line_as(l: Seq<u8>, alternating: bool) -> Seq<u8> {
    match spec_find_byte(l, 58u8, 0) {
        Some(c) => {
            let name = l.subrange(0, c);
            let rest = l.subrange(c, l.len() as int);
            (if spec_keep_canonical(name) { name } else { spec_vary_case(name, alternating) }) + rest + crlf()
        },
        None => l + crlf(),
    }
}

/// One header line after `mangle`.
pub open spec fn spec_mangle_line(l: Seq<u8>) -> Seq<u8> {
    spec_mangle_line_as(l, false)
}

pub open spec fn mangle_line_fn_as(alternating: bool) -> spec_fn(Seq<u8>) -> Seq<u8> {
    |l: Seq<u8>| spec_mangle_line_as(l, alternating)
}

/// The whole mangled request: without a CR LF CR LF the request is returned
/// unchanged; otherwise the header block before it is rewritten line by
/// line, then the blank line and everything after the CR LF CR LF follow.
pub open spec fn spec_mangle_as(d: Seq<u8>, alternating: bool) -> Seq<u8> {
    match spec_find_crlf2(d, 0) {
        None => d,
        Some(p) => spec_render_lines(d.subrange(0, p), 0, true, mangle_line_fn_as(alternating)) + crlf()
            + d.subrange(p + 4, d.len() as int),
    }
}

/// What `mangle` returns.
pub open spec fn spec_mangle(d: Seq<u8>) -> Seq<u8> {
    spec_mangle_as(d, false)
}

/// What `mangle_alternating` returns.
pub open spec fn spec_mangle_alternating(d: Seq<u8>) -> Seq<u8> {
    spec_mangle_as(d, true)
}

/// True when `data` starts with a recognised HTTP method.
pub fn is_http(data: &[u8]) -> (r: bool)
    ensures
        r == spec_is_http(data@),
{
    if data.len() < 3 {
        return false;
    }
    let p = &data[0..3];
    bytes_eq(p, "GET".as_bytes()) || bytes_eq(p, "POS".as_bytes()) || bytes_eq(p, "PUT".as_bytes())
        || bytes_eq(p, "DEL".as_bytes()) || bytes_eq(p, "HEA".as_bytes()) || bytes_eq(p, "OPT".as_bytes())
        || bytes_eq(p, "PAT".as_bytes())
}

/// Rewrite the header names of an HTTP/1.x request: the letters at odd
/// positions of every name switch case.
pub fn mangle(data: &[u8]) -> (r: Vec<u8>)
    ensures
        r@ == spec_mangle(data@),
{
    mangle_as(data, false)
}

/// Rewrite the header names of an HTTP/1.x request in alternating case:
/// lower case at even positions, upper case at odd ones.
pub fn mangle_alternating(data: &[u8]) -> (r: Vec<u8>)
    ensures
        r@ == spec_mangle_alternating(data@),
{
    mangle_as(data, true)
}

fn mangle_as(data: &[u8], alternating: bool) -> (r: Vec<u8>)
    ensures
        r@ == spec_mangle_as(data@, alternating),
{
    let sep = match find_crlf2(data) {
        Some(p) => p,
        None => return to_vec(data),
    };
    proof { crate::bytes::lemma_find_crlf2_range(data@, 0); }
    assert(crate::bytes::crlf2_at(data@, sep as int));
    assert(sep + 4 <= data.len());
    let block = &data[0..sep];
    let body = &data[sep + 4..data.len()];
    let ghost f = mangle_line_fn_as(alternating);
    let mut out: Vec<u8> = Vec::new();
    let mut start: usize = 0;
    let mut first = true;
    loop
        invariant_except_break
            f == mangle_line_fn_as(alternating),
            start <= block@.len(),
            spec_render_lines(block@, 0, true, f) == out@ + spec_render_lines(block@, start as int, first, f),
        ensures
            f == mangle_line_fn_as(alternating),
            spec_render_lines(block@, 0, true, f) == out@,
        decreases block@.len() - start,
    {
        match find_byte(block, 10, start) {
            Some(j) => {
                proof { lemma_render_step(block@, start as int, j as int, first, f); }
                let line = strip_cr(&block[start..j]);
                let ghost before = out@;
                if first {
                    append_bytes(&mut out, line);
                    push_crlf(&mut out);
                    assert(out@ =~= before + (line@ + crlf()));
                } else {
                    mangle_line(line, &mut out, alternating);
                    assert(f(line@) == spec_mangle_line_as(line@, alternating));
                }
                proof {
                    assert(out@ == before + spec_render_one(spec_strip_cr(block@.subrange(start as int, j as int)), first, f));
                }
                assert(j < block.len());
                start = j + 1;
                first = false;
            },
            None => {
                proof { lemma_render_last(block@, start as int, first, f); }
                let line = strip_cr(&block[start..block.len()]);
                let ghost before = out@;
                if first {
                    append_bytes(&mut out, line);
                    push_crlf(&mut out);
                    assert(out@ =~= before + (line@ + crlf()));
                } else {
                    mangle_line(line, &mut out, alternating);
                    assert(f(line@) == spec_mangle_line_as(line@, alternating));
                }
                proof {
                    assert(out@ == before + spec_render_one(spec_strip_cr(block@.subrange(start as int, block@.len() as int)), first, f));
                }
                break;
            },
        }
    }
    push_crlf(&mut out);
    append_bytes(&mut out, body);
    out
}

/// Append the mangled form of header line `line` (with CR LF) to `out`.
fn mangle_line(line: &[u8], out: &mut Vec<u8>, alternating: bool)
    ensures
        final(out)@ == old(out)@ + spec_mangle_line_as(line@, alternating),
{
    match find_byte(line, 58, 0) {
        Some(c) => {
            let name = &line[0..c];
            let rest = &line[c..line.len()];
            if should_keep_canonical(name) {
                append_bytes(out, name);
            } else if alternating {
                let r = alternate_case(name);
                append_bytes(out, r.as_slice());
            } else {
                let r = randomize_case(name);
                append_bytes(out, r.as_slice());
            }
            append_bytes(out, rest);
            push_crlf(out);
        },
        None => {
            append_bytes(out, line);
            push_crlf(out);
        },
    }
}

/// Lower case at even positions, upper case at odd ones.
fn alternate_case(name: &[u8]) -> (r: Vec<u8>)
    ensures
        r@ == spec_alternate_case(name@),
{
    let mut r: Vec<u8> = Vec::new();
    let mut i: usize = 0;
    while i < name.len()
        invariant
            i <= name@.len(),
            r@ == spec_alternate_case(name@).subrange(0, i as int),
        decreases name@.len() - i,
    {
        let b = name[i];
        let o: u8 = if i % 2 == 0 {
            if 65 <= b && b <= 90 { b + 32 } else { b }
        } else {
            if 97 <= b && b <= 122 { b - 32 } else { b }
        };
        r.push(o);
        i = i + 1;
        assert(r@ =~= spec_alternate_case(name@).subrange(0, i as int));
    }
    assert(r@ =~= spec_alternate_case(name@));
    r
}

/// Header names that must keep their canonical casing.
fn should_keep_canonical(name: &[u8]) -> (r: bool)
    ensures
        r == spec_keep_canonical(name@),
{
    let lower = ascii_lower(name);
    let l = lower.as_slice();
    bytes_eq(l, "host".as_bytes()) || bytes_eq(l, "content-length".as_bytes())
        || bytes_eq(l, "transfer-encoding".as_bytes()) || bytes_eq(l, "content-type".as_bytes())
}

/// Switch the case of every letter at an odd position.
fn randomize_case(name: &[u8]) -> (r: Vec<u8>)
    ensures
        r@ == spec_randomize_case(name@),
{
    let mut r: Vec<u8> = Vec::new();
    let mut i: usize = 0;
    while i < name.len()
        invariant
            i <= name@.len(),
            r@ == spec_randomize_case(name@).subrange(0, i as int),
        decreases name@.len() - i,
    {
        let b = name[i];
        let alpha = (65 <= b && b <= 90) || (97 <= b && b <= 122);
        let o: u8 = if alpha && i % 2 == 1 {
            proof { lemma_xor_toggles(b); }
            b ^ 0x20
        } else {
            b
        };
        r.push(o);
        i = i + 1;
        assert(r@ =~= spec_randomize_case(name@).subrange(0, i as int));
    }
    assert(r@ =~= spec_randomize_case(name@));
    r
}

proof fn lemma_xor_toggles(b: u8)
    requires
        is_alpha(b),
    ensures
        b ^ 0x20u8 == toggle_case(b),
{
    assert(65 <= b <= 90 ==> b ^ 0x20u8 == b + 32) by (bit_vector);
    assert(97 <= b <= 122 ==> b ^ 0x20u8 == b - 32) by (bit_vector);
}

/// Case variation undoes itself: mangling a name twice gives it back.
pub proof fn lemma_randomize_case_involution(n: Seq<u8>)
    ensures
        spec_randomize_case(spec_randomize_case(n)) == n,
{
    assert(spec_randomize_case(spec_randomize_case(n)) =~= n);
}

/// Case variation never changes a name as HTTP compares names: the ASCII
/// lowercase of the varied name is the ASCII lowercase of the original.
pub proof fn lemma_randomize_case_same_name(n: Seq<u8>)
    ensures
        spec_ascii_lower(spec_randomize_case(n)) == spec_ascii_lower(n),
        spec_randomize_case(n).len() == n.len(),
{
    assert(spec_ascii_lower(spec_randomize_case(n)) =~= spec_ascii_lower(n));
}

/// Alternating case never changes a name as HTTP compares names, and
/// applying it again changes nothing.
pub proof fn lemma_alternate_case_same_name(n: Seq<u8>)
    ensures
        spec_ascii_lower(spec_alternate_case(n)) == spec_ascii_lower(n),
        spec_alternate_case(n).len() == n.len(),
        spec_alternate_case(spec_alternate_case(n)) == spec_alternate_case(n),
{
    assert(spec_ascii_lower(spec_alternate_case(n)) =~= spec_ascii_lower(n));
    assert(spec_alternate_case(spec_alternate_case(n)) =~= spec_alternate_case(n));
}

/// Either case variation keeps names equal under case-insensitive
/// comparison.
pub proof fn lemma_vary_case_same_name(n: Seq<u8>, alternating: bool)
    ensures
        spec_ascii_lower(spec_vary_case(n, alternating)) == spec_ascii_lower(n),
        spec_vary_case(n, alternating).len() == n.len(),
{
    lemma_randomize_case_same_name(n);
    lemma_alternate_case_same_name(n);
}

/// Every header line keeps its meaning: the mangled line is the original
/// line with only the name's letters possibly changed in case.
pub proof fn lemma_mangle_line_same_header(l: Seq<u8>, alternating: bool)
    ensures
        spec_ascii_lower(spec_mangle_line_as(l, alternating)) == spec_ascii_lower(l + crlf()),
{
    match spec_find_byte(l, 58u8, 0) {
        Some(c) => {
            lemma_find_byte_range(l, 58u8, 0);
            let name = l.subrange(0, c);
            let rest = l.subrange(c, l.len() as int);
            lemma_vary_case_same_name(name, alternating);
            assert(name + rest =~= l);
            let m = if spec_keep_canonical(name) { name } else { spec_vary_case(name, alternating) };
            assert(spec_ascii_lower(m + rest + crlf()) =~= spec_ascii_lower(m) + spec_ascii_lower(rest) + spec_ascii_lower(crlf()));
            assert(spec_ascii_lower(l + crlf()) =~= spec_ascii_lower(name) + spec_ascii_lower(rest) + spec_ascii_lower(crlf()));
        },
        None => {},
    }
}

/// The request line, the blank line and the body are never touched: a
/// mangled request starts with the original request line followed by
/// CR LF, and ends with everything from the second CR LF of the original's
/// first CR LF CR LF on.
pub proof fn lemma_mangle_keeps_request_line_and_body(d: Seq<u8>, p: int, alternating: bool)
    requires
        spec_find_crlf2(d, 0) == Some(p),
    ensures
        spec_mangle_as(d, alternating).subrange(0, spec_lines(d.subrange(0, p), 0)[0].len() + 2int)
            == spec_lines(d.subrange(0, p), 0)[0] + crlf(),
        spec_mangle_as(d, alternating).len() >= d.len() - (p + 2),
        spec_mangle_as(d, alternating).subrange(spec_mangle_as(d, alternating).len() - (d.len() - (p + 2)),
            spec_mangle_as(d, alternating).len() as int) == d.subrange(p + 2, d.len() as int),
{
    crate::bytes::lemma_find_crlf2_range(d, 0);
    let block = d.subrange(0, p);
    let f = mangle_line_fn_as(alternating);
    lemma_render_is_per_line(block, 0, true, f);
    let first = spec_lines(block, 0)[0];
    let rendered = spec_render_lines(block, 0, true, f);
    let r = spec_mangle_as(d, alternating);
    assert(rendered == first + crlf() + spec_join_rest(spec_lines(block, 0).drop_first(), f));
    assert(r == rendered + crlf() + d.subrange(p + 4, d.len() as int));
    assert(r.subrange(0, first.len() + 2int) =~= first + crlf());
    assert(r.subrange(r.len() - (d.len() - (p + 2)), r.len() as int) =~= d.subrange(p + 2, d.len() as int));
}

/// Headers that frame or route the request keep their exact bytes.
pub proof fn lemma_canonical_headers_untouched(l: Seq<u8>, c: int, alternating: bool)
    requires
        spec_find_byte(l, 58u8, 0) == Some(c),
        spec_keep_canonical(l.subrange(0, c)),
    ensures
        spec_mangle_line_as(l, alternating) == l + crlf(),
{
    lemma_find_byte_range(l, 58u8, 0);
    assert(l.subrange(0, c) + l.subrange(c, l.len() as int) =~= l);
}

/// Host, Content-Length, Transfer-Encoding and Content-Type lines, in any
/// case, leave the mangler byte for byte: for a header line whose name
/// (before its first ':') lowercases to one of these four, the mangled line
/// is the line itself followed by CR LF, in either casing mode.
pub proof fn lemma_framing_headers_kept(l: Seq<u8>, c: int, alternating: bool)
    requires
        spec_find_byte(l, 58u8, 0) == Some(c),
        spec_ascii_lower(l.subrange(0, c)) == lit("host")
            || spec_ascii_lower(l.subrange(0, c)) == lit("content-length")
            || spec_ascii_lower(l.subrange(0, c)) == lit("transfer-encoding")
            || spec_ascii_lower(l.subrange(0, c)) == lit("content-type"),
    ensures
        spec_mangle_line_as(l, alternating) == l + crlf(),
{
    lemma_find_byte_range(l, 58u8, 0);
    assert(l.subrange(0, c) + l.subrange(c, l.len() as int) =~= l);
}

} // verus!

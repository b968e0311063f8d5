//! The stats dashboard's request handling: which page a request asks for,
//! and the bytes sent back.
//!
//! Endpoints:
//!   GET /          — HTML dashboard page
//!   GET /api/stats — JSON stats snapshot
//!   GET /api/rules — how the loaded rules route a few well-known domains
//!   GET /health    — 200 OK

use vstd::prelude::*;
use vstd::utf8::{decode_utf8, encode_utf8, valid_utf8};
use vstd::wrapping::u64_specs;
use crate::bytes::{append_bytes, lit};
use crate::numfmt::{lemma_decimal_ascii, lemma_fmt_bytes_ascii, push_decimal, push_fmt_bytes, spec_decimal,
    spec_fmt_bytes};
use crate::rules::{spec_action_for, Action, Rules};
use crate::stats::{concat_all, lemma_concat_valid, spec_active, spec_hms, Stats};
use crate::text::{
    chars_of, find_char, lemma_ascii_valid_utf8, next_word, spec_first_line, spec_to_lowercase, spec_words,
    str_from_utf8, str_is, string_from_valid_utf8, string_of,
};

verus! {

/// The request path: the second word of the request's first line.
pub open spec fn spec_extract_path(request: Seq<char>) -> Option<Seq<char>> {
    let w = spec_words(spec_first_line(request), 0);
    if w.len() >= 2 { Some(w[1]) } else { None }
}

/// The request path: the second whitespace-separated word of the first line.
pub fn extract_path(request: &str) -> (r: Option<String>)
    ensures
        r matches Some(p) ==> spec_extract_path(request@) == Some(p@),
        r is None ==> spec_extract_path(request@) is None,
{
    let cs = chars_of(request);
    let end = match find_char(cs.as_slice(), '\n', 0) {
        Some(j) => j,
        None => cs.len(),
    };
    let ghost line = cs@.subrange(0, end as int);
    assert(line == spec_first_line(request@));
    match next_word(cs.as_slice(), 0, end) {
        None => None,
        Some((_j0, k0)) => match next_word(cs.as_slice(), k0, end) {
            None => None,
            Some((j1, k1)) => {
                assert(spec_words(line, 0)[1] == cs@.subrange(j1 as int, k1 as int));
                Some(string_of(cs.as_slice(), j1, k1))
            },
        },
    }
}

/// A byte total in human units (B, KB, MB with one decimal, GB with two).
pub fn fmt_bytes(b: u64) -> (r: String)
    ensures
        encode_utf8(r@) == spec_fmt_bytes(b),
{
    Stats::fmt_bytes(b)
}

/// The JSON stats snapshot; `doh_hit_rate` is the hit rate already
/// written as a decimal.
pub open spec fn spec_stats_json(s: Stats, uptime_secs: u64, doh_hit_rate: Seq<char>) -> Seq<u8> {
    lit("{\"total_connections\":") + spec_decimal(s.total_connections as nat)
        + lit(",\"active_connections\":") + spec_decimal(spec_active(s) as nat)
        + lit(",\"bytes_up\":") + spec_decimal(s.bytes_up as nat)
        + lit(",\"bytes_down\":") + spec_decimal(s.bytes_down as nat)
        + lit(",\"bytes_up_human\":\"") + spec_fmt_bytes(s.bytes_up)
        + lit("\",\"bytes_down_human\":\"") + spec_fmt_bytes(s.bytes_down)
        + lit("\",\"tls_splits\":") + spec_decimal(u64_specs::wrapping_add(s.tls_splits, s.tls_splits3) as nat)
        + lit(",\"doh_hit_rate\":") + encode_utf8(doh_hit_rate)
        + lit(",\"uptime\":\"") + spec_hms(uptime_secs)
        + lit("\",\"started_at\":\"see uptime\"}")
}

/// The JSON stats snapshot for counters `s` after `uptime_secs` seconds.
pub fn stats_json(s: &Stats, uptime_secs: u64, doh_hit_rate: &str) -> (r: String)
    ensures
        encode_utf8(r@) == spec_stats_json(*s, uptime_secs, doh_hit_rate@),
{
    let mut out: Vec<u8> = Vec::new();
    append_bytes(&mut out, "{\"total_connections\":".as_bytes());
    push_decimal(&mut out, s.total_connections as u128);
    append_bytes(&mut out, ",\"active_connections\":".as_bytes());
    let active: u64 = if s.active_connections < 0 { 0 } else { s.active_connections as u64 };
    push_decimal(&mut out, active as u128);
    append_bytes(&mut out, ",\"bytes_up\":".as_bytes());
    push_decimal(&mut out, s.bytes_up as u128);
    append_bytes(&mut out, ",\"bytes_down\":".as_bytes());
    push_decimal(&mut out, s.bytes_down as u128);
    let ghost p1 = out@;
    assert(p1 == lit("{\"total_connections\":") + spec_decimal(s.total_connections as nat)
        + lit(",\"active_connections\":") + spec_decimal(spec_active(*s) as nat)
        + lit(",\"bytes_up\":") + spec_decimal(s.bytes_up as nat)
        + lit(",\"bytes_down\":") + spec_decimal(s.bytes_down as nat));
    append_bytes(&mut out, ",\"bytes_up_human\":\"".as_bytes());
    push_fmt_bytes(&mut out, s.bytes_up);
    append_bytes(&mut out, "\",\"bytes_down_human\":\"".as_bytes());
    push_fmt_bytes(&mut out, s.bytes_down);
    append_bytes(&mut out, "\",\"tls_splits\":".as_bytes());
    push_decimal(&mut out, s.tls_splits.wrapping_add(s.tls_splits3) as u128);
    let ghost p2 = out@;
    assert(p2 == p1 + lit(",\"bytes_up_human\":\"") + spec_fmt_bytes(s.bytes_up)
        + lit("\",\"bytes_down_human\":\"") + spec_fmt_bytes(s.bytes_down)
        + lit("\",\"tls_splits\":") + spec_decimal(u64_specs::wrapping_add(s.tls_splits, s.tls_splits3) as nat));
    append_bytes(&mut out, ",\"doh_hit_rate\":".as_bytes());
    append_bytes(&mut out, doh_hit_rate.as_bytes());
    append_bytes(&mut out, ",\"uptime\":\"".as_bytes());
    crate::stats::push_hms(&mut out, uptime_secs);
    append_bytes(&mut out, "\",\"started_at\":\"see uptime\"}".as_bytes());
    proof {
        assert(out@ == spec_stats_json(*s, uptime_secs, doh_hit_rate@));
        lemma_stats_json_valid(*s, uptime_secs, doh_hit_rate@);
    }
    string_from_valid_utf8(out)
}

proof fn lemma_lit_valid(s: &str)
    ensures
        valid_utf8(lit(s)),
{
    vstd::utf8::encode_utf8_valid_utf8(s@);
}

proof fn lemma_decimal_valid(n: nat)
    ensures
        valid_utf8(spec_decimal(n)),
{
    lemma_decimal_ascii(n);
    lemma_ascii_valid_utf8(spec_decimal(n));
}

proof fn lemma_fmt_valid(b: u64)
    ensures
        valid_utf8(spec_fmt_bytes(b)),
{
    lemma_fmt_bytes_ascii(b);
    lemma_ascii_valid_utf8(spec_fmt_bytes(b));
}

proof fn lemma_stats_json_valid(s: Stats, u: u64, rate: Seq<char>)
    ensures
        valid_utf8(spec_stats_json(s, u, rate)),
{
    let parts: Seq<Seq<u8>> = seq![
        lit("{\"total_connections\":"), spec_decimal(s.total_connections as nat),
        lit(",\"active_connections\":"), spec_decimal(spec_active(s) as nat),
        lit(",\"bytes_up\":"), spec_decimal(s.bytes_up as nat),
        lit(",\"bytes_down\":"), spec_decimal(s.bytes_down as nat),
        lit(",\"bytes_up_human\":\""), spec_fmt_bytes(s.bytes_up),
        lit("\",\"bytes_down_human\":\""), spec_fmt_bytes(s.bytes_down),
        lit("\",\"tls_splits\":"), spec_decimal(u64_specs::wrapping_add(s.tls_splits, s.tls_splits3) as nat),
        lit(",\"doh_hit_rate\":"), encode_utf8(rate),
        lit(",\"uptime\":\""), spec_hms(u),
        lit("\",\"started_at\":\"see uptime\"}")
    ];
    lemma_lit_valid("{\"total_connections\":");
    lemma_lit_valid(",\"active_connections\":");
    lemma_lit_valid(",\"bytes_up\":");
    lemma_lit_valid(",\"bytes_down\":");
    lemma_lit_valid(",\"bytes_up_human\":\"");
    lemma_lit_valid("\",\"bytes_down_human\":\"");
    lemma_lit_valid("\",\"tls_splits\":");
    lemma_lit_valid(",\"doh_hit_rate\":");
    lemma_lit_valid(",\"uptime\":\"");
    lemma_lit_valid("\",\"started_at\":\"see uptime\"}");
    lemma_decimal_valid(s.total_connections as nat);
    lemma_decimal_valid(spec_active(s) as nat);
    lemma_decimal_valid(s.bytes_up as nat);
    lemma_decimal_valid(s.bytes_down as nat);
    lemma_decimal_valid(u64_specs::wrapping_add(s.tls_splits, s.tls_splits3) as nat);
    lemma_fmt_valid(s.bytes_up);
    lemma_fmt_valid(s.bytes_down);
    vstd::utf8::encode_utf8_valid_utf8(rate);
    crate::stats::lemma_hms_valid(u);
    assert forall|i: int| 0 <= i < parts.len() implies valid_utf8(#[trigger] parts[i]) by {}
    lemma_concat_valid(parts);
    assert(concat_all(parts) =~= spec_stats_json(s, u, rate)) by {
        reveal_with_fuel(concat_all, 21);
    }
}

/// The domains whose routing `/api/rules` reports.
pub open spec fn sample_domains() -> Seq<&'static str> {
    seq!["rutracker.org", "google.com", "youtube.com", "bbc.com", "facebook.com", "twitter.com", "localhost",
        "doubleclick.net"]
}

/// The keyword that names an action.
pub open spec fn spec_action_name(a: Action) -> Seq<u8> {
    match a {
        Action::Proxy => lit("PROXY"),
        Action::Direct => lit("DIRECT"),
        Action::Block => lit("BLOCK"),
    }
}

/// One `{"domain":…,"action":…}` entry.
pub open spec fn spec_rule_entry(m: Map<Seq<char>, Action>, d: &str) -> Seq<u8> {
    lit("{\"domain\":\"") + lit(d) + lit("\",\"action\":\"") + spec_action_name(spec_action_for(m, spec_to_lowercase(d@)))
        + lit("\"}")
}

/// The entries for `ds`, separated by commas.
pub open spec fn spec_rule_entries(m: Map<Seq<char>, Action>, ds: Seq<&'static str>) -> Seq<u8>
    decreases ds.len(),
{
    if ds.len() == 0 {
        Seq::empty()
    } else if ds.len() == 1 {
        spec_rule_entry(m, ds[0])
    } else {
        spec_rule_entries(m, ds.drop_last()) + lit(",") + spec_rule_entry(m, ds.last())
    }
}

/// `{"samples":[…]}` for the sample domains under rules `m`.
pub open spec fn spec_rules_json(m: Map<Seq<char>, Action>) -> Seq<u8> {
    lit("{\"samples\":[") + spec_rule_entries(m, sample_domains()) + lit("]}")
}

/// How the rules route a few well-known domains, as JSON.
pub fn rules_json(rules: &Rules) -> (r: String)
    ensures
        encode_utf8(r@) == spec_rules_json(rules@),
{
    let samples: [&'static str; 8] = ["rutracker.org", "google.com", "youtube.com", "bbc.com", "facebook.com",
        "twitter.com", "localhost", "doubleclick.net"];
    assert(samples@ =~= sample_domains());
    let mut out: Vec<u8> = Vec::new();
    append_bytes(&mut out, "{\"samples\":[".as_bytes());
    let ghost head = out@;
    proof {
        lemma_lit_valid("{\"samples\":[");
        assert(sample_domains().subrange(0, 0) =~= Seq::<&'static str>::empty());
        assert(out@ =~= head + spec_rule_entries(rules@, sample_domains().subrange(0, 0)));
    }
    let mut i: usize = 0;
    while i < 8
        invariant
            i <= 8,
            samples@ == sample_domains(),
            head == lit("{\"samples\":["),
            out@ == head + spec_rule_entries(rules@, sample_domains().subrange(0, i as int)),
            valid_utf8(out@),
        decreases 8 - i,
    {
        let ghost before = out@;
        let d = samples[i];
        if i > 0 {
            append_bytes(&mut out, ",".as_bytes());
        }
        append_bytes(&mut out, "{\"domain\":\"".as_bytes());
        append_bytes(&mut out, d.as_bytes());
        append_bytes(&mut out, "\",\"action\":\"".as_bytes());
        let name = match rules.action_for(d) {
            Action::Proxy => "PROXY",
            Action::Direct => "DIRECT",
            Action::Block => "BLOCK",
        };
        append_bytes(&mut out, name.as_bytes());
        append_bytes(&mut out, "\"}".as_bytes());
        proof {
            let ds = sample_domains().subrange(0, i + 1);
            assert(ds.drop_last() =~= sample_domains().subrange(0, i as int));
            assert(ds.last() == d);
            assert(lit(name) == spec_action_name(spec_action_for(rules@, spec_to_lowercase(d@))));
            if i > 0 {
                assert(out@ =~= before + lit(",") + spec_rule_entry(rules@, d));
            } else {
                assert(sample_domains().subrange(0, 0) =~= Seq::<&'static str>::empty());
                assert(out@ =~= before + spec_rule_entry(rules@, d));
            }
            lemma_entry_valid(rules@, d);
            lemma_lit_valid(",");
            vstd::utf8::valid_utf8_concat(before, lit(","));
            vstd::utf8::valid_utf8_concat(before, spec_rule_entry(rules@, d));
            vstd::utf8::valid_utf8_concat(before + lit(","), spec_rule_entry(rules@, d));
        }
        i = i + 1;
    }
    append_bytes(&mut out, "]}".as_bytes());
    proof {
        assert(sample_domains().subrange(0, 8) =~= sample_domains());
        lemma_lit_valid("]}");
        vstd::utf8::valid_utf8_concat(head + spec_rule_entries(rules@, sample_domains()), lit("]}"));
    }
    string_from_valid_utf8(out)
}

/// A complete `Connection: close` HTTP response carrying `body`.
pub open spec fn spec_response(status: Seq<u8>, content_type: Seq<u8>, body: Seq<u8>) -> Seq<u8> {
    lit("HTTP/1.1 ") + status + lit("\r\nContent-Type: ") + content_type + lit("\r\nContent-Length: ")
        + spec_decimal(body.len()) + lit("\r\nAccess-Control-Allow-Origin: *\r\nConnection: close\r\n\r\n")
        + body
}

/// Every dashboard response carries its body last, after a header whose
/// Content-Length is the body's length in bytes.
pub proof fn lemma_response_frames_body(status: Seq<u8>, content_type: Seq<u8>, body: Seq<u8>)
    ensures
        ({
            let r = spec_response(status, content_type, body);
            &&& r.len() >= body.len()
            &&& r.subrange(r.len() - body.len(), r.len() as int) == body
            &&& r.subrange(0, r.len() - body.len()) == lit("HTTP/1.1 ") + status + lit("\r\nContent-Type: ")
                + content_type + lit("\r\nContent-Length: ") + spec_decimal(body.len())
                + lit("\r\nAccess-Control-Allow-Origin: *\r\nConnection: close\r\n\r\n")
        }),
{
    let r = spec_response(status, content_type, body);
    let head = lit("HTTP/1.1 ") + status + lit("\r\nContent-Type: ") + content_type + lit("\r\nContent-Length: ")
        + spec_decimal(body.len()) + lit("\r\nAccess-Control-Allow-Origin: *\r\nConnection: close\r\n\r\n");
    assert(r == head + body);
    assert(r.subrange(r.len() - body.len(), r.len() as int) =~= body);
    assert(r.subrange(0, r.len() - body.len()) =~= head);
}

/// The dashboard's answer to the raw request `req`: nothing for a request
/// that is not UTF-8; otherwise the page the path (default `/`) asks for.
pub open spec fn spec_dashboard_response(req: Seq<u8>, s: Stats, uptime_secs: u64, doh_hit_rate: Seq<char>,
    m: Map<Seq<char>, Action>, page: Seq<u8>) -> Option<Seq<u8>> {
    if !valid_utf8(req) {
        None
    } else {
        let path = match spec_extract_path(decode_utf8(req)) {
            Some(p) => p,
            None => "/"@,
        };
        Some(
            if path == "/api/stats"@ {
                spec_response(lit("200 OK"), lit("application/json"), spec_stats_json(s, uptime_secs, doh_hit_rate))
            } else if path == "/api/rules"@ {
                spec_response(lit("200 OK"), lit("application/json"), spec_rules_json(m))
            } else if path == "/health"@ {
                spec_response(lit("200 OK"), lit("text/plain"), lit("ok"))
            } else if path == "/"@ || path == "/index.html"@ {
                spec_response(lit("200 OK"), lit("text/html; charset=utf-8"), page)
            } else {
                spec_response(lit("404 Not Found"), lit("text/plain"), lit("Not Found"))
            },
        )
    }
}

/// Answer one dashboard request: `request` is what the client sent,
/// `page` the HTML dashboard.
pub fn dashboard_response(request: &[u8], stats: &Stats, uptime_secs: u64, doh_hit_rate: &str, rules: &Rules,
    page: &[u8]) -> (r: Option<Vec<u8>>)
    ensures
        match r {
            Some(v) => spec_dashboard_response(request@, *stats, uptime_secs, doh_hit_rate@, rules@, page@) == Some(v@),
            None => spec_dashboard_response(request@, *stats, uptime_secs, doh_hit_rate@, rules@, page@) is None,
        },
{
    let text = match str_from_utf8(request) {
        Some(t) => t,
        None => return None,
    };
    let path = match extract_path(text) {
        Some(p) => p,
        None => {
            let mut d = String::new();
            crate::text::push_char(&mut d, '/');
            d
        },
    };
    proof {
        reveal_strlit("/");
        assert(spec_extract_path(text@) is None ==> path@ == "/"@);
    }
    let p = path.as_str();
    let mut out: Vec<u8> = Vec::new();
    if str_is(p, "/api/stats") {
        let body = stats_json(stats, uptime_secs, doh_hit_rate);
        push_response(&mut out, "200 OK", "application/json", body.as_str().as_bytes());
    } else if str_is(p, "/api/rules") {
        let body = rules_json(rules);
        push_response(&mut out, "200 OK", "application/json", body.as_str().as_bytes());
    } else if str_is(p, "/health") {
        push_response(&mut out, "200 OK", "text/plain", "ok".as_bytes());
    } else if str_is(p, "/") || str_is(p, "/index.html") {
        push_response(&mut out, "200 OK", "text/html; charset=utf-8", page);
    } else {
        push_response(&mut out, "404 Not Found", "text/plain", "Not Found".as_bytes());
    }
    Some(out)
}

/// Append a complete response.
fn push_response(out: &mut Vec<u8>, status: &str, content_type: &str, body: &[u8])
    ensures
        final(out)@ == old(out)@ + spec_response(lit(status), lit(content_type), body@),
{
    append_bytes(out, "HTTP/1.1 ".as_bytes());
    append_bytes(out, status.as_bytes());
    append_bytes(out, "\r\nContent-Type: ".as_bytes());
    append_bytes(out, content_type.as_bytes());
    append_bytes(out, "\r\nContent-Length: ".as_bytes());
    push_decimal(out, body.len() as u128);
    append_bytes(out, "\r\nAccess-Control-Allow-Origin: *\r\nConnection: close\r\n\r\n".as_bytes());
    append_bytes(out, body);
    assert(final(out)@ =~= old(out)@ + spec_response(lit(status), lit(content_type), body@));
}

proof fn lemma_entry_valid(m: Map<Seq<char>, Action>, d: &str)
    ensures
        valid_utf8(spec_rule_entry(m, d)),
{
    lemma_lit_valid("{\"domain\":\"");
    lemma_lit_valid(d);
    lemma_lit_valid("\",\"action\":\"");
    lemma_lit_valid("PROXY");
    lemma_lit_valid("DIRECT");
    lemma_lit_valid("BLOCK");
    lemma_lit_valid("\"}");
    let a = spec_action_name(spec_action_for(m, spec_to_lowercase(d@)));
    vstd::utf8::valid_utf8_concat(lit("{\"domain\":\""), lit(d));
    vstd::utf8::valid_utf8_concat(lit("{\"domain\":\"") + lit(d), lit("\",\"action\":\""));
    vstd::utf8::valid_utf8_concat(lit("{\"domain\":\"") + lit(d) + lit("\",\"action\":\""), a);
    vstd::utf8::valid_utf8_concat(lit("{\"domain\":\"") + lit(d) + lit("\",\"action\":\"") + a, lit("\"}"));
}

} // verus!

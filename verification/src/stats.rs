//! Live connection statistics: counters that every proxy task updates, and
//! the one-line summary the reporter prints.
//!
//! Counters wrap around on overflow, as atomic counters do.

use vstd::prelude::*;
use vstd::wrapping::{i64_specs, u64_specs};
use crate::bytes::{append_bytes, lit};
use crate::numfmt::{lemma_decimal_ascii, lemma_fmt_bytes_ascii, push_decimal, push_fmt_bytes, push_pad2, spec_decimal,
    spec_fmt_bytes, spec_pad2};
use crate::text::{is_ascii_bytes, lemma_ascii_valid_utf8, string_from_valid_utf8};

verus! {

#[verifier::external_type_specification]
#[verifier::external_body]
pub struct ExInstant(std::time::Instant);

/// Connection and traffic counters.
pub struct Stats {
    pub total_connections: u64,
    pub active_connections: i64,
    pub bytes_up: u64,
    pub bytes_down: u64,
    pub tls_splits: u64,
    pub tls_splits3: u64,
    pub http_mangles: u64,
    pub doh_hits: u64,
    pub doh_misses: u64,
    pub start: std::time::Instant,
}

/// std's `Instant::now`: the current monotonic time; nothing is claimed of
/// its value.
#[verifier::external_body]
fn instant_now() -> std::time::Instant {
    std::time::Instant::now()
}

/// std's `Instant::elapsed`: time since `i`; nothing is claimed of its
/// value.
#[verifier::external_body]
fn instant_elapsed(i: &std::time::Instant) -> core::time::Duration {
    i.elapsed()
}

/// std's `Duration::as_secs`: whole seconds; nothing is claimed of the
/// value, as nothing is known of the duration.
#[verifier::external_body]
fn duration_secs(d: &core::time::Duration) -> u64 {
    d.as_secs()
}

/// Active connections as reported: negative counts show as zero.
pub open spec fn spec_active(s: Stats) -> u64 {
    if s.active_connections < 0 { 0 } else { s.active_connections as u64 }
}

/// The DoH cache hit percentage as reported, in wrapping arithmetic.
pub open spec fn spec_doh_pct(s: Stats) -> u64 {
    let t = u64_specs::wrapping_add(s.doh_hits, s.doh_misses);
    if t == 0 { 0 } else { (u64_specs::wrapping_mul(s.doh_hits, 100) / t) as u64 }
}

/// `hh:mm:ss` for a number of seconds; hours are not capped.
pub open spec fn spec_hms(secs: u64) -> Seq<u8> {
    spec_pad2((secs / 3600) as nat) + seq![58u8] + spec_pad2(((secs % 3600) / 60) as nat) + seq![58u8]
        + spec_pad2((secs % 60) as nat)
}

/// The reporter's one-line summary.
pub open spec fn spec_status_line(s: Stats, uptime_secs: u64) -> Seq<u8> {
    lit("[") + spec_hms(uptime_secs) + lit("]  conns ") + spec_decimal(s.total_connections as nat)
        + lit(" total / ") + spec_decimal(spec_active(s) as nat) + lit(" active  ↑ ")
        + spec_fmt_bytes(s.bytes_up) + lit("  ↓ ") + spec_fmt_bytes(s.bytes_down) + lit("  TLS bypass: ")
        + spec_decimal(u64_specs::wrapping_add(s.tls_splits, s.tls_splits3) as nat) + lit("  DoH cache: ")
        + spec_decimal(spec_doh_pct(s) as nat) + lit("%")
}

/// All counters of `a` and `b` agree except those named by the flags.
pub open spec fn same_counters_except(a: Stats, b: Stats, total: bool, active: bool, up: bool, down: bool,
    split: bool, split3: bool, mangle: bool, hit: bool, miss: bool) -> bool {
    &&& (total || a.total_connections == b.total_connections)
    &&& (active || a.active_connections == b.active_connections)
    &&& (up || a.bytes_up == b.bytes_up)
    &&& (down || a.bytes_down == b.bytes_down)
    &&& (split || a.tls_splits == b.tls_splits)
    &&& (split3 || a.tls_splits3 == b.tls_splits3)
    &&& (mangle || a.http_mangles == b.http_mangles)
    &&& (hit || a.doh_hits == b.doh_hits)
    &&& (miss || a.doh_misses == b.doh_misses)
    &&& a.start == b.start
}

impl Stats {
    /// Fresh counters, all zero, with the clock started now.
    pub fn new() -> (s: Self)
        ensures
            s.total_connections == 0,
            s.active_connections == 0,
            s.bytes_up == 0,
            s.bytes_down == 0,
            s.tls_splits == 0,
            s.tls_splits3 == 0,
            s.http_mangles == 0,
            s.doh_hits == 0,
            s.doh_misses == 0,
    {
        Stats {
            total_connections: 0,
            active_connections: 0,
            bytes_up: 0,
            bytes_down: 0,
            tls_splits: 0,
            tls_splits3: 0,
            http_mangles: 0,
            doh_hits: 0,
            doh_misses: 0,
            start: instant_now(),
        }
    }

    /// A connection was accepted.
    pub fn conn_open(&mut self)
        ensures
            final(self).total_connections == u64_specs::wrapping_add(old(self).total_connections, 1),
            final(self).active_connections == i64_specs::wrapping_add(old(self).active_connections, 1),
            same_counters_except(*old(self), *final(self), true, true, false, false, false, false, false, false, false),
    {
        self.total_connections = self.total_connections.wrapping_add(1);
        self.active_connections = self.active_connections.wrapping_add(1);
    }

    /// A connection ended.
    pub fn conn_close(&mut self)
        ensures
            final(self).active_connections == i64_specs::wrapping_sub(old(self).active_connections, 1),
            same_counters_except(*old(self), *final(self), false, true, false, false, false, false, false, false, false),
    {
        self.active_connections = self.active_connections.wrapping_sub(1);
    }

    /// `n` bytes went from the client to the server.
    pub fn add_up(&mut self, n: u64)
        ensures
            final(self).bytes_up == u64_specs::wrapping_add(old(self).bytes_up, n),
            same_counters_except(*old(self), *final(self), false, false, true, false, false, false, false, false, false),
    {
        self.bytes_up = self.bytes_up.wrapping_add(n);
    }

    /// `n` bytes went from the server to the client.
    pub fn add_down(&mut self, n: u64)
        ensures
            final(self).bytes_down == u64_specs::wrapping_add(old(self).bytes_down, n),
            same_counters_except(*old(self), *final(self), false, false, false, true, false, false, false, false, false),
    {
        self.bytes_down = self.bytes_down.wrapping_add(n);
    }

    /// A ClientHello was split into two records.
    pub fn record_tls_split(&mut self)
        ensures
            final(self).tls_splits == u64_specs::wrapping_add(old(self).tls_splits, 1),
            same_counters_except(*old(self), *final(self), false, false, false, false, true, false, false, false, false),
    {
        self.tls_splits = self.tls_splits.wrapping_add(1);
    }

    /// A ClientHello was split into three records.
    pub fn record_tls_split3(&mut self)
        ensures
            final(self).tls_splits3 == u64_specs::wrapping_add(old(self).tls_splits3, 1),
            same_counters_except(*old(self), *final(self), false, false, false, false, false, true, false, false, false),
    {
        self.tls_splits3 = self.tls_splits3.wrapping_add(1);
    }

    /// A plain HTTP request was mangled.
    pub fn record_http_mangle(&mut self)
        ensures
            final(self).http_mangles == u64_specs::wrapping_add(old(self).http_mangles, 1),
            same_counters_except(*old(self), *final(self), false, false, false, false, false, false, true, false, false),
    {
        self.http_mangles = self.http_mangles.wrapping_add(1);
    }

    /// A DoH lookup was answered from the cache.
    pub fn record_doh_hit(&mut self)
        ensures
            final(self).doh_hits == u64_specs::wrapping_add(old(self).doh_hits, 1),
            same_counters_except(*old(self), *final(self), false, false, false, false, false, false, false, true, false),
    {
        self.doh_hits = self.doh_hits.wrapping_add(1);
    }

    /// A DoH lookup missed the cache.
    pub fn record_doh_miss(&mut self)
        ensures
            final(self).doh_misses == u64_specs::wrapping_add(old(self).doh_misses, 1),
            same_counters_except(*old(self), *final(self), false, false, false, false, false, false, false, false, true),
    {
        self.doh_misses = self.doh_misses.wrapping_add(1);
    }

    /// A byte total in human units (B, KB, MB with one decimal, GB with two).
    pub fn fmt_bytes(b: u64) -> (r: String)
        ensures
            vstd::utf8::encode_utf8(r@) == spec_fmt_bytes(b),
    {
        let mut out: Vec<u8> = Vec::new();
        push_fmt_bytes(&mut out, b);
        proof {
            assert(out@ =~= spec_fmt_bytes(b));
            lemma_fmt_bytes_ascii(b);
            lemma_ascii_valid_utf8(out@);
        }
        string_from_valid_utf8(out)
    }

    /// Whole seconds since these counters were created.
    pub fn uptime_secs(&self) -> u64 {
        let d = instant_elapsed(&self.start);
        duration_secs(&d)
    }

    /// The one-line summary for an uptime of `uptime_secs` seconds.
    pub fn status_line(&self, uptime_secs: u64) -> (r: String)
        ensures
            vstd::utf8::encode_utf8(r@) == spec_status_line(*self, uptime_secs),
    {
        let mut out: Vec<u8> = Vec::new();
        append_bytes(&mut out, "[".as_bytes());
        push_hms(&mut out, uptime_secs);
        append_bytes(&mut out, "]  conns ".as_bytes());
        push_decimal(&mut out, self.total_connections as u128);
        append_bytes(&mut out, " total / ".as_bytes());
        let active: u64 = if self.active_connections < 0 { 0 } else { self.active_connections as u64 };
        push_decimal(&mut out, active as u128);
        append_bytes(&mut out, " active  ↑ ".as_bytes());
        let ghost p1 = out@;
        assert(p1 == lit("[") + spec_hms(uptime_secs) + lit("]  conns ") + spec_decimal(self.total_connections as nat)
            + lit(" total / ") + spec_decimal(spec_active(*self) as nat) + lit(" active  ↑ "));
        push_fmt_bytes(&mut out, self.bytes_up);
        append_bytes(&mut out, "  ↓ ".as_bytes());
        push_fmt_bytes(&mut out, self.bytes_down);
        append_bytes(&mut out, "  TLS bypass: ".as_bytes());
        push_decimal(&mut out, self.tls_splits.wrapping_add(self.tls_splits3) as u128);
        append_bytes(&mut out, "  DoH cache: ".as_bytes());
        let t = self.doh_hits.wrapping_add(self.doh_misses);
        let pct: u64 = if t == 0 { 0 } else { self.doh_hits.wrapping_mul(100) / t };
        push_decimal(&mut out, pct as u128);
        append_bytes(&mut out, "%".as_bytes());
        proof {
            assert(out@ == spec_status_line(*self, uptime_secs));
            lemma_status_line_valid_utf8(*self, uptime_secs);
        }
        string_from_valid_utf8(out)
    }
}

/// Append `hh:mm:ss` for `secs` seconds.
pub(crate) fn push_hms(out: &mut Vec<u8>, secs: u64)
    ensures
        final(out)@ == old(out)@ + spec_hms(secs),
{
    push_pad2(out, (secs / 3600) as u128);
    out.push(58);
    push_pad2(out, ((secs % 3600) / 60) as u128);
    out.push(58);
    push_pad2(out, (secs % 60) as u128);
    assert(final(out)@ =~= old(out)@ + spec_hms(secs));
}

proof fn lemma_ascii_lit_valid(s: &str)
    ensures
        vstd::utf8::valid_utf8(lit(s)),
{
    vstd::utf8::encode_utf8_valid_utf8(s@);
}

proof fn lemma_decimal_valid(n: nat)
    ensures
        vstd::utf8::valid_utf8(spec_decimal(n)),
{
    lemma_decimal_ascii(n);
    lemma_ascii_valid_utf8(spec_decimal(n));
}

proof fn lemma_status_line_valid_utf8(s: Stats, u: u64)
    ensures
        vstd::utf8::valid_utf8(spec_status_line(s, u)),
{
    let parts: Seq<Seq<u8>> = seq![
        lit("["), spec_hms(u), lit("]  conns "), spec_decimal(s.total_connections as nat),
        lit(" total / "), spec_decimal(spec_active(s) as nat), lit(" active  ↑ "),
        spec_fmt_bytes(s.bytes_up), lit("  ↓ "), spec_fmt_bytes(s.bytes_down), lit("  TLS bypass: "),
        spec_decimal(u64_specs::wrapping_add(s.tls_splits, s.tls_splits3) as nat), lit("  DoH cache: "),
        spec_decimal(spec_doh_pct(s) as nat), lit("%")
    ];
    lemma_ascii_lit_valid("[");
    lemma_ascii_lit_valid("]  conns ");
    lemma_ascii_lit_valid(" total / ");
    lemma_ascii_lit_valid(" active  ↑ ");
    lemma_ascii_lit_valid("  ↓ ");
    lemma_ascii_lit_valid("  TLS bypass: ");
    lemma_ascii_lit_valid("  DoH cache: ");
    lemma_ascii_lit_valid("%");
    lemma_decimal_valid(s.total_connections as nat);
    lemma_decimal_valid(spec_active(s) as nat);
    lemma_decimal_valid(u64_specs::wrapping_add(s.tls_splits, s.tls_splits3) as nat);
    lemma_decimal_valid(spec_doh_pct(s) as nat);
    lemma_fmt_bytes_ascii(s.bytes_up);
    lemma_ascii_valid_utf8(spec_fmt_bytes(s.bytes_up));
    lemma_fmt_bytes_ascii(s.bytes_down);
    lemma_ascii_valid_utf8(spec_fmt_bytes(s.bytes_down));
    lemma_hms_valid(u);
    assert forall|i: int| 0 <= i < parts.len() implies vstd::utf8::valid_utf8(#[trigger] parts[i]) by {}
    lemma_concat_valid(parts);
    assert(concat_all(parts) =~= spec_status_line(s, u)) by {
        reveal_with_fuel(concat_all, 16);
    }
}

/// The parts of `ps`, joined.
pub open spec fn concat_all(ps: Seq<Seq<u8>>) -> Seq<u8>
    decreases ps.len(),
{
    if ps.len() == 0 { Seq::empty() } else { concat_all(ps.drop_last()) + ps.last() }
}

/// Joining valid UTF-8 parts gives valid UTF-8.
pub proof fn lemma_concat_valid(ps: Seq<Seq<u8>>)
    requires
        forall|i: int| 0 <= i < ps.len() ==> vstd::utf8::valid_utf8(#[trigger] ps[i]),
    ensures
        vstd::utf8::valid_utf8(concat_all(ps)),
    decreases ps.len(),
{
    if ps.len() > 0 {
        lemma_concat_valid(ps.drop_last());
        vstd::utf8::valid_utf8_concat(concat_all(ps.drop_last()), ps.last());
    } else {
        assert(vstd::utf8::valid_utf8(Seq::<u8>::empty()));
    }
}

pub(crate) proof fn lemma_hms_valid(u: u64)
    ensures
        vstd::utf8::valid_utf8(spec_hms(u)),
{
    broadcast use vstd::utf8::valid_utf8_concat;
    lemma_decimal_ascii((u / 3600) as nat);
    lemma_decimal_ascii(((u % 3600) / 60) as nat);
    lemma_decimal_ascii((u % 60) as nat);
    let h = spec_hms(u);
    assert forall|i: int| 0 <= i < h.len() implies #[trigger] h[i] < 128 by {}
    lemma_ascii_valid_utf8(h);
}

/// The DoH figure is the whole-number percentage of cache hits among
/// lookups: with `t = hits + misses > 0` and no overflow, the printed
/// `pct` satisfies `pct * t <= hits * 100 < (pct + 1) * t`, so it is at most
/// 100; with no lookups it is 0.
pub proof fn lemma_doh_pct_is_hit_percentage(s: Stats)
    ensures
        s.doh_hits as int + s.doh_misses as int == 0 ==> spec_doh_pct(s) == 0,
        (s.doh_hits as int + s.doh_misses as int > 0 && s.doh_hits as int + s.doh_misses as int <= u64::MAX
            && s.doh_hits as int * 100 <= u64::MAX) ==> ({
            let t = s.doh_hits as int + s.doh_misses as int;
            let pct = spec_doh_pct(s) as int;
            &&& pct * t <= s.doh_hits as int * 100
            &&& s.doh_hits as int * 100 < (pct + 1) * t
            &&& pct <= 100
        }),
{
    let h = s.doh_hits as int;
    let mi = s.doh_misses as int;
    let t = h + mi;
    if t > 0 && t <= u64::MAX && h * 100 <= u64::MAX {
        assert(u64_specs::wrapping_add(s.doh_hits, s.doh_misses) == t);
        assert(u64_specs::wrapping_mul(s.doh_hits, 100) == h * 100);
        let pct = spec_doh_pct(s) as int;
        assert(pct == (h * 100) / t);
        assert(pct * t <= h * 100 && h * 100 < (pct + 1) * t) by (nonlinear_arith)
            requires
                pct == (h * 100) / t,
                t > 0,
                h * 100 >= 0,
        {
            vstd::arithmetic::div_mod::lemma_fundamental_div_mod(h * 100, t);
        }
        assert(pct <= 100) by (nonlinear_arith)
            requires
                pct * t <= h * 100,
                h <= t,
                t > 0,
        {
        }
    }
}

/// Closing a connection undoes opening it for the active count, while
/// the total keeps the connection.
pub proof fn lemma_open_then_close(a: Stats, b: Stats, c: Stats)
    requires
        b.total_connections == u64_specs::wrapping_add(a.total_connections, 1),
        b.active_connections == i64_specs::wrapping_add(a.active_connections, 1),
        c.active_connections == i64_specs::wrapping_sub(b.active_connections, 1),
        c.total_connections == b.total_connections,
    ensures
        c.active_connections == a.active_connections,
        c.total_connections == u64_specs::wrapping_add(a.total_connections, 1),
{
}

} // verus!

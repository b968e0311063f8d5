// The rest of the library on concrete values: byte formatting, the TLS
// split, the proxy front end, DNS over HTTPS, the PAC file and counters.

use freedomnet::dashboard::fmt_bytes;
use freedomnet::doh::{a_record_candidates, query_url, resolver, Asked, DnsCache, ResolveAction, TTL_NANOS};
use freedomnet::http::{mangle, mangle_alternating};
use freedomnet::pac::{build_pac, pac_response};
use freedomnet::proxy::{
    connect_head_state, connect_target, parse_hostport, protocol_for, socks5_step, HeadState, Host, Protocol,
    ProxyError, Socks5Next, Socks5State,
};
use freedomnet::stats::Stats;
use freedomnet::text::is_whitespace;
use freedomnet::tls::split_into_records;

fn float_fmt_bytes(b: u64) -> String {
    match b {
        b if b >= 1_073_741_824 => format!("{:.2} GB", b as f64 / 1_073_741_824.0),
        b if b >= 1_048_576 => format!("{:.1} MB", b as f64 / 1_048_576.0),
        b if b >= 1024 => format!("{:.1} KB", b as f64 / 1024.0),
        _ => format!("{} B", b),
    }
}

#[test]
fn fmt_bytes_exact_values() {
    assert_eq!(fmt_bytes(0), "0 B");
    assert_eq!(fmt_bytes(1023), "1023 B");
    assert_eq!(fmt_bytes(1024), "1.0 KB");
    assert_eq!(fmt_bytes(1536), "1.5 KB");
    assert_eq!(fmt_bytes(1048576), "1.0 MB");
    assert_eq!(fmt_bytes(5_000_000), "4.8 MB");
    assert_eq!(fmt_bytes(2_000_000_000), "1.86 GB");
    assert_eq!(Stats::fmt_bytes(5_000), "4.9 KB");
}

#[test]
fn fmt_bytes_matches_float_formatting() {
    let mut values: Vec<u64> = Vec::new();
    for b in 0..20_000u64 {
        values.push(b);
    }
    for k in 0..64u32 {
        let p = 1u64 << k;
        for d in [0u64, 1, 2, 3, 512, 1024] {
            values.push(p.wrapping_add(d));
            values.push(p.wrapping_sub(d));
        }
    }
    for m in 1..2000u64 {
        values.push(m * 1024 * 1024 / 20);
        values.push(m * 1024 * 1024 * 1024 / 200);
        values.push(m * 1024 / 20 + 1048576);
    }
    let mut x: u64 = 0x2545_f491_4f6c_dd1d;
    for _ in 0..200_000 {
        x ^= x << 13;
        x ^= x >> 7;
        x ^= x << 17;
        values.push(x);
        values.push(x >> (x % 64));
    }
    values.push(u64::MAX);
    values.push((1u64 << 53) + 1);
    values.push((1u64 << 54) + 2);
    values.push((1u64 << 54) + 6);
    for b in values {
        assert_eq!(fmt_bytes(b), float_fmt_bytes(b), "b = {}", b);
    }
}

#[test]
fn is_whitespace_matches_std() {
    for u in 0..=0x10FFFFu32 {
        if let Some(c) = char::from_u32(u) {
            assert_eq!(is_whitespace(c), c.is_whitespace(), "U+{:04X}", u);
        }
    }
}

#[test]
fn split_client_hello_into_two_records() {
    let mut ch = vec![0x16, 0x03, 0x01, 0x00, 0x08, 0x01, 0x00, 0x00, 0x04, 0x03, 0x03, 0xaa, 0xbb];
    let (r1, r2) = split_into_records(&ch);
    assert_eq!(r1, vec![0x16, 0x03, 0x01, 0x00, 0x03, 0x01, 0x00, 0x00]);
    assert_eq!(r2, vec![0x16, 0x03, 0x01, 0x00, 0x05, 0x04, 0x03, 0x03, 0xaa, 0xbb]);
    let mut joined = r1[5..].to_vec();
    joined.extend_from_slice(&r2[5..]);
    assert_eq!(joined, ch[5..].to_vec());
    ch[0] = 0x17;
    let (a, b) = split_into_records(&ch);
    assert_eq!(a, ch[..3].to_vec());
    assert_eq!(b, ch[3..].to_vec());
}

#[test]
fn split_fallback_short_inputs() {
    assert_eq!(split_into_records(b""), (vec![], vec![]));
    assert_eq!(split_into_records(b"x"), (vec![], b"x".to_vec()));
    assert_eq!(split_into_records(b"xy"), (b"x".to_vec(), b"y".to_vec()));
    assert_eq!(split_into_records(b"hello"), (b"hel".to_vec(), b"lo".to_vec()));
}

#[test]
fn mangle_exact_output() {
    let req = b"GET / HTTP/1.1\r\nHost: x\r\nUser-Agent: curl\r\nACCEPT: a\r\nno colon\r\n\r\nbody";
    let out = mangle(req);
    assert_eq!(
        String::from_utf8(out.clone()).unwrap(),
        "GET / HTTP/1.1\r\nHost: x\r\nUSeR-agEnT: curl\r\nAcCePt: a\r\nno colon\r\n\r\nbody"
    );
    assert_eq!(
        String::from_utf8(out).unwrap().to_lowercase(),
        "get / http/1.1\r\nhost: x\r\nuser-agent: curl\r\naccept: a\r\nno colon\r\n\r\nbody"
    );
    assert_eq!(mangle(b"GET / HTTP/1.1\r\nHost: x\r\n"), b"GET / HTTP/1.1\r\nHost: x\r\n".to_vec());
}

#[test]
fn protocol_by_first_byte() {
    assert_eq!(protocol_for(5), Protocol::Socks5);
    assert_eq!(protocol_for(b'C'), Protocol::HttpConnect);
    assert_eq!(protocol_for(4), Protocol::HttpConnect);
}

#[test]
fn parse_hostport_cases() {
    assert_eq!(parse_hostport("example.com:8080"), Ok(("example.com".to_string(), 8080)));
    assert_eq!(parse_hostport("example.com"), Ok(("example.com".to_string(), 443)));
    assert_eq!(parse_hostport("[::1]:443"), Ok(("[::1]".to_string(), 443)));
    assert_eq!(parse_hostport("::1"), Ok((":".to_string(), 1)));
    assert_eq!(parse_hostport("a:+80"), Ok(("a".to_string(), 80)));
    assert_eq!(parse_hostport("a:0080"), Ok(("a".to_string(), 80)));
    assert_eq!(parse_hostport("a:65535"), Ok(("a".to_string(), 65535)));
    assert_eq!(parse_hostport("a:65536"), Err(ProxyError::BadPort));
    assert_eq!(parse_hostport("a:"), Err(ProxyError::BadPort));
    assert_eq!(parse_hostport("a:+"), Err(ProxyError::BadPort));
    assert_eq!(parse_hostport("a:-1"), Err(ProxyError::BadPort));
    assert_eq!(parse_hostport("a:8o"), Err(ProxyError::BadPort));
    assert_eq!(parse_hostport(""), Ok(("".to_string(), 443)));
}

#[test]
fn connect_head_reading() {
    assert_eq!(connect_head_state(b"CONNECT a:1 HTTP/1.1\r\n\r\n"), HeadState::Complete);
    assert_eq!(connect_head_state(b"CONNECT a:1 HTTP/1.1\r\n"), HeadState::NeedMore);
    assert_eq!(connect_head_state(&vec![b'a'; 8192]), HeadState::NeedMore);
    assert_eq!(connect_head_state(&vec![b'a'; 8193]), HeadState::TooLarge);
    let mut big = vec![b'a'; 9000];
    big.extend_from_slice(b"\r\n\r\n");
    assert_eq!(connect_head_state(&big), HeadState::Complete);
}

#[test]
fn connect_target_cases() {
    assert_eq!(
        connect_target(b"CONNECT example.com:8443 HTTP/1.1\r\nHost: example.com\r\n\r\n"),
        Ok(Some(("example.com".to_string(), 8443)))
    );
    assert_eq!(connect_target(b"connect h HTTP/1.1\r\n\r\n"), Ok(Some(("h".to_string(), 443))));
    assert_eq!(connect_target(b"GET / HTTP/1.1\r\n\r\n"), Ok(None));
    assert_eq!(connect_target(b"CONNECT\r\n\r\n"), Ok(None));
    assert_eq!(connect_target(b"CONNECT h:99999 HTTP/1.1\r\n\r\n"), Err(ProxyError::BadPort));
    assert_eq!(connect_target(b"CONNECT \xff HTTP/1.1\r\n\r\n"), Err(ProxyError::NotUtf8));
    assert_eq!(connect_target(b"CONNECT a:1\r\n\xff\r\n\r\n"), Ok(Some(("a".to_string(), 1))));
}

fn step_read(state: Socks5State, input: &[u8]) -> (Vec<u8>, Socks5State, usize) {
    let s = socks5_step(state, input);
    match s.next {
        Socks5Next::Read(st, n) => (s.reply, st, n),
        other => panic!("expected a read, got {:?}", other),
    }
}

#[test]
fn socks5_domain_handshake() {
    let (reply, st, n) = step_read(Socks5State::Greeting, &[2]);
    assert!(reply.is_empty());
    assert_eq!(n, 2);
    let (reply, st, n) = step_read(st, &[0, 2]);
    assert_eq!(reply, vec![5, 0]);
    assert_eq!(n, 4);
    let (_, st, n) = step_read(st, &[5, 1, 0, 3]);
    assert_eq!(n, 1);
    let (_, st, n) = step_read(st, &[11]);
    assert_eq!(n, 11);
    let (_, st, n) = step_read(st, b"example.com");
    assert_eq!(n, 2);
    let last = socks5_step(st, &[0x01, 0xbb]);
    assert_eq!(last.reply, vec![5, 0, 0, 1, 0, 0, 0, 0, 0, 0]);
    match last.next {
        Socks5Next::Tunnel(Host::Name(h), p) => {
            assert_eq!(h, "example.com");
            assert_eq!(p, 443);
        },
        other => panic!("unexpected {:?}", other),
    }
}

#[test]
fn socks5_ipv4_and_ipv6() {
    let (_, st, n) = step_read(Socks5State::Request, &[5, 1, 0, 1]);
    assert_eq!(n, 4);
    let (_, st, _) = step_read(st, &[192, 168, 0, 10]);
    match socks5_step(st, &[0, 80]).next {
        Socks5Next::Tunnel(Host::Name(h), 80) => assert_eq!(h, "192.168.0.10"),
        other => panic!("unexpected {:?}", other),
    }
    let (_, st, n) = step_read(Socks5State::Request, &[5, 1, 0, 4]);
    assert_eq!(n, 16);
    let octets: Vec<u8> = (0..16).collect();
    let (_, st, _) = step_read(st, &octets);
    match socks5_step(st, &[0x1f, 0x90]).next {
        Socks5Next::Tunnel(Host::V6(o), 8080) => assert_eq!(o, octets),
        other => panic!("unexpected {:?}", other),
    }
}

#[test]
fn socks5_refusals() {
    let s = socks5_step(Socks5State::Request, &[5, 2, 0, 1]);
    assert_eq!(s.reply, vec![5, 7, 0, 1, 0, 0, 0, 0, 0, 0]);
    assert!(matches!(s.next, Socks5Next::Close));
    let s = socks5_step(Socks5State::Request, &[5, 1, 0, 9]);
    assert_eq!(s.reply, vec![5, 8, 0, 1, 0, 0, 0, 0, 0, 0]);
    assert!(matches!(s.next, Socks5Next::Close));
    let s = socks5_step(Socks5State::Domain, &[0xc3, 0x28]);
    assert!(s.reply.is_empty());
    assert!(matches!(s.next, Socks5Next::Fail(ProxyError::NotUtf8)));
    let (_, _, n) = step_read(Socks5State::Greeting, &[0]);
    assert_eq!(n, 0);
}

#[test]
fn doh_resolvers_and_url() {
    assert_eq!(resolver(0), Some("https://cloudflare-dns.com/dns-query"));
    assert_eq!(resolver(1), Some("https://dns.google/dns-query"));
    assert_eq!(resolver(2), Some("https://dns.quad9.net/dns-query"));
    assert_eq!(resolver(3), None);
    assert_eq!(
        query_url("https://dns.google/dns-query", "example.com"),
        "https://dns.google/dns-query?name=example.com&type=A"
    );
}

#[test]
fn doh_answer_candidates() {
    let body = br#"{"Status":0,"Answer":[{"name":"x","type":5,"data":"cname.x."},{"type":1,"data":"93.184.216.34"},{"type":1,"data":7},{"type":1},{"type":"1","data":"9.9.9.9"},{"type":1,"data":"1.1.1.1"}]}"#;
    assert_eq!(a_record_candidates(body), vec!["93.184.216.34".to_string(), "1.1.1.1".to_string()]);
    assert!(a_record_candidates(b"not json").is_empty());
    assert!(a_record_candidates(br#"{"Status":3}"#).is_empty());
    assert!(a_record_candidates(br#"{"Answer":{"type":1}}"#).is_empty());
    assert!(a_record_candidates(br#"{"Answer":[]}"#).is_empty());
}

#[test]
fn dns_cache_read_after_write() {
    let ip: u32 = 0x0102_0304;
    let mut c: DnsCache<u32> = DnsCache::new();
    assert_eq!(c.lookup("a.com", 0), None);
    c.insert("a.com", ip, 1000);
    assert_eq!(c.lookup("a.com", 1000), Some(ip));
    assert_eq!(c.lookup("a.com", 1000 + TTL_NANOS - 1), Some(ip));
    assert_eq!(c.lookup("a.com", 1000 + TTL_NANOS), None);
    assert_eq!(c.lookup("b.com", 1000), None);
    let ip2: u32 = 0x7f00_0001;
    c.insert("a.com", ip2, 2000);
    assert_eq!(c.lookup("a.com", 2000), Some(ip2));
}

#[test]
fn dns_resolution_sequence() {
    let ip: u32 = 0x0a00_0001;
    let mut c: DnsCache<u32> = DnsCache::new();
    assert!(matches!(c.resolve_start("h", 5), ResolveAction::AskResolver(0)));
    assert!(matches!(c.resolve_next("h", Asked::Resolver(0), None, 5), ResolveAction::AskResolver(1)));
    assert!(matches!(c.resolve_next("h", Asked::Resolver(1), None, 5), ResolveAction::AskResolver(2)));
    assert!(matches!(c.resolve_next("h", Asked::Resolver(2), None, 5), ResolveAction::AskSystem));
    assert!(matches!(c.resolve_next("h", Asked::System, None, 5), ResolveAction::GiveUp));
    assert_eq!(c.lookup("h", 5), None);
    assert!(matches!(c.resolve_next("h", Asked::System, Some(ip), 5), ResolveAction::Answer(a) if a == ip));
    assert!(matches!(c.resolve_start("h", 6), ResolveAction::Answer(a) if a == ip));
    assert!(matches!(c.resolve_start("h", 5 + TTL_NANOS), ResolveAction::AskResolver(0)));
}

#[test]
fn pac_file_and_response() {
    let pac = build_pac("127.0.0.1", 1080);
    let expected = r#"// FreedomNet Proxy Auto-Config
// Set this URL in: System Settings → Network → Proxies → Auto Proxy Config
// URL: http://127.0.0.1:8085/proxy.pac

function FindProxyForURL(url, host) {
    // Direct for loopback and LAN
    if (isPlainHostName(host))         return "DIRECT";
    if (shExpMatch(host, "10.*"))      return "DIRECT";
    if (shExpMatch(host, "192.168.*")) return "DIRECT";
    if (shExpMatch(host, "172.16.*"))  return "DIRECT";
    if (host === "localhost")          return "DIRECT";
    if (host === "127.0.0.1")         return "DIRECT";

    // Route everything else through FreedomNet
    return "SOCKS5 127.0.0.1 1080; SOCKS 127.0.0.1 1080; DIRECT";
}
"#;
    assert_eq!(pac, expected);
    let resp = pac_response("127.0.0.1", 1080);
    let head = format!(
        "HTTP/1.1 200 OK\r\nContent-Type: application/x-ns-proxy-autoconfig\r\nContent-Length: {}\r\nConnection: close\r\n\r\n",
        expected.len()
    );
    assert_eq!(resp, [head.as_bytes(), expected.as_bytes()].concat());
}

#[test]
fn stats_counters_and_status_line() {
    let mut s = Stats::new();
    s.conn_open();
    s.conn_open();
    s.conn_close();
    s.add_up(2048);
    s.add_down(5);
    s.record_tls_split();
    s.record_tls_split3();
    s.record_http_mangle();
    s.record_doh_hit();
    s.record_doh_miss();
    s.record_doh_miss();
    s.record_doh_miss();
    assert_eq!(s.total_connections, 2);
    assert_eq!(s.active_connections, 1);
    assert_eq!(s.http_mangles, 1);
    assert_eq!(
        s.status_line(3661),
        "[01:01:01]  conns 2 total / 1 active  ↑ 2.0 KB  ↓ 5 B  TLS bypass: 2  DoH cache: 25%"
    );
    let fresh = Stats::new();
    assert_eq!(
        fresh.status_line(0),
        "[00:00:00]  conns 0 total / 0 active  ↑ 0 B  ↓ 0 B  TLS bypass: 0  DoH cache: 0%"
    );
    assert!(fresh.uptime_secs() < 3600);
}

#[test]
fn stats_counters_wrap_and_close_undoes_open() {
    let mut s = Stats::new();
    s.total_connections = u64::MAX;
    s.active_connections = 41;
    s.conn_open();
    assert_eq!(s.total_connections, 0);
    assert_eq!(s.active_connections, 42);
    s.conn_close();
    assert_eq!(s.active_connections, 41);
    s.bytes_up = u64::MAX - 1;
    s.add_up(3);
    assert_eq!(s.bytes_up, 1);
    s.conn_close();
    s.active_connections = i64::MIN;
    s.conn_close();
    assert_eq!(s.active_connections, i64::MAX);
    assert_eq!(s.status_line(359999), "[99:59:59]  conns 0 total / 9223372036854775807 active  ↑ 1 B  ↓ 0 B  TLS bypass: 0  DoH cache: 0%");
}

#[test]
fn first_payload_writes_by_kind() {
    let ch = vec![0x16, 0x03, 0x01, 0x00, 0x06, 0x01, 0x00, 0x00, 0x02, 0x03, 0x03];
    let w = freedomnet::proxy::first_payload_writes(&ch);
    assert_eq!(w.len(), 2);
    assert_eq!(w[0], vec![0x16, 0x03, 0x01, 0x00, 0x03, 0x01, 0x00, 0x00]);
    assert_eq!(w[1], vec![0x16, 0x03, 0x01, 0x00, 0x03, 0x02, 0x03, 0x03]);

    let req = b"GET / HTTP/1.1\r\nHost: a\r\nUser-Agent: x\r\nVia: p\r\n\r\n";
    let w = freedomnet::proxy::first_payload_writes(req);
    assert_eq!(w.len(), 1);
    assert_eq!(w[0], freedomnet::anon::sanitize_http(&mangle_alternating(req)));
    let text = String::from_utf8(w[0].clone()).unwrap();
    assert!(text.starts_with("GET / HTTP/1.1\r\nHost: a\r\nUser-Agent: Mozilla/5.0"));
    assert!(!text.to_lowercase().contains("via:"));

    let other = b"SSH-2.0-OpenSSH\r\n";
    assert_eq!(freedomnet::proxy::first_payload_writes(other), vec![other.to_vec()]);
}

#[test]
fn doh_candidates_from_decoded_answers() {
    let answers = vec![
        (Some(5u64), Some("cname.x.".to_string())),
        (Some(1u64), Some("93.184.216.34".to_string())),
        (Some(1u64), None),
        (None, Some("9.9.9.9".to_string())),
        (Some(1u64), Some("1.1.1.1".to_string())),
    ];
    assert_eq!(
        freedomnet::doh::answer_candidates(&answers),
        vec!["93.184.216.34".to_string(), "1.1.1.1".to_string()]
    );
    assert!(freedomnet::doh::answer_candidates(&Vec::new()).is_empty());
}

#[test]
fn mangle_alternating_matches_documented_casing() {
    let req = b"GET / HTTP/1.1\r\nHost: rutracker.org\r\nUser-Agent: Mozilla/5.0\r\n\r\n";
    assert_eq!(
        String::from_utf8(mangle_alternating(req)).unwrap(),
        "GET / HTTP/1.1\r\nHost: rutracker.org\r\nuSeR-AgEnT: Mozilla/5.0\r\n\r\n"
    );
    let post = b"POST /x HTTP/1.1\r\nHost: x\r\nContent-Length: 5\r\nX-Token: 1\r\n\r\nhello";
    let out = mangle_alternating(post);
    assert_eq!(String::from_utf8(out.clone()).unwrap(), "POST /x HTTP/1.1\r\nHost: x\r\nContent-Length: 5\r\nx-tOkEn: 1\r\n\r\nhello");
    assert_eq!(mangle_alternating(&out), out);
}

#[test]
fn mangle_changes_only_name_casing() {
    let post = b"POST /x HTTP/1.1\r\nHost: x\r\nContent-Length: 5\r\nUser-Agent: u\r\n\r\nhello";
    let out = mangle(post);
    assert_eq!(out.len(), post.len());
    assert_eq!(out.to_ascii_lowercase(), post.to_ascii_lowercase());
    assert!(out.ends_with(b"\r\n\r\nhello"));
}

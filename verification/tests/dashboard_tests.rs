// The stats dashboard: paths, JSON bodies and responses.

use freedomnet::dashboard::{dashboard_response, extract_path, fmt_bytes, rules_json, stats_json};
use freedomnet::rules::Rules;
use freedomnet::stats::Stats;

#[test]
fn extract_root_path() {
    assert_eq!(extract_path("GET / HTTP/1.1\r\nHost: x\r\n").as_deref(), Some("/"));
}

#[test]
fn extract_api_path() {
    assert_eq!(extract_path("GET /api/stats HTTP/1.1\r\n").as_deref(), Some("/api/stats"));
}

#[test]
fn stats_json_is_valid() {
    let j = stats_json(&Stats::new(), 0, "0.000");
    assert!(j.starts_with('{'));
    assert!(j.ends_with('}'));
    assert!(j.contains("total_connections"));
    assert!(j.contains("bytes_up"));
}

#[test]
fn fmt_bytes_gb() {
    assert!(fmt_bytes(2_000_000_000).contains("GB"));
}

#[test]
fn fmt_bytes_mb() {
    assert!(fmt_bytes(5_000_000).contains("MB"));
}

#[test]
fn fmt_bytes_kb() {
    assert!(fmt_bytes(5_000).contains("KB"));
}

#[test]
fn fmt_bytes_b() {
    assert!(fmt_bytes(100).contains("B"));
    assert!(!fmt_bytes(100).contains("K"));
}

#[test]
fn extract_path_edge_cases() {
    assert_eq!(extract_path("GET").as_deref(), None);
    assert_eq!(extract_path("").as_deref(), None);
    assert_eq!(extract_path("  GET   /x  HTTP/1.1").as_deref(), Some("/x"));
    assert_eq!(extract_path("GET\n/x").as_deref(), None);
    assert_eq!(extract_path("GET\t/tab\r\n").as_deref(), Some("/tab"));
}

#[test]
fn stats_json_exact() {
    let mut s = Stats::new();
    s.total_connections = 7;
    s.active_connections = -2;
    s.bytes_up = 1536;
    s.bytes_down = 100;
    s.tls_splits = 3;
    s.tls_splits3 = 4;
    let j = stats_json(&s, 3725, "0.500");
    assert_eq!(
        j,
        "{\"total_connections\":7,\"active_connections\":0,\"bytes_up\":1536,\"bytes_down\":100,\
         \"bytes_up_human\":\"1.5 KB\",\"bytes_down_human\":\"100 B\",\"tls_splits\":7,\
         \"doh_hit_rate\":0.500,\"uptime\":\"01:02:05\",\"started_at\":\"see uptime\"}"
    );
}

#[test]
fn rules_json_exact() {
    let r = Rules::parse("DIRECT google.com\nBLOCK doubleclick.net\nDIRECT localhost\n");
    assert_eq!(
        rules_json(&r),
        "{\"samples\":[{\"domain\":\"rutracker.org\",\"action\":\"PROXY\"},\
         {\"domain\":\"google.com\",\"action\":\"DIRECT\"},\
         {\"domain\":\"youtube.com\",\"action\":\"PROXY\"},\
         {\"domain\":\"bbc.com\",\"action\":\"PROXY\"},\
         {\"domain\":\"facebook.com\",\"action\":\"PROXY\"},\
         {\"domain\":\"twitter.com\",\"action\":\"PROXY\"},\
         {\"domain\":\"localhost\",\"action\":\"DIRECT\"},\
         {\"domain\":\"doubleclick.net\",\"action\":\"BLOCK\"}]}"
    );
}

#[test]
fn dashboard_health_and_not_found() {
    let s = Stats::new();
    let r = Rules::parse("");
    let ok = dashboard_response(b"GET /health HTTP/1.1\r\n\r\n", &s, 0, "0.000", &r, b"<html/>").unwrap();
    assert_eq!(
        String::from_utf8(ok).unwrap(),
        "HTTP/1.1 200 OK\r\nContent-Type: text/plain\r\nContent-Length: 2\r\nAccess-Control-Allow-Origin: *\r\nConnection: close\r\n\r\nok"
    );
    let nf = dashboard_response(b"GET /nope HTTP/1.1\r\n\r\n", &s, 0, "0.000", &r, b"<html/>").unwrap();
    assert_eq!(
        String::from_utf8(nf).unwrap(),
        "HTTP/1.1 404 Not Found\r\nContent-Type: text/plain\r\nContent-Length: 9\r\nAccess-Control-Allow-Origin: *\r\nConnection: close\r\n\r\nNot Found"
    );
}

#[test]
fn dashboard_page_and_default_path() {
    let s = Stats::new();
    let r = Rules::parse("");
    let expected = "HTTP/1.1 200 OK\r\nContent-Type: text/html; charset=utf-8\r\nContent-Length: 7\r\nAccess-Control-Allow-Origin: *\r\nConnection: close\r\n\r\n<html/>";
    for req in [&b"GET / HTTP/1.1\r\n"[..], b"GET /index.html HTTP/1.1\r\n", b"GARBAGE"] {
        let out = dashboard_response(req, &s, 0, "0.000", &r, b"<html/>").unwrap();
        assert_eq!(String::from_utf8(out).unwrap(), expected);
    }
}

#[test]
fn dashboard_api_bodies() {
    let s = Stats::new();
    let r = Rules::parse("BLOCK bbc.com");
    let out = String::from_utf8(dashboard_response(b"GET /api/stats HTTP/1.1\r\n", &s, 61, "0.000", &r, b"").unwrap()).unwrap();
    let body = stats_json(&s, 61, "0.000");
    assert!(out.ends_with(&body));
    assert!(out.contains(&format!("Content-Length: {}\r\n", body.len())));
    assert!(out.contains("\"uptime\":\"00:01:01\""));
    let out = String::from_utf8(dashboard_response(b"GET /api/rules HTTP/1.1\r\n", &s, 0, "0.000", &r, b"").unwrap()).unwrap();
    assert!(out.ends_with(&rules_json(&r)));
    assert!(out.contains("{\"domain\":\"bbc.com\",\"action\":\"BLOCK\"}"));
}

#[test]
fn dashboard_refuses_non_utf8() {
    let s = Stats::new();
    let r = Rules::parse("");
    assert!(dashboard_response(&[0x47, 0xff, 0xfe], &s, 0, "0.000", &r, b"").is_none());
}

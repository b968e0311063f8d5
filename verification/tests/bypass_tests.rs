// ClientHello detection, HTTP detection and HTTP header mangling.

use freedomnet::http::{is_http, mangle};
use freedomnet::tls::is_client_hello;

// A minimal TLS 1.2 ClientHello with SNI "example.com".
fn minimal_client_hello() -> Vec<u8> {
    let sni = b"example.com";
    let sni_len = sni.len() as u16;

    let mut sni_val = Vec::new();
    sni_val.extend_from_slice(&(sni_len + 3).to_be_bytes());
    sni_val.push(0x00); // host_name type
    sni_val.extend_from_slice(&sni_len.to_be_bytes());
    sni_val.extend_from_slice(sni);

    let mut exts = Vec::new();
    exts.extend_from_slice(&[0x00, 0x00]); // server_name extension
    exts.extend_from_slice(&(sni_val.len() as u16).to_be_bytes());
    exts.extend_from_slice(&sni_val);

    let mut hs_body = Vec::new();
    hs_body.extend_from_slice(&[0x03, 0x03]); // ClientHello version
    hs_body.extend_from_slice(&[0u8; 32]); // random
    hs_body.push(0x00); // session id len
    hs_body.extend_from_slice(&[0x00, 0x02]); // cipher suites len
    hs_body.extend_from_slice(&[0xc0, 0x2b]); // TLS_ECDHE_ECDSA_WITH_AES_128_GCM_SHA256
    hs_body.push(0x01); // compression methods len
    hs_body.push(0x00); // null compression
    hs_body.extend_from_slice(&(exts.len() as u16).to_be_bytes());
    hs_body.extend_from_slice(&exts);

    let body_len = hs_body.len() as u32;
    let mut hs = vec![0x01]; // HandshakeType = ClientHello
    hs.push(((body_len >> 16) & 0xff) as u8);
    hs.push(((body_len >> 8) & 0xff) as u8);
    hs.push((body_len & 0xff) as u8);
    hs.extend_from_slice(&hs_body);

    let total = hs.len() as u16;
    let mut record = vec![0x16, 0x03, 0x01]; // TLS Handshake, TLS 1.0 compat
    record.extend_from_slice(&total.to_be_bytes());
    record.extend_from_slice(&hs);
    record
}

#[test]
fn detect_client_hello() {
    assert!(is_client_hello(&minimal_client_hello()));
}

#[test]
fn reject_http_as_client_hello() {
    assert!(!is_client_hello(b"GET / HTTP/1.1\r\nHost: x\r\n\r\n"));
}

#[test]
fn reject_empty_as_client_hello() {
    assert!(!is_client_hello(&[]));
}

#[test]
fn reject_too_short_as_client_hello() {
    assert!(!is_client_hello(&[0x16, 0x03]));
}

#[test]
fn reject_server_hello_as_client_hello() {
    // type=0x02 (ServerHello) instead of 0x01
    let mut ch = minimal_client_hello();
    ch[5] = 0x02;
    assert!(!is_client_hello(&ch));
}

#[test]
fn detect_get() {
    assert!(is_http(b"GET / HTTP/1.1\r\n"));
}

#[test]
fn detect_post() {
    assert!(is_http(b"POST /x HTTP/1.1\r\n"));
}

#[test]
fn detect_put() {
    assert!(is_http(b"PUT /x HTTP/1.1\r\n"));
}

#[test]
fn detect_delete() {
    assert!(is_http(b"DELETE /x HTTP/1.1\r\n"));
}

#[test]
fn detect_head() {
    assert!(is_http(b"HEAD / HTTP/1.1\r\n"));
}

#[test]
fn reject_tls_as_http() {
    assert!(!is_http(&[0x16, 0x03, 0x01]));
}

#[test]
fn reject_empty_as_http() {
    assert!(!is_http(&[]));
}

#[test]
fn mangle_preserves_host() {
    let req = b"GET / HTTP/1.1\r\nHost: example.com\r\nUser-Agent: test\r\n\r\n";
    let out = mangle(req);
    let s = std::str::from_utf8(&out).unwrap();
    assert!(s.contains("Host: example.com"), "Host must remain canonical");
}

#[test]
fn mangle_preserves_content_length() {
    let req = b"POST / HTTP/1.1\r\nHost: x\r\nContent-Length: 5\r\n\r\nhello";
    let out = mangle(req);
    let s = std::str::from_utf8(&out).unwrap();
    assert!(s.contains("Content-Length: 5"), "Content-Length must remain canonical");
}

#[test]
fn mangle_changes_user_agent_case() {
    let req = b"GET / HTTP/1.1\r\nHost: x\r\nUser-Agent: curl\r\n\r\n";
    let out = mangle(req);
    let s = std::str::from_utf8(&out).unwrap();
    assert!(!s.contains("\nUser-Agent:"), "User-Agent should be case-mangled");
}

#[test]
fn mangle_output_contains_crlfcrlf() {
    let req = b"GET / HTTP/1.1\r\nHost: a.com\r\n\r\n";
    let out = mangle(req);
    assert!(out.windows(4).any(|w| w == b"\r\n\r\n"), "must have CRLFCRLF terminator");
}

#[test]
fn mangle_preserves_body() {
    let req = b"POST /x HTTP/1.1\r\nHost: x\r\nContent-Length: 5\r\n\r\nhello";
    let out = mangle(req);
    assert!(out.ends_with(b"hello"), "body must be preserved");
}

#[test]
fn mangle_preserves_first_line() {
    let req = b"GET /path?q=1 HTTP/1.1\r\nHost: a.com\r\n\r\n";
    let out = mangle(req);
    let s = std::str::from_utf8(&out).unwrap();
    assert!(s.starts_with("GET /path?q=1 HTTP/1.1\r\n"), "request line must be unchanged");
}

// The anonymity layer: leaky headers stripped, fingerprint headers normalised.

use freedomnet::anon::{is_http, sanitize_http, GENERIC_UA};

#[test]
fn strips_real_ip_header() {
    let req = b"GET / HTTP/1.1\r\nHost: example.com\r\nX-Real-IP: 1.2.3.4\r\n\r\n";
    let out = sanitize_http(req);
    assert!(!out.windows(9).any(|w| w == b"X-Real-IP"), "X-Real-IP must be stripped");
    assert!(out.windows(4).any(|w| w == b"Host"), "Host must be kept");
}

#[test]
fn replaces_user_agent() {
    let req = b"GET / HTTP/1.1\r\nHost: example.com\r\nUser-Agent: curl/7.0\r\n\r\n";
    let out = sanitize_http(req);
    assert!(std::str::from_utf8(&out).unwrap().contains("Chrome/124"));
}

#[test]
fn strips_referer() {
    let req = b"GET / HTTP/1.1\r\nHost: example.com\r\nReferer: https://other.com/\r\n\r\n";
    let out = sanitize_http(req);
    assert!(!std::str::from_utf8(&out).unwrap().to_lowercase().contains("referer"));
}

#[test]
fn sanitize_exact_output() {
    let req = b"GET /a HTTP/1.1\r\nHost: h\r\nX-Forwarded-For: 9.9.9.9\r\nuser-agent: curl\r\nAccept-Language: ru\r\nVia: 1.1 p\r\nAccept: */*\r\n\r\nbody";
    let out = sanitize_http(req);
    let expected = format!(
        "GET /a HTTP/1.1\r\nHost: h\r\nUser-Agent: {}\r\nAccept-Language: en-US,en;q=0.9\r\nAccept: */*\r\n\r\nbody",
        GENERIC_UA
    );
    assert_eq!(String::from_utf8(out).unwrap(), expected);
}

#[test]
fn sanitize_without_blank_line_is_unchanged() {
    let req = b"GET / HTTP/1.1\r\nX-Real-IP: 1.2.3.4\r\n";
    assert_eq!(sanitize_http(req), req.to_vec());
}

#[test]
fn sanitize_keeps_lines_without_colon() {
    let req = b"GET / HTTP/1.1\nweird line\r\nHost: a\r\n\r\n";
    let out = sanitize_http(req);
    assert_eq!(out, b"GET / HTTP/1.1\r\nweird line\r\nHost: a\r\n\r\n".to_vec());
}

#[test]
fn sanitize_drops_every_leaky_header() {
    let names = [
        "X-Real-IP", "x-forwarded-for", "X-Forwarded-Host", "X-Forwarded-Proto", "X-Forwarded-Port",
        "Forwarded", "VIA", "Proxy-Connection", "Proxy-Authorization", "X-Proxy-ID", "X-Tin", "Client-IP",
        "X-Client-IP", "True-Client-IP", "CF-Connecting-IP", "Fastly-Client-IP", "X-Cluster-Client-IP",
        "WL-Proxy-Client-IP", "Referer",
    ];
    for n in names {
        let req = format!("GET / HTTP/1.1\r\n{}: v\r\nHost: a\r\n\r\n", n);
        let out = sanitize_http(req.as_bytes());
        assert_eq!(out, b"GET / HTTP/1.1\r\nHost: a\r\n\r\n".to_vec(), "{} must be dropped", n);
    }
}

#[test]
fn anon_is_http_methods() {
    for m in ["GET", "POST", "PUT", "DELETE", "HEAD", "OPTIONS", "PATCH"] {
        assert!(is_http(format!("{} / HTTP/1.1\r\n", m).as_bytes()));
    }
    assert!(!is_http(b"CONNECT a:1 HTTP/1.1\r\n"));
    assert!(!is_http(b"GE"));
}

#[test]
fn sanitize_after_mangle_still_drops_leaky_header() {
    let req = b"GET / HTTP/1.1\r\nHost: a\r\nX-Real-IP: 1.2.3.4\r\n\r\n";
    let mangled = freedomnet::http::mangle(req);
    let out = sanitize_http(&mangled);
    assert!(!String::from_utf8(out).unwrap().to_lowercase().contains("x-real-ip"));
}

#[test]
fn sanitize_leaves_non_http_alone() {
    for data in [&b"\r\n\r\n"[..], b"SSH-2.0-x\r\nVia: p\r\n\r\nrest", b"\x16\x03\x01\x00\x05hello"] {
        assert_eq!(sanitize_http(data), data.to_vec());
    }
}

#[test]
fn sanitize_leaves_plain_request_alone() {
    let req = b"POST /x HTTP/1.1\r\nHost: a.com\r\nContent-Length: 4\r\nAccept: */*\r\n\r\nbody";
    assert_eq!(sanitize_http(req), req.to_vec());
    let bare = b"G\r\n\r\n";
    assert_eq!(sanitize_http(b"GET\r\n\r\n"), b"GET\r\n\r\n".to_vec());
    assert_eq!(sanitize_http(bare), bare.to_vec());
}

#[test]
fn sanitize_twice_is_sanitize_once() {
    let reqs: [&[u8]; 4] = [
        b"GET / HTTP/1.1\r\nHost: a\r\nUser-Agent: curl\r\nX-Real-IP: 1.2.3.4\r\nAccept-Language: de\r\n\r\nbody\r\n\r\nmore",
        b"GET / HTTP/1.1\nHost: a\nReferer: x\r\n\r\n",
        b"POST / HTTP/1.1\r\nVia: p\r\n\r\n",
        b"GET / HTTP/1.1\r\nA: b\r\n\nC: d\r\nUser-Agent: x\r\n\r\nbody",
    ];
    for req in reqs {
        let once = sanitize_http(req);
        assert_eq!(sanitize_http(&once), once);
    }
}

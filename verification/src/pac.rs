//! The Proxy Auto-Config file: LAN and loopback go direct, everything else
//! through the local SOCKS5 proxy (falling back to SOCKS, then direct).

use vstd::prelude::*;
use vstd::utf8::{encode_utf8, valid_utf8};
use crate::bytes::{append_bytes, lit};
use crate::numfmt::{lemma_decimal_ascii, push_decimal, spec_decimal};
use crate::text::{lemma_ascii_valid_utf8, string_from_valid_utf8};

verus! {

/// The PAC file up to the proxy address.
pub const PAC_HEAD: &'static str = "// FreedomNet Proxy Auto-Config\n// Set this URL in: System Settings → Network → Proxies → Auto Proxy Config\n// URL: http://127.0.0.1:8085/proxy.pac\n\nfunction FindProxyForURL(url, host) {\n    // Direct for loopback and LAN\n    if (isPlainHostName(host))         return \"DIRECT\";\n    if (shExpMatch(host, \"10.*\"))      return \"DIRECT\";\n    if (shExpMatch(host, \"192.168.*\")) return \"DIRECT\";\n    if (shExpMatch(host, \"172.16.*\"))  return \"DIRECT\";\n    if (host === \"localhost\")          return \"DIRECT\";\n    if (host === \"127.0.0.1\")         return \"DIRECT\";\n\n    // Route everything else through FreedomNet\n    return \"SOCKS5 ";

/// The PAC file after the last port number.
pub const PAC_TAIL: &'static str = "; DIRECT\";\n}\n";

/// The PAC file for a proxy at `host` (an IP address as text) and `port`.
pub open spec fn spec_build_pac(host: Seq<char>, port: u16) -> Seq<u8> {
    lit(PAC_HEAD) + encode_utf8(host) + lit(" ") + spec_decimal(port as nat) + lit("; SOCKS ") + encode_utf8(host)
        + lit(" ") + spec_decimal(port as nat) + lit(PAC_TAIL)
}

/// The HTTP response that serves the PAC file.
pub open spec fn spec_pac_response(host: Seq<char>, port: u16) -> Seq<u8> {
    lit("HTTP/1.1 200 OK\r\nContent-Type: application/x-ns-proxy-autoconfig\r\nContent-Length: ")
        + spec_decimal(spec_build_pac(host, port).len()) + lit("\r\nConnection: close\r\n\r\n")
        + spec_build_pac(host, port)
}

fn push_pac(out: &mut Vec<u8>, host: &str, port: u16)
    ensures
        final(out)@ == old(out)@ + spec_build_pac(host@, port),
{
    append_bytes(out, PAC_HEAD.as_bytes());
    append_bytes(out, host.as_bytes());
    append_bytes(out, " ".as_bytes());
    push_decimal(out, port as u128);
    append_bytes(out, "; SOCKS ".as_bytes());
    append_bytes(out, host.as_bytes());
    append_bytes(out, " ".as_bytes());
    push_decimal(out, port as u128);
    append_bytes(out, PAC_TAIL.as_bytes());
    assert(final(out)@ =~= old(out)@ + spec_build_pac(host@, port));
}

/// The PAC file for a proxy listening at `host`:`port`.
pub fn build_pac(host: &str, port: u16) -> (r: String)
    ensures
        encode_utf8(r@) == spec_build_pac(host@, port),
{
    let mut out: Vec<u8> = Vec::new();
    push_pac(&mut out, host, port);
    proof {
        assert(out@ =~= spec_build_pac(host@, port));
        lemma_pac_valid(host@, port);
    }
    string_from_valid_utf8(out)
}

/// The complete HTTP response serving the PAC file.
pub fn pac_response(host: &str, port: u16) -> (r: Vec<u8>)
    ensures
        r@ == spec_pac_response(host@, port),
{
    let mut pac: Vec<u8> = Vec::new();
    push_pac(&mut pac, host, port);
    let mut out: Vec<u8> = Vec::new();
    append_bytes(&mut out, "HTTP/1.1 200 OK\r\nContent-Type: application/x-ns-proxy-autoconfig\r\nContent-Length: ".as_bytes());
    push_decimal(&mut out, pac.len() as u128);
    append_bytes(&mut out, "\r\nConnection: close\r\n\r\n".as_bytes());
    append_bytes(&mut out, pac.as_slice());
    assert(out@ =~= spec_pac_response(host@, port));
    out
}

proof fn lemma_pac_valid(host: Seq<char>, port: u16)
    ensures
        valid_utf8(spec_build_pac(host, port)),
{
    vstd::utf8::encode_utf8_valid_utf8(PAC_HEAD@);
    vstd::utf8::encode_utf8_valid_utf8(PAC_TAIL@);
    vstd::utf8::encode_utf8_valid_utf8(" "@);
    vstd::utf8::encode_utf8_valid_utf8("; SOCKS "@);
    vstd::utf8::encode_utf8_valid_utf8(host);
    lemma_decimal_ascii(port as nat);
    lemma_ascii_valid_utf8(spec_decimal(port as nat));
    let h = encode_utf8(host);
    let d = spec_decimal(port as nat);
    vstd::utf8::valid_utf8_concat(lit(PAC_HEAD), h);
    vstd::utf8::valid_utf8_concat(lit(PAC_HEAD) + h, lit(" "));
    vstd::utf8::valid_utf8_concat(lit(PAC_HEAD) + h + lit(" "), d);
    vstd::utf8::valid_utf8_concat(lit(PAC_HEAD) + h + lit(" ") + d, lit("; SOCKS "));
    vstd::utf8::valid_utf8_concat(lit(PAC_HEAD) + h + lit(" ") + d + lit("; SOCKS "), h);
    vstd::utf8::valid_utf8_concat(lit(PAC_HEAD) + h + lit(" ") + d + lit("; SOCKS ") + h, lit(" "));
    vstd::utf8::valid_utf8_concat(lit(PAC_HEAD) + h + lit(" ") + d + lit("; SOCKS ") + h + lit(" "), d);
    vstd::utf8::valid_utf8_concat(lit(PAC_HEAD) + h + lit(" ") + d + lit("; SOCKS ") + h + lit(" ") + d, lit(PAC_TAIL));
}

/// The response carries the PAC file as its body, after a header whose
/// Content-Length is the body's length in bytes.
pub proof fn lemma_pac_response_frames_body(host: Seq<char>, port: u16)
    ensures
        ({
            let head = lit("HTTP/1.1 200 OK\r\nContent-Type: application/x-ns-proxy-autoconfig\r\nContent-Length: ")
                + spec_decimal(spec_build_pac(host, port).len()) + lit("\r\nConnection: close\r\n\r\n");
            &&& spec_pac_response(host, port) == head + spec_build_pac(host, port)
            &&& spec_pac_response(host, port).subrange(head.len() as int, spec_pac_response(host, port).len() as int)
                == spec_build_pac(host, port)
        }),
{
    let head = lit("HTTP/1.1 200 OK\r\nContent-Type: application/x-ns-proxy-autoconfig\r\nContent-Length: ")
        + spec_decimal(spec_build_pac(host, port).len()) + lit("\r\nConnection: close\r\n\r\n");
    let r = spec_pac_response(host, port);
    assert(r.subrange(head.len() as int, r.len() as int) =~= spec_build_pac(host, port));
}

} // verus!

// Routing rules read from rule text.

use freedomnet::rules::{keyword_action, Action, Rules};

fn rules_from(text: &str) -> Rules {
    Rules::parse(text)
}

#[test]
fn proxy_default() {
    let r = rules_from("DIRECT google.com\n");
    assert_eq!(r.action_for("youtube.com"), Action::Proxy);
}

#[test]
fn direct_exact() {
    let r = rules_from("DIRECT google.com\n");
    assert_eq!(r.action_for("google.com"), Action::Direct);
}

#[test]
fn subdomain_inherits() {
    let r = rules_from("DIRECT google.com\n");
    assert_eq!(r.action_for("mail.google.com"), Action::Direct);
}

#[test]
fn block_action() {
    let r = rules_from("BLOCK ads.example.com\n");
    assert_eq!(r.action_for("ads.example.com"), Action::Block);
}

#[test]
fn comment_ignored() {
    let r = rules_from("# this is a comment\nPROXY rutracker.org\n");
    assert_eq!(r.action_for("rutracker.org"), Action::Proxy);
}

#[test]
fn keyword_and_host_case_insensitive() {
    let r = rules_from("direct GOOGLE.com\nBlock Ads.Example.COM");
    assert_eq!(r.action_for("Mail.Google.COM"), Action::Direct);
    assert_eq!(r.action_for("x.ads.example.com"), Action::Block);
    assert_eq!(r.action_for("example.com"), Action::Proxy);
}

#[test]
fn whitespace_and_odd_lines() {
    let r = rules_from("   \n\t# indented comment DIRECT a.com\n  DIRECT\t  b.com  \r\nDIRECT\nWHATEVER c.com\nBLOCK");
    assert_eq!(r.action_for("a.com"), Action::Proxy);
    assert_eq!(r.action_for("b.com"), Action::Direct);
    assert_eq!(r.action_for("c.com"), Action::Proxy);
}

#[test]
fn later_rule_wins() {
    let r = rules_from("DIRECT a.com\nBLOCK a.com\n");
    assert_eq!(r.action_for("a.com"), Action::Block);
    assert_eq!(r.action_for("www.a.com"), Action::Block);
}

#[test]
fn more_specific_rule_first() {
    let r = rules_from("BLOCK example.com\nDIRECT cdn.example.com\n");
    assert_eq!(r.action_for("img.cdn.example.com"), Action::Direct);
    assert_eq!(r.action_for("www.example.com"), Action::Block);
    assert_eq!(r.action_for("example.org"), Action::Proxy);
}

#[test]
fn domain_with_inner_space_kept_whole() {
    let r = rules_from("DIRECT  a.com b.com\n");
    assert_eq!(r.action_for("a.com b.com"), Action::Direct);
    assert_eq!(r.action_for("a.com"), Action::Proxy);
}

#[test]
fn lowercase_host_lookup_and_keywords() {
    let r = rules_from("DIRECT google.com\nBLOCK ads.example.com\n");
    assert_eq!(r.action_for_lowercase("mail.google.com"), Action::Direct);
    assert_eq!(r.action_for_lowercase("Mail.Google.com"), Action::Proxy);
    assert_eq!(r.action_for_lowercase("x.ads.example.com"), Action::Block);
    assert_eq!(keyword_action("DIRECT"), Action::Direct);
    assert_eq!(keyword_action("BLOCK"), Action::Block);
    assert_eq!(keyword_action("PROXY"), Action::Proxy);
    assert_eq!(keyword_action("direct"), Action::Proxy);
}

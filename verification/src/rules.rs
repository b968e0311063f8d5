//! Domain routing rules: whether a connection goes through the bypass
//! pipeline, is passed direct, or is blocked.
//!
//! Rule text has one rule per line, `KEYWORD domain`, e.g.
//!
//!   PROXY   rutracker.org
//!   DIRECT  192.168.1.1
//!   BLOCK   ads.example.com
//!
//! Lines starting with `#` are comments; blank lines are ignored.  A keyword
//! other than DIRECT or BLOCK means PROXY.  Matching is suffix-based: a
//! sub-domain inherits the rule of its parent.  Unknown hosts are proxied.

use vstd::prelude::*;
use vstd::hash_map::StringHashMap;
use crate::text::{
    chars_of, chars_eq, find_char, find_ws, lemma_find_char_range, lemma_find_char_shift, lemma_find_ws_is,
    spec_find_char, spec_find_ws, spec_to_lowercase, spec_to_uppercase, spec_trim, string_of, to_lowercase,
    to_uppercase, trim_bounds,
};

verus! {

/// What to do with a connection to a host.
#[derive(Clone, Copy, Debug, PartialEq, Eq, Structural)]
pub enum Action {
    Proxy,
    Direct,
    Block,
}

/// A set of routing rules: lowercase domain to action.
pub struct Rules {
    map: StringHashMap<Action>,
}

impl View for Rules {
    type V = Map<Seq<char>, Action>;

    closed spec fn view(&self) -> Map<Seq<char>, Action> {
        self.map@
    }
}

/// The action for an (already lowercased) host `s`: the rule for `s` itself,
/// else the rule for what follows its first '.', and so on; PROXY when no
/// such suffix has a rule.
pub open spec fn spec_action_for(m: Map<Seq<char>, Action>, s: Seq<char>) -> Action
    decreases s.len(),
{
    if m.contains_key(s) {
        m[s]
    } else {
        match spec_find_char(s, '.', 0) {
            Some(d) => if 0 <= d < s.len() {
                spec_action_for(m, s.subrange(d + 1, s.len() as int))
            } else {
                Action::Proxy
            },
            None => Action::Proxy,
        }
    }
}

/// The action a (uppercased) keyword stands for.
pub open spec fn spec_keyword_action(k: Seq<char>) -> Action {
    if k == "DIRECT"@ {
        Action::Direct
    } else if k == "BLOCK"@ {
        Action::Block
    } else {
        Action::Proxy
    }
}

/// The rule one line states, if any: comments and blank lines state
/// none; otherwise the first whitespace-separated word is the keyword and
/// the rest, trimmed and lowercased, the domain; a line without a domain
/// states none.
pub open spec fn spec_line_rule(line: Seq<char>) -> Option<(Seq<char>, Action)> {
    let t = spec_trim(line);
    if t.len() == 0 || t[0] == '#' {
        None
    } else {
        let k = match spec_find_ws(t, 0) {
            Some(w) => w,
            None => t.len() as int,
        };
        let rest = if k < t.len() { t.subrange(k + 1, t.len() as int) } else { Seq::empty() };
        let dom = spec_to_lowercase(spec_trim(rest));
        if dom.len() == 0 {
            None
        } else {
            Some((dom, spec_keyword_action(spec_to_uppercase(t.subrange(0, k)))))
        }
    }
}

/// The rules after reading one line: the rule it states replaces whatever
/// was set for its domain before.
pub open spec fn spec_apply_line(m: Map<Seq<char>, Action>, line: Seq<char>) -> Map<Seq<char>, Action> {
    match spec_line_rule(line) {
        Some((d, a)) => m.insert(d, a),
        None => m,
    }
}

/// The rules after reading the text `t` line by line, starting from `m`.
pub open spec fn spec_parse(t: Seq<char>, m: Map<Seq<char>, Action>) -> Map<Seq<char>, Action>
    decreases t.len(),
{
    if t.len() == 0 {
        m
    } else {
        match spec_find_char(t, '\n', 0) {
            Some(j) => if 0 <= j < t.len() {
                spec_parse(t.subrange(j + 1, t.len() as int), spec_apply_line(m, t.subrange(0, j)))
            } else {
                m
            },
            None => spec_apply_line(m, t),
        }
    }
}

impl Rules {
    /// Read rules from rule text.
    pub fn parse(text: &str) -> (r: Rules)
        ensures
            r@ == spec_parse(text@, Map::empty()),
    {
        let cs = chars_of(text);
        let mut map: StringHashMap<Action> = StringHashMap::new();
        let mut start: usize = 0;
        assert(cs@.subrange(0, cs@.len() as int) =~= cs@);
        while start < cs.len()
            invariant
                start <= cs@.len(),
                cs@ == text@,
                spec_parse(text@, Map::empty()) == spec_parse(cs@.subrange(start as int, cs@.len() as int), map@),
            decreases cs@.len() - start,
        {
            let ghost t = cs@.subrange(start as int, cs@.len() as int);
            proof {
                lemma_find_char_shift(cs@, '\n', start as int, start as int);
                lemma_find_char_range(t, '\n', 0);
            }
            match find_char(cs.as_slice(), '\n', start) {
                Some(j) => {
                    assert(t.subrange(0, j - start) =~= cs@.subrange(start as int, j as int));
                    assert(t.subrange(j - start + 1, t.len() as int) =~= cs@.subrange(j + 1, cs@.len() as int));
                    apply_line(&mut map, cs.as_slice(), start, j);
                    start = j + 1;
                },
                None => {
                    assert(t =~= cs@.subrange(start as int, cs@.len() as int));
                    apply_line(&mut map, cs.as_slice(), start, cs.len());
                    assert(spec_parse(cs@.subrange(cs@.len() as int, cs@.len() as int), map@) == map@);
                    start = cs.len();
                },
            }
        }
        Rules { map }
    }

    /// The routing action for a hostname: the rule for the lowercased host,
    /// else for its parent domains `a.b.c` → `b.c` → `c`; PROXY by default.
    pub fn action_for(&self, host: &str) -> (r: Action)
        ensures
            r == spec_action_for(self@, spec_to_lowercase(host@)),
            vstd::utf8::is_ascii_chars(host@)
                ==> r == spec_action_for(self@, host@.map_values(|c: char| crate::text::ascii_lower_char(c))),
    {
        let lower = to_lowercase(host);
        self.action_for_lowercase(lower.as_str())
    }

    /// The routing action for a hostname that is already lowercase: the
    /// rule for `host`, else for its parent domains; PROXY by default.
    pub fn action_for_lowercase(&self, host: &str) -> (r: Action)
        ensures
            r == spec_action_for(self@, host@),
    {
        let cs = chars_of(host);
        let ghost s = cs@;
        let mut start: usize = 0;
        assert(s.subrange(0, s.len() as int) =~= s);
        loop
            invariant
                s == cs@,
                s == host@,
                start <= s.len(),
                spec_action_for(self@, s) == spec_action_for(self@, s.subrange(start as int, s.len() as int)),
            decreases s.len() - start,
        {
            let suffix = string_of(cs.as_slice(), start, cs.len());
            let ghost t = s.subrange(start as int, s.len() as int);
            match self.map.get(suffix.as_str()) {
                Some(a) => {
                    return *a;
                },
                None => {},
            }
            proof {
                lemma_find_char_shift(s, '.', start as int, start as int);
                lemma_find_char_range(t, '.', 0);
            }
            match find_char(cs.as_slice(), '.', start) {
                Some(d) => {
                    assert(t.subrange(d - start + 1, t.len() as int) =~= s.subrange(d + 1, s.len() as int));
                    start = d + 1;
                },
                None => {
                    return Action::Proxy;
                },
            }
        }
    }
}

/// Some rule covers `s`: `s` itself or a suffix after one of its dots.
pub open spec fn spec_covered(m: Map<Seq<char>, Action>, s: Seq<char>) -> bool
    decreases s.len(),
{
    m.contains_key(s) || match spec_find_char(s, '.', 0) {
        Some(d) => 0 <= d < s.len() && spec_covered(m, s.subrange(d + 1, s.len() as int)),
        None => false,
    }
}

/// Unknown hosts are proxied: a host that no rule covers gets PROXY.
pub proof fn lemma_uncovered_host_is_proxied(m: Map<Seq<char>, Action>, s: Seq<char>)
    requires
        !spec_covered(m, s),
    ensures
        spec_action_for(m, s) == Action::Proxy,
    decreases s.len(),
{
    match spec_find_char(s, '.', 0) {
        Some(d) => {
            if 0 <= d < s.len() {
                lemma_uncovered_host_is_proxied(m, s.subrange(d + 1, s.len() as int));
            }
        },
        None => {},
    }
}

/// Sub-domains inherit: `label.d`, with no rule of its own, gets the rule
/// of `d`.
pub proof fn lemma_subdomain_inherits(m: Map<Seq<char>, Action>, label: Seq<char>, d: Seq<char>)
    requires
        spec_find_char(label, '.', 0) == None::<int>,
        m.contains_key(d),
        !m.contains_key(label + seq!['.'] + d),
    ensures
        spec_action_for(m, label + seq!['.'] + d) == m[d],
{
    let s = label + seq!['.'] + d;
    lemma_find_prefix_then_dot(label, d, 0);
    assert(s.subrange(label.len() + 1int, s.len() as int) =~= d);
    assert(spec_action_for(m, d) == m[d]);
    assert(spec_action_for(m, s) == spec_action_for(m, s.subrange(label.len() + 1int, s.len() as int)));
}

/// One label up: a host `x.s` (with `x` a single label) that has no rule
/// of its own is routed exactly as `s` is.
pub proof fn lemma_label_inherits(m: Map<Seq<char>, Action>, x: Seq<char>, s: Seq<char>)
    requires
        spec_find_char(x, '.', 0) == None::<int>,
        !m.contains_key(x + seq!['.'] + s),
    ensures
        spec_action_for(m, x + seq!['.'] + s) == spec_action_for(m, s),
{
    let h = x + seq!['.'] + s;
    lemma_find_prefix_then_dot(x, s, 0);
    assert(h.subrange(x.len() + 1int, h.len() as int) =~= s);
}

/// Before the first `c` found from `i` there is no `c`.
proof fn lemma_find_char_prefix_none(s: Seq<char>, c: char, i: int, k: int)
    requires
        0 <= i <= k,
        spec_find_char(s, c, i) == Some(k),
    ensures
        spec_find_char(s.subrange(0, k), c, i) == None::<int>,
    decreases k - i,
{
    lemma_find_char_range(s, c, i);
    if i < k {
        assert(s.subrange(0, k)[i] == s[i]);
        lemma_find_char_prefix_none(s, c, i + 1, k);
    }
}

/// Sub-domains inherit at any depth: a host `p.d`, however many labels `p`
/// has, gets the rule of `d` when `d` has a rule and no longer suffix of
/// the host (the host itself, or what follows any '.' inside `p`) has one.
pub proof fn lemma_inherits_at_any_depth(m: Map<Seq<char>, Action>, p: Seq<char>, d: Seq<char>)
    requires
        m.contains_key(d),
        forall|i: int| 0 <= i <= p.len() && (i == 0 || p[i - 1] == '.')
            ==> !m.contains_key(#[trigger] (p + seq!['.'] + d).subrange(i, (p.len() + 1 + d.len()) as int)),
    ensures
        spec_action_for(m, p + seq!['.'] + d) == m[d],
    decreases p.len(),
{
    let h = p + seq!['.'] + d;
    assert(h.subrange(0, (p.len() + 1 + d.len()) as int) =~= h);
    assert(!m.contains_key(h));
    lemma_find_char_range(p, '.', 0);
    match spec_find_char(p, '.', 0) {
        None => {
            lemma_label_inherits(m, p, d);
        },
        Some(k) => {
            let x = p.subrange(0, k);
            let p2 = p.subrange(k + 1, p.len() as int);
            let s2 = p2 + seq!['.'] + d;
            lemma_find_char_prefix_none(p, '.', 0, k);
            assert(x + seq!['.'] + s2 =~= h);
            lemma_label_inherits(m, x, s2);
            assert forall|i: int| 0 <= i <= p2.len() && (i == 0 || p2[i - 1] == '.')
                implies !m.contains_key(#[trigger] (p2 + seq!['.'] + d).subrange(i, (p2.len() + 1 + d.len()) as int)) by {
                let j = k + 1 + i;
                assert(p[j - 1] == '.') by {
                    if i > 0 {
                        assert(p2[i - 1] == p[j - 1]);
                    }
                }
                assert((p2 + seq!['.'] + d).subrange(i, (p2.len() + 1 + d.len()) as int) =~= h.subrange(j, (p.len() + 1 + d.len()) as int));
            }
            lemma_inherits_at_any_depth(m, p2, d);
        },
    }
}

/// Every rule line stores a rule, whatever its keyword: a line without LF
/// whose trimmed text is a keyword `kw` (no whitespace in it, not starting
/// with '#'), one whitespace character and then `rest`, where `rest`
/// trimmed and lowercased is not empty, maps that domain to DIRECT when the
/// uppercased keyword is DIRECT, to BLOCK when it is BLOCK, and to PROXY
/// otherwise; nothing else changes.
pub proof fn lemma_rule_line_stored(m: Map<Seq<char>, Action>, line: Seq<char>, kw: Seq<char>, c: char, rest: Seq<char>)
    requires
        spec_find_char(line, '\n', 0) == None::<int>,
        spec_trim(line) == kw + seq![c] + rest,
        kw.len() > 0,
        kw[0] != '#',
        forall|i: int| 0 <= i < kw.len() ==> !crate::text::is_ws(#[trigger] kw[i]),
        crate::text::is_ws(c),
        spec_to_lowercase(spec_trim(rest)).len() > 0,
    ensures
        spec_parse(line, m) == m.insert(
            spec_to_lowercase(spec_trim(rest)),
            if spec_to_uppercase(kw) == "DIRECT"@ {
                Action::Direct
            } else if spec_to_uppercase(kw) == "BLOCK"@ {
                Action::Block
            } else {
                Action::Proxy
            },
        ),
{
    let t = spec_trim(line);
    assert(line.len() > 0) by {
        if line.len() == 0 {
            assert(spec_trim(line).len() == 0);
        }
    }
    assert(t[0] == kw[0]);
    assert forall|i: int| 0 <= i < kw.len() implies !crate::text::is_ws(#[trigger] t[i]) by {
        assert(t[i] == kw[i]);
    }
    assert(t[kw.len() as int] == c);
    lemma_find_ws_is(t, 0, kw.len() as int);
    assert(t.subrange(0, kw.len() as int) =~= kw);
    assert(t.subrange(kw.len() + 1int, t.len() as int) =~= rest);
}

proof fn lemma_find_prefix_then_dot(label: Seq<char>, d: Seq<char>, i: int)
    requires
        0 <= i <= label.len(),
        spec_find_char(label, '.', i) == None::<int>,
    ensures
        spec_find_char(label + seq!['.'] + d, '.', i) == Some(label.len() as int),
    decreases label.len() - i,
{
    let s = label + seq!['.'] + d;
    if i < label.len() {
        assert(s[i] == label[i]);
        lemma_find_prefix_then_dot(label, d, i + 1);
    } else {
        assert(s[i] == '.');
    }
}

/// Comments and blank lines are ignored: putting one in front of rule text
/// does not change the rules read from it.
pub proof fn lemma_comment_or_blank_line_ignored(m: Map<Seq<char>, Action>, line: Seq<char>, rest: Seq<char>)
    requires
        spec_find_char(line, '\n', 0) == None::<int>,
        spec_trim(line).len() == 0 || spec_trim(line)[0] == '#',
    ensures
        spec_parse(line + seq!['\n'] + rest, m) == spec_parse(rest, m),
{
    let t = line + seq!['\n'] + rest;
    lemma_find_prefix_then_nl(line, rest, 0);
    assert(t.subrange(0, line.len() as int) =~= line);
    assert(t.subrange(line.len() + 1int, t.len() as int) =~= rest);
}

proof fn lemma_find_prefix_then_nl(line: Seq<char>, rest: Seq<char>, i: int)
    requires
        0 <= i <= line.len(),
        spec_find_char(line, '\n', i) == None::<int>,
    ensures
        spec_find_char(line + seq!['\n'] + rest, '\n', i) == Some(line.len() as int),
    decreases line.len() - i,
{
    let s = line + seq!['\n'] + rest;
    if i < line.len() {
        assert(s[i] == line[i]);
        lemma_find_prefix_then_nl(line, rest, i + 1);
    } else {
        assert(s[i] == '\n');
    }
}

/// A later rule for the same domain wins: when one line states a rule for
/// domain `d` and the next line states another rule for `d`, the rules read
/// give `d` the later action, whatever was there before.
pub proof fn lemma_later_rule_wins(m: Map<Seq<char>, Action>, l1: Seq<char>, l2: Seq<char>, d: Seq<char>,
    a1: Action, a2: Action)
    requires
        spec_find_char(l1, '\n', 0) == None::<int>,
        spec_find_char(l2, '\n', 0) == None::<int>,
        spec_line_rule(l1) == Some((d, a1)),
        spec_line_rule(l2) == Some((d, a2)),
    ensures
        spec_parse(l1 + seq!['\n'] + l2, m) == m.insert(d, a2),
        spec_action_for(spec_parse(l1 + seq!['\n'] + l2, m), d) == a2,
{
    let t = l1 + seq!['\n'] + l2;
    lemma_find_prefix_then_nl(l1, l2, 0);
    assert(t.subrange(0, l1.len() as int) =~= l1);
    assert(t.subrange(l1.len() + 1int, t.len() as int) =~= l2);
    assert(l2.len() > 0) by {
        if l2.len() == 0 {
            assert(spec_trim(l2).len() == 0);
        }
    }
    let m1 = spec_apply_line(m, l1);
    assert(spec_parse(t, m) == spec_parse(l2, m1));
    assert(spec_parse(l2, m1) == spec_apply_line(m1, l2));
    assert(m.insert(d, a1).insert(d, a2) =~= m.insert(d, a2));
}

/// Read one rule line `cs[lo..hi]` into `map`.
fn apply_line(map: &mut StringHashMap<Action>, cs: &[char], lo: usize, hi: usize)
    requires
        lo <= hi <= cs@.len(),
    ensures
        final(map)@ == spec_apply_line(old(map)@, cs@.subrange(lo as int, hi as int)),
{
    let ghost line = cs@.subrange(lo as int, hi as int);
    let (a, b) = trim_bounds(cs, lo, hi);
    let ghost t = spec_trim(line);
    assert(t == cs@.subrange(a as int, b as int));
    if a == b || cs[a] == '#' {
        return;
    }
    let k = find_ws(cs, a, b);
    proof {
        assert forall|i: int| 0 <= i < k - a implies !crate::text::is_ws(#[trigger] t[i]) by {
            assert(t[i] == cs@[a + i]);
        }
        lemma_find_ws_is(t, 0, k - a);
    }
    let kw = string_of(cs, a, k);
    assert(kw@ == t.subrange(0, k - a));
    let rest_lo = if k < b { k + 1 } else { b };
    let (ra, rb) = trim_bounds(cs, rest_lo, b);
    let ghost rest = if k < b { t.subrange(k - a + 1, t.len() as int) } else { Seq::<char>::empty() };
    assert(rest =~= cs@.subrange(rest_lo as int, b as int));
    let dom_raw = string_of(cs, ra, rb);
    let dom = to_lowercase(dom_raw.as_str());
    if dom.as_str().is_empty() {
        return;
    }
    let up = to_uppercase(kw.as_str());
    let action = keyword_action(up.as_str());
    map.insert(dom, action);
}

/// The action an (already uppercase) keyword stands for: DIRECT, BLOCK,
/// or PROXY for any other keyword.
pub fn keyword_action(k: &str) -> (r: Action)
    ensures
        r == spec_keyword_action(k@),
{
    let kc = chars_of(k);
    let direct = chars_of("DIRECT");
    let block = chars_of("BLOCK");
    if chars_eq(kc.as_slice(), 0, kc.len(), direct.as_slice()) {
        assert(kc@.subrange(0, kc@.len() as int) =~= kc@);
        Action::Direct
    } else if chars_eq(kc.as_slice(), 0, kc.len(), block.as_slice()) {
        assert(kc@.subrange(0, kc@.len() as int) =~= kc@);
        Action::Block
    } else {
        assert(kc@.subrange(0, kc@.len() as int) =~= kc@);
        Action::Proxy
    }
}

} // verus!

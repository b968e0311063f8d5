//! Byte-sequence helpers shared by the request transformers: searching,
//! ASCII case folding, and the line structure of an HTTP/1.x header block.

use vstd::prelude::*;

verus! {

/// The UTF-8 bytes of a string literal.
pub open spec fn lit(s: &str) -> Seq<u8> {
    vstd::utf8::encode_utf8(s@)
}

/// CR LF.
pub open spec fn crlf() -> Seq<u8> {
    seq![13u8, 10u8]
}

/// Index of the first `b` in `s` at or after `i`.
pub open spec fn spec_find_byte(s: Seq<u8>, b: u8, i: int) -> Option<int>
    decreases s.len() - i,
{
    if i < 0 || i >= s.len() {
        None
    } else if s[i] == b {
        Some(i)
    } else {
        spec_find_byte(s, b, i + 1)
    }
}

/// `s` holds CR LF CR LF at position `i`.
pub open spec fn crlf2_at(s: Seq<u8>, i: int) -> bool {
    &&& 0 <= i
    &&& i + 4 <= s.len()
    &&& s[i] == 13u8
    &&& s[i + 1] == 10u8
    &&& s[i + 2] == 13u8
    &&& s[i + 3] == 10u8
}

/// Index of the first CR LF CR LF in `s` at or after `i`.
pub open spec fn spec_find_crlf2(s: Seq<u8>, i: int) -> Option<int>
    decreases s.len() - i,
{
    if i < 0 || i + 4 > s.len() {
        None
    } else if crlf2_at(s, i) {
        Some(i)
    } else {
        spec_find_crlf2(s, i + 1)
    }
}

/// A line with one trailing CR removed, if it has one.
pub open spec fn spec_strip_cr(l: Seq<u8>) -> Seq<u8> {
    if l.len() > 0 && l.last() == 13u8 {
        l.drop_last()
    } else {
        l
    }
}

/// How one line of a header block is written back: the first line (the
/// request line) verbatim with CR LF, every other line as `f` says.
pub open spec fn spec_render_one(l: Seq<u8>, first: bool, f: spec_fn(Seq<u8>) -> Seq<u8>) -> Seq<u8> {
    if first {
        l + crlf()
    } else {
        f(l)
    }
}

/// The header block `s`, from byte `start` on, split at every LF into
/// lines (each stripped of a trailing CR), each line rewritten by
/// `spec_render_one` and the results joined.  `first` says whether the line
/// at `start` is the request line.
pub open spec fn spec_render_lines(s: Seq<u8>, start: int, first: bool, f: spec_fn(Seq<u8>) -> Seq<u8>) -> Seq<u8>
    decreases s.len() - start,
{
    if start < 0 || start > s.len() {
        Seq::empty()
    } else {
        match spec_find_byte(s, 10u8, start) {
            Some(j) => if start <= j < s.len() {
                spec_render_one(spec_strip_cr(s.subrange(start, j)), first, f)
                    + spec_render_lines(s, j + 1, false, f)
            } else {
                Seq::empty()
            },
            None => spec_render_one(spec_strip_cr(s.subrange(start, s.len() as int)), first, f),
        }
    }
}

/// The lines of the header block `s` from byte `start` on (split at LF,
/// trailing CR removed).
pub open spec fn spec_lines(s: Seq<u8>, start: int) -> Seq<Seq<u8>>
    decreases s.len() - start,
{
    if start < 0 || start > s.len() {
        Seq::empty()
    } else {
        match spec_find_byte(s, 10u8, start) {
            Some(j) => if start <= j < s.len() {
                seq![spec_strip_cr(s.subrange(start, j))] + spec_lines(s, j + 1)
            } else {
                Seq::empty()
            },
            None => seq![spec_strip_cr(s.subrange(start, s.len() as int))],
        }
    }
}

/// ASCII lowercase of one byte.
pub open spec fn lower_byte(b: u8) -> u8 {
    if 65 <= b <= 90 { (b + 32) as u8 } else { b }
}

/// ASCII lowercase of a byte sequence; non-letters are unchanged.
pub open spec fn spec_ascii_lower(s: Seq<u8>) -> Seq<u8> {
    Seq::new(s.len(), |i: int| lower_byte(s[i]))
}

/// Append all of `s` to `out`.
pub fn append_bytes(out: &mut Vec<u8>, s: &[u8])
    ensures
        final(out)@ == old(out)@ + s@,
{
    let ghost before = out@;
    let mut i: usize = 0;
    while i < s.len()
        invariant
            i <= s@.len(),
            out@ == before + s@.subrange(0, i as int),
        decreases s@.len() - i,
    {
        out.push(s[i]);
        i = i + 1;
        assert(s@.subrange(0, i as int) == s@.subrange(0, i - 1).push(s@[i - 1]));
    }
    assert(s@.subrange(0, s@.len() as int) == s@);
}

/// Append CR LF to `out`.
pub fn push_crlf(out: &mut Vec<u8>)
    ensures
        final(out)@ == old(out)@ + crlf(),
{
    out.push(13);
    out.push(10);
    assert(out@ =~= old(out)@ + crlf());
}

/// A fresh vector holding `s`.
pub fn to_vec(s: &[u8]) -> (r: Vec<u8>)
    ensures
        r@ == s@,
{
    let mut r: Vec<u8> = Vec::new();
    append_bytes(&mut r, s);
    r
}

/// Byte-wise equality.
pub fn bytes_eq(a: &[u8], b: &[u8]) -> (r: bool)
    ensures
        r == (a@ == b@),
{
    if a.len() != b.len() {
        return false;
    }
    let mut i: usize = 0;
    while i < a.len()
        invariant
            a@.len() == b@.len(),
            i <= a@.len(),
            forall|k: int| 0 <= k < i ==> a@[k] == b@[k],
        decreases a@.len() - i,
    {
        if a[i] != b[i] {
            return false;
        }
        i = i + 1;
    }
    assert(a@ =~= b@);
    true
}

/// The first index of `b` in `s` at or after `from`.
pub fn find_byte(s: &[u8], b: u8, from: usize) -> (r: Option<usize>)
    ensures
        r matches Some(j) ==> from <= j < s@.len() && s@[j as int] == b,
        spec_find_byte(s@, b, from as int) == match r {
            Some(j) => Some(j as int),
            None => None::<int>,
        },
{
    let mut i = from;
    while i < s.len()
        invariant
            from <= i,
            spec_find_byte(s@, b, from as int) == spec_find_byte(s@, b, i as int),
        decreases s@.len() - i,
    {
        if s[i] == b {
            return Some(i);
        }
        i = i + 1;
    }
    None
}

/// Position of the first CR LF CR LF in `s`.
pub fn find_crlf2(s: &[u8]) -> (r: Option<usize>)
    ensures
        r matches Some(p) ==> crlf2_at(s@, p as int),
        spec_find_crlf2(s@, 0) == match r {
            Some(p) => Some(p as int),
            None => None::<int>,
        },
{
    let mut i: usize = 0;
    while i < s.len() && s.len() - i >= 4
        invariant
            spec_find_crlf2(s@, 0) == spec_find_crlf2(s@, i as int),
        decreases s@.len() - i,
    {
        if s[i] == 13 && s[i + 1] == 10 && s[i + 2] == 13 && s[i + 3] == 10 {
            return Some(i);
        }
        i = i + 1;
    }
    None
}

/// `l` without one trailing CR.
pub fn strip_cr(l: &[u8]) -> (r: &[u8])
    ensures
        r@ == spec_strip_cr(l@),
{
    if l.len() > 0 && l[l.len() - 1] == 13 {
        &l[0..l.len() - 1]
    } else {
        l
    }
}

/// ASCII lowercase copy of `s`.
pub fn ascii_lower(s: &[u8]) -> (r: Vec<u8>)
    ensures
        r@ == spec_ascii_lower(s@),
{
    let mut r: Vec<u8> = Vec::new();
    let mut i: usize = 0;
    while i < s.len()
        invariant
            i <= s@.len(),
            r@ == spec_ascii_lower(s@).subrange(0, i as int),
        decreases s@.len() - i,
    {
        let b = s[i];
        let l: u8 = if 65 <= b && b <= 90 { b + 32 } else { b };
        r.push(l);
        i = i + 1;
        assert(r@ =~= spec_ascii_lower(s@).subrange(0, i as int));
    }
    assert(r@ =~= spec_ascii_lower(s@));
    r
}

/// Unfolding `spec_render_lines` at a line that ends in LF at `j`.
pub proof fn lemma_render_step(s: Seq<u8>, start: int, j: int, first: bool, f: spec_fn(Seq<u8>) -> Seq<u8>)
    requires
        0 <= start <= j < s.len(),
        spec_find_byte(s, 10u8, start) == Some(j),
    ensures
        spec_render_lines(s, start, first, f) == spec_render_one(spec_strip_cr(s.subrange(start, j)), first, f)
            + spec_render_lines(s, j + 1, false, f),
{
}

/// Unfolding `spec_render_lines` at the last line.
pub proof fn lemma_render_last(s: Seq<u8>, start: int, first: bool, f: spec_fn(Seq<u8>) -> Seq<u8>)
    requires
        0 <= start <= s.len(),
        spec_find_byte(s, 10u8, start) == None::<int>,
    ensures
        spec_render_lines(s, start, first, f) == spec_render_one(spec_strip_cr(s.subrange(start, s.len() as int)), first, f),
{
}

/// Rendering a header block is rendering each of its lines and joining
/// the results: the first line as the request line, the others through `f`.
pub proof fn lemma_render_is_per_line(s: Seq<u8>, start: int, first: bool, f: spec_fn(Seq<u8>) -> Seq<u8>)
    requires
        0 <= start <= s.len(),
    ensures
        spec_lines(s, start).len() >= 1,
        spec_render_lines(s, start, first, f) == spec_render_one(spec_lines(s, start)[0], first, f)
            + spec_join_rest(spec_lines(s, start).drop_first(), f),
    decreases s.len() - start,
{
    lemma_find_byte_range(s, 10u8, start);
    match spec_find_byte(s, 10u8, start) {
        Some(j) => {
            lemma_render_is_per_line(s, j + 1, false, f);
            let rest = spec_lines(s, j + 1);
            assert(spec_lines(s, start).drop_first() =~= rest);
            lemma_join_rest_unfold(rest, f);
        },
        None => {
            assert(spec_lines(s, start).drop_first() =~= Seq::<Seq<u8>>::empty());
        },
    }
}

/// A rendered header block starts with the request line and CR LF.
pub proof fn lemma_render_starts_with_request_line(s: Seq<u8>, f: spec_fn(Seq<u8>) -> Seq<u8>)
    ensures
        spec_lines(s, 0).len() >= 1,
        spec_render_lines(s, 0, true, f).len() >= spec_lines(s, 0)[0].len() + 2,
        spec_render_lines(s, 0, true, f).subrange(0, spec_lines(s, 0)[0].len() + 2int)
            == spec_lines(s, 0)[0] + crlf(),
{
    lemma_render_is_per_line(s, 0, true, f);
    let first = spec_lines(s, 0)[0];
    let r = spec_render_lines(s, 0, true, f);
    assert(r.subrange(0, first.len() + 2int) =~= first + crlf());
}

/// The lines `ls`, each rewritten by `f`, joined.
pub open spec fn spec_join_rest(ls: Seq<Seq<u8>>, f: spec_fn(Seq<u8>) -> Seq<u8>) -> Seq<u8>
    decreases ls.len(),
{
    if ls.len() == 0 {
        Seq::empty()
    } else {
        f(ls[0]) + spec_join_rest(ls.drop_first(), f)
    }
}

proof fn lemma_join_rest_unfold(ls: Seq<Seq<u8>>, f: spec_fn(Seq<u8>) -> Seq<u8>)
    requires
        ls.len() >= 1,
    ensures
        f(ls[0]) + spec_join_rest(ls.drop_first(), f) == spec_join_rest(ls, f),
{
}

/// A found CR LF CR LF lies in range, at or after the starting point.
pub proof fn lemma_find_crlf2_range(s: Seq<u8>, i: int)
    ensures
        spec_find_crlf2(s, i) matches Some(j) ==> i <= j && crlf2_at(s, j),
    decreases s.len() - i,
{
    if 0 <= i && i + 4 <= s.len() && !crlf2_at(s, i) {
        lemma_find_crlf2_range(s, i + 1);
    }
}

/// Each line followed by CR LF.
pub open spec fn line_crlf_fn() -> spec_fn(Seq<u8>) -> Seq<u8> {
    |l: Seq<u8>| l + crlf()
}

/// `s` holds no LF byte.
pub open spec fn no_lf(s: Seq<u8>) -> bool {
    forall|i: int| 0 <= i < s.len() ==> s[i] != 10u8
}

/// `s` ends with a CR.
pub open spec fn ends_with_cr(s: Seq<u8>) -> bool {
    s.len() > 0 && s.last() == 13u8
}

/// Every line is non-empty and holds no LF.
pub open spec fn plain_lines(cs: Seq<Seq<u8>>) -> bool {
    forall|i: int| 0 <= i < cs.len() ==> (#[trigger] cs[i]).len() > 0 && no_lf(cs[i])
}

/// Every LF in `s` comes right after a CR: its lines end in CR LF.
pub open spec fn crlf_separated(s: Seq<u8>) -> bool {
    forall|j: int| 0 <= j < s.len() && #[trigger] s[j] == 10u8 ==> j >= 1 && s[j - 1] == 13u8
}

/// Nothing between `i` and the found byte is that byte.
pub proof fn lemma_find_byte_first(s: Seq<u8>, b: u8, i: int)
    requires
        0 <= i,
    ensures
        match spec_find_byte(s, b, i) {
            Some(j) => forall|k: int| i <= k < j ==> s[k] != b,
            None => forall|k: int| i <= k < s.len() ==> s[k] != b,
        },
    decreases s.len() - i,
{
    if i < s.len() && s[i] != b {
        lemma_find_byte_first(s, b, i + 1);
    }
}

/// Searching past bytes that are not `b` finds what searching after them finds.
pub proof fn lemma_find_byte_skip(s: Seq<u8>, b: u8, i: int, m: int)
    requires
        0 <= i <= m <= s.len(),
        forall|k: int| i <= k < m ==> s[k] != b,
    ensures
        spec_find_byte(s, b, i) == spec_find_byte(s, b, m),
    decreases m - i,
{
    if i < m {
        lemma_find_byte_skip(s, b, i + 1, m);
    }
}

/// Searching in `a + b` from inside `b` is searching in `b`, shifted.
pub proof fn lemma_find_byte_shift(a: Seq<u8>, b: Seq<u8>, x: u8, k: int)
    requires
        0 <= k,
    ensures
        spec_find_byte(a + b, x, a.len() + k) == match spec_find_byte(b, x, k) {
            Some(j) => Some(j + a.len()),
            None => None::<int>,
        },
    decreases b.len() - k,
{
    if k < b.len() {
        assert((a + b)[a.len() + k] == b[k]);
        if b[k] != x {
            lemma_find_byte_shift(a, b, x, k + 1);
        }
    }
}

/// The lines of `a + b` from inside `b` are the lines of `b`.
pub proof fn lemma_lines_shift(a: Seq<u8>, b: Seq<u8>, k: int)
    requires
        0 <= k <= b.len(),
    ensures
        spec_lines(a + b, a.len() + k) == spec_lines(b, k),
    decreases b.len() - k,
{
    lemma_find_byte_shift(a, b, 10u8, k);
    lemma_find_byte_range(b, 10u8, k);
    match spec_find_byte(b, 10u8, k) {
        Some(j) => {
            assert((a + b).subrange(a.len() + k, a.len() + j) =~= b.subrange(k, j));
            lemma_lines_shift(a, b, j + 1);
        },
        None => {
            assert((a + b).subrange(a.len() + k, (a + b).len() as int) =~= b.subrange(k, b.len() as int));
        },
    }
}

/// Searching past positions that hold no CR LF CR LF.
pub proof fn lemma_find_crlf2_skip(s: Seq<u8>, i: int, m: int)
    requires
        0 <= i <= m,
        forall|k: int| i <= k < m ==> !crlf2_at(s, k),
    ensures
        spec_find_crlf2(s, i) == spec_find_crlf2(s, m),
    decreases m - i,
{
    if i < m && i + 4 <= s.len() {
        lemma_find_crlf2_skip(s, i + 1, m);
    }
}

/// Searching for CR LF CR LF in `a + b` from inside `b` is searching in `b`.
pub proof fn lemma_find_crlf2_shift(a: Seq<u8>, b: Seq<u8>, k: int)
    requires
        0 <= k,
    ensures
        spec_find_crlf2(a + b, a.len() + k) == match spec_find_crlf2(b, k) {
            Some(j) => Some(j + a.len()),
            None => None::<int>,
        },
    decreases b.len() - k,
{
    if k + 4 <= b.len() {
        let s = a + b;
        let i = a.len() + k;
        assert(s[i] == b[k]);
        assert(s[i + 1] == b[k + 1]);
        assert(s[i + 2] == b[k + 2]);
        assert(s[i + 3] == b[k + 3]);
        if !crlf2_at(b, k) {
            lemma_find_crlf2_shift(a, b, k + 1);
        }
    }
}

/// The lines of a block whose lines end in CR LF, each followed by CR LF,
/// give back the block followed by CR LF.
pub proof fn lemma_lines_rejoin(h: Seq<u8>, k: int)
    requires
        crlf_separated(h),
        !ends_with_cr(h),
        0 <= k <= h.len(),
        k == 0 || h[k - 1] == 10u8,
    ensures
        spec_join_rest(spec_lines(h, k), line_crlf_fn()) == h.subrange(k, h.len() as int) + crlf(),
    decreases h.len() - k,
{
    let f = line_crlf_fn();
    lemma_find_byte_range(h, 10u8, k);
    let ls = spec_lines(h, k);
    match spec_find_byte(h, 10u8, k) {
        Some(j) => {
            assert(j >= 1 && h[j - 1] == 13u8);
            assert(j > k);
            let seg = h.subrange(k, j);
            let line = spec_strip_cr(seg);
            assert(line =~= h.subrange(k, j - 1));
            lemma_lines_rejoin(h, j + 1);
            assert(ls == seq![line] + spec_lines(h, j + 1));
            assert(ls[0] == line);
            assert(ls.drop_first() =~= spec_lines(h, j + 1));
            assert(spec_join_rest(ls, f) == f(ls[0]) + spec_join_rest(ls.drop_first(), f));
            assert(f(line) == line + crlf());
            assert(line + crlf() =~= h.subrange(k, j + 1));
            assert(h.subrange(k, j + 1) + (h.subrange(j + 1, h.len() as int) + crlf())
                =~= h.subrange(k, h.len() as int) + crlf());
        },
        None => {
            let seg = h.subrange(k, h.len() as int);
            assert(spec_strip_cr(seg) == seg);
            assert(ls == seq![seg]);
            assert(ls.drop_first() =~= Seq::<Seq<u8>>::empty());
            assert(spec_join_rest(ls, f) == f(ls[0]) + spec_join_rest(ls.drop_first(), f));
            assert(f(seg) == seg + crlf());
            assert(spec_join_rest(ls, f) =~= seg + crlf());
        },
    }
}

/// Lines joined with CR LF, then a blank line: the first CR LF CR LF is
/// where the last line's CR LF meets the blank line.
pub proof fn lemma_join_find_blank(cs: Seq<Seq<u8>>, b: Seq<u8>)
    requires
        cs.len() >= 1,
        plain_lines(cs),
    ensures
        spec_join_rest(cs, line_crlf_fn()).len() >= 2,
        spec_find_crlf2(spec_join_rest(cs, line_crlf_fn()) + crlf() + b, 0)
            == Some(spec_join_rest(cs, line_crlf_fn()).len() - 2),
    decreases cs.len(),
{
    let f = line_crlf_fn();
    let c0 = cs[0];
    let n = c0.len() as int;
    let rest = cs.drop_first();
    let p = c0 + crlf();
    let j = spec_join_rest(cs, f);
    let j2 = spec_join_rest(rest, f);
    assert(j == p + j2);
    let s = j + crlf() + b;
    assert(c0.len() > 0 && no_lf(c0));
    assert forall|k: int| 0 <= k < n implies !crlf2_at(s, k) by {
        if k + 1 < n {
            assert(s[k + 1] == c0[k + 1]);
        } else {
            assert(s[k + 1] == 13u8);
        }
    }
    lemma_find_crlf2_skip(s, 0, n);
    if rest.len() == 0 {
        assert(j2 =~= Seq::<u8>::empty());
        assert(s[n] == 13u8);
        assert(s[n + 1] == 10u8);
        assert(s[n + 2] == 13u8);
        assert(s[n + 3] == 10u8);
    } else {
        assert(plain_lines(rest)) by {
            assert forall|i: int| 0 <= i < rest.len() implies (#[trigger] rest[i]).len() > 0 && no_lf(rest[i]) by {
                assert(rest[i] == cs[i + 1]);
            }
        }
        lemma_join_find_blank(rest, b);
        let s2 = j2 + crlf() + b;
        assert(s =~= p + s2);
        let c1 = rest[0];
        assert(c1.len() > 0 && no_lf(c1));
        assert(j2 == (c1 + crlf()) + spec_join_rest(rest.drop_first(), f));
        assert(!crlf2_at(s, n)) by {
            assert(s[n + 3] == s2[1]);
            if c1.len() >= 2 {
                assert(s2[1] == c1[1]);
            } else {
                assert(s2[1] == 13u8);
            }
        }
        assert(!crlf2_at(s, n + 1)) by {
            assert(s[n + 1] == 10u8);
        }
        lemma_find_crlf2_skip(s, n, p.len() as int);
        lemma_find_crlf2_shift(p, s2, 0);
    }
}

/// Lines joined with CR LF, without the last CR LF, split back into the
/// same lines.
pub proof fn lemma_join_lines(cs: Seq<Seq<u8>>)
    requires
        cs.len() >= 1,
        plain_lines(cs),
        !ends_with_cr(cs.last()),
    ensures
        spec_join_rest(cs, line_crlf_fn()).len() >= 2,
        spec_lines(spec_join_rest(cs, line_crlf_fn()).subrange(0, spec_join_rest(cs, line_crlf_fn()).len() - 2), 0)
            == cs,
    decreases cs.len(),
{
    let f = line_crlf_fn();
    let c0 = cs[0];
    let n = c0.len() as int;
    let rest = cs.drop_first();
    let p = c0 + crlf();
    let j = spec_join_rest(cs, f);
    let j2 = spec_join_rest(rest, f);
    assert(j == p + j2);
    assert(c0.len() > 0 && no_lf(c0));
    if rest.len() == 0 {
        assert(j2 =~= Seq::<u8>::empty());
        let x = j.subrange(0, j.len() - 2);
        assert(x =~= c0);
        lemma_find_byte_skip(c0, 10u8, 0, n);
        assert(c0.subrange(0, n) =~= c0);
        assert(spec_lines(c0, 0) =~= cs);
    } else {
        assert(plain_lines(rest)) by {
            assert forall|i: int| 0 <= i < rest.len() implies (#[trigger] rest[i]).len() > 0 && no_lf(rest[i]) by {
                assert(rest[i] == cs[i + 1]);
            }
        }
        assert(rest.last() == cs.last());
        lemma_join_lines(rest);
        let x2 = j2.subrange(0, j2.len() - 2);
        let x = j.subrange(0, j.len() - 2);
        assert(x =~= p + x2);
        assert forall|k: int| 0 <= k < n + 1 implies x[k] != 10u8 by {
            if k < n {
                assert(x[k] == c0[k]);
            }
        }
        lemma_find_byte_skip(x, 10u8, 0, n + 1);
        assert(x[n + 1] == 10u8);
        assert(spec_find_byte(x, 10u8, 0) == Some(n + 1));
        assert(x.subrange(0, n + 1) =~= c0.push(13u8));
        assert(spec_strip_cr(c0.push(13u8)) =~= c0);
        lemma_lines_shift(p, x2, 0);
        assert(spec_lines(x, 0) == seq![c0] + spec_lines(x2, 0));
        assert(seq![c0] + rest =~= cs);
    }
}

/// No line of a block holds an LF.
pub proof fn lemma_lines_no_lf(s: Seq<u8>, k: int)
    requires
        0 <= k <= s.len(),
    ensures
        forall|i: int| 0 <= i < spec_lines(s, k).len() ==> no_lf(#[trigger] spec_lines(s, k)[i]),
    decreases s.len() - k,
{
    lemma_find_byte_range(s, 10u8, k);
    lemma_find_byte_first(s, 10u8, k);
    let ls = spec_lines(s, k);
    match spec_find_byte(s, 10u8, k) {
        Some(j) => {
            let line = spec_strip_cr(s.subrange(k, j));
            assert(no_lf(line)) by {
                assert forall|t: int| 0 <= t < line.len() implies line[t] != 10u8 by {
                    assert(line[t] == s[k + t]);
                }
            }
            lemma_lines_no_lf(s, j + 1);
            assert forall|i: int| 0 <= i < ls.len() implies no_lf(#[trigger] ls[i]) by {
                if i > 0 {
                    assert(ls[i] == spec_lines(s, j + 1)[i - 1]);
                }
            }
        },
        None => {
            let line = spec_strip_cr(s.subrange(k, s.len() as int));
            assert(no_lf(line)) by {
                assert forall|t: int| 0 <= t < line.len() implies line[t] != 10u8 by {
                    assert(line[t] == s[k + t]);
                }
            }
            assert(ls == seq![line]);
        },
    }
}

/// Joining lines that `f` writes as the line and CR LF is joining them
/// with CR LF.
pub proof fn lemma_join_fixed(ls: Seq<Seq<u8>>, f: spec_fn(Seq<u8>) -> Seq<u8>)
    requires
        forall|i: int| 0 <= i < ls.len() ==> f(#[trigger] ls[i]) == ls[i] + crlf(),
    ensures
        spec_join_rest(ls, f) == spec_join_rest(ls, line_crlf_fn()),
    decreases ls.len(),
{
    if ls.len() > 0 {
        let rest = ls.drop_first();
        assert forall|i: int| 0 <= i < rest.len() implies f(#[trigger] rest[i]) == rest[i] + crlf() by {
            assert(rest[i] == ls[i + 1]);
        }
        lemma_join_fixed(rest, f);
        assert(f(ls[0]) == ls[0] + crlf());
        assert(line_crlf_fn()(ls[0]) == ls[0] + crlf());
    }
}

/// A found byte lies in range, at or after the starting point.
pub proof fn lemma_find_byte_range(s: Seq<u8>, b: u8, i: int)
    ensures
        spec_find_byte(s, b, i) matches Some(j) ==> 0 <= i <= j < s.len() && s[j] == b,
    decreases s.len() - i,
{
    if 0 <= i < s.len() && s[i] != b {
        lemma_find_byte_range(s, b, i + 1);
    }
}

} // verus!

//! Character-level helpers: Unicode whitespace, trimming, case mapping and
//! the few string operations the rule parser and the request parsers need.

use vstd::prelude::*;

verus! {

/// The Unicode `White_Space` property, which is what `char::is_whitespace`
/// tests.
pub open spec fn is_ws(c: char) -> bool {
    ||| ('\u{9}' <= c <= '\u{d}')
    ||| c == ' '
    ||| c == '\u{85}'
    ||| c == '\u{a0}'
    ||| c == '\u{1680}'
    ||| ('\u{2000}' <= c <= '\u{200a}')
    ||| c == '\u{2028}'
    ||| c == '\u{2029}'
    ||| c == '\u{202f}'
    ||| c == '\u{205f}'
    ||| c == '\u{3000}'
}

/// `s` without its leading whitespace.
pub open spec fn spec_trim_start(s: Seq<char>) -> Seq<char>
    decreases s.len(),
{
    if s.len() > 0 && is_ws(s[0]) {
        spec_trim_start(s.drop_first())
    } else {
        s
    }
}

/// `s` without its trailing whitespace.
pub open spec fn spec_trim_end(s: Seq<char>) -> Seq<char>
    decreases s.len(),
{
    if s.len() > 0 && is_ws(s.last()) {
        spec_trim_end(s.drop_last())
    } else {
        s
    }
}

/// `s` without leading and trailing whitespace.
pub open spec fn spec_trim(s: Seq<char>) -> Seq<char> {
    spec_trim_end(spec_trim_start(s))
}

/// Index of the first `c` in `s` at or after `i`.
pub open spec fn spec_find_char(s: Seq<char>, c: char, i: int) -> Option<int>
    decreases s.len() - i,
{
    if i < 0 || i >= s.len() {
        None
    } else if s[i] == c {
        Some(i)
    } else {
        spec_find_char(s, c, i + 1)
    }
}

/// Index of the first whitespace character in `s` at or after `i`.
pub open spec fn spec_find_ws(s: Seq<char>, i: int) -> Option<int>
    decreases s.len() - i,
{
    if i < 0 || i >= s.len() {
        None
    } else if is_ws(s[i]) {
        Some(i)
    } else {
        spec_find_ws(s, i + 1)
    }
}

/// The first index at or after `i` that is not whitespace (or the end).
pub open spec fn spec_skip_ws(s: Seq<char>, i: int) -> int
    decreases s.len() - i,
{
    if 0 <= i < s.len() && is_ws(s[i]) { spec_skip_ws(s, i + 1) } else { i }
}

/// The first index at or after `i` that is whitespace (or the end).
pub open spec fn spec_skip_word(s: Seq<char>, i: int) -> int
    decreases s.len() - i,
{
    if 0 <= i < s.len() && !is_ws(s[i]) { spec_skip_word(s, i + 1) } else { i }
}

/// The whitespace-separated words of `s` from index `i` on, as
/// `str::split_whitespace` yields them.
pub open spec fn spec_words(s: Seq<char>, i: int) -> Seq<Seq<char>>
    decreases s.len() - i,
{
    let j = spec_skip_ws(s, i);
    let k = spec_skip_word(s, j);
    if 0 <= i <= j < k <= s.len() {
        seq![s.subrange(j, k)] + spec_words(s, k)
    } else {
        Seq::empty()
    }
}

/// The text before the first LF (all of `s` if it has none).
pub open spec fn spec_first_line(s: Seq<char>) -> Seq<char> {
    match spec_find_char(s, '\n', 0) {
        Some(j) => s.subrange(0, j),
        None => s,
    }
}

/// The Unicode lowercase mapping that `str::to_lowercase` applies.
pub uninterp spec fn spec_to_lowercase(s: Seq<char>) -> Seq<char>;

/// The Unicode uppercase mapping that `str::to_uppercase` applies.
pub uninterp spec fn spec_to_uppercase(s: Seq<char>) -> Seq<char>;

/// ASCII lowercase of one character; other characters are unchanged.
pub open spec fn ascii_lower_char(c: char) -> char {
    if 'A' <= c <= 'Z' { ((c as u32) + 32) as char } else { c }
}

/// ASCII uppercase of one character; other characters are unchanged.
pub open spec fn ascii_upper_char(c: char) -> char {
    if 'a' <= c <= 'z' { ((c as u32) - 32) as char } else { c }
}

/// std's `str::to_lowercase`: the result is named, not described; it
/// depends on the string alone.  For ASCII text, whose Unicode lowercase
/// mapping is the ASCII one, the result is stated.
#[verifier::external_body]
pub(crate) fn to_lowercase(s: &str) -> (r: String)
    ensures
        r@ == spec_to_lowercase(s@),
        vstd::utf8::is_ascii_chars(s@) ==> r@ == s@.map_values(|c: char| ascii_lower_char(c)),
{
    s.to_lowercase()
}

/// std's `str::to_uppercase`: the result is named, not described; it
/// depends on the string alone.  For ASCII text, whose Unicode uppercase
/// mapping is the ASCII one, the result is stated.
#[verifier::external_body]
pub(crate) fn to_uppercase(s: &str) -> (r: String)
    ensures
        r@ == spec_to_uppercase(s@),
        vstd::utf8::is_ascii_chars(s@) ==> r@ == s@.map_values(|c: char| ascii_upper_char(c)),
{
    s.to_uppercase()
}

/// std's `String::push`: appends one character.
#[verifier::external_body]
pub(crate) fn push_char(s: &mut String, c: char)
    ensures
        final(s)@ == old(s)@.push(c),
{
    s.push(c)
}

/// std's `String::from_utf8`: `Some` exactly when the bytes are valid
/// UTF-8, and then the string decodes them.
#[verifier::external_body]
pub(crate) fn string_from_utf8(v: Vec<u8>) -> (r: Option<String>)
    ensures
        r is Some <==> vstd::utf8::valid_utf8(v@),
        r matches Some(s) ==> s@ == vstd::utf8::decode_utf8(v@),
{
    String::from_utf8(v).ok()
}

/// std's `str::from_utf8`: `Some` exactly when the bytes are valid UTF-8,
/// and then the string decodes them.
#[verifier::external_body]
pub(crate) fn str_from_utf8(v: &[u8]) -> (r: Option<&str>)
    ensures
        r is Some <==> vstd::utf8::valid_utf8(v@),
        r matches Some(s) ==> s@ == vstd::utf8::decode_utf8(v@),
{
    std::str::from_utf8(v).ok()
}

/// Every byte is ASCII.
pub open spec fn is_ascii_bytes(b: Seq<u8>) -> bool {
    forall|i: int| 0 <= i < b.len() ==> #[trigger] b[i] < 128
}

/// ASCII bytes are valid UTF-8.
pub proof fn lemma_ascii_valid_utf8(b: Seq<u8>)
    requires
        is_ascii_bytes(b),
    ensures
        vstd::utf8::valid_utf8(b),
{
    vstd::utf8::partial_valid_utf8_extend_ascii_block(b, 0, b.len() as int);
    assert(b.subrange(0, 0) =~= Seq::<u8>::empty());
    assert(b.subrange(0, b.len() as int) =~= b);
}

/// The string whose UTF-8 encoding is `v`.
pub fn string_from_valid_utf8(v: Vec<u8>) -> (r: String)
    requires
        vstd::utf8::valid_utf8(v@),
    ensures
        vstd::utf8::encode_utf8(r@) == v@,
{
    let ghost b = v@;
    match string_from_utf8(v) {
        Some(s) => {
            proof { vstd::utf8::decode_utf8_encode_utf8(b); }
            s
        },
        None => String::new(),
    }
}

/// `char::is_whitespace`.
pub fn is_whitespace(c: char) -> (r: bool)
    ensures
        r == is_ws(c),
{
    ('\u{9}' <= c && c <= '\u{d}') || c == ' ' || c == '\u{85}' || c == '\u{a0}' || c == '\u{1680}'
        || ('\u{2000}' <= c && c <= '\u{200a}') || c == '\u{2028}' || c == '\u{2029}' || c == '\u{202f}'
        || c == '\u{205f}' || c == '\u{3000}'
}

/// The characters of `s`, in order.
pub fn chars_of(s: &str) -> (r: Vec<char>)
    ensures
        r@ == s@,
{
    let mut v: Vec<char> = Vec::new();
    for c in it: s.chars()
        invariant
            v@ == it.seq().take(it.index()),
    {
        v.push(c);
    }
    v
}

/// A string holding the characters `cs[lo..hi]`.
pub fn string_of(cs: &[char], lo: usize, hi: usize) -> (r: String)
    requires
        lo <= hi <= cs@.len(),
    ensures
        r@ == cs@.subrange(lo as int, hi as int),
{
    let mut s = String::new();
    let mut i = lo;
    while i < hi
        invariant
            lo <= i <= hi,
            hi <= cs@.len(),
            s@ == cs@.subrange(lo as int, i as int),
        decreases hi - i,
    {
        push_char(&mut s, cs[i]);
        i = i + 1;
        assert(s@ =~= cs@.subrange(lo as int, i as int));
    }
    s
}

/// Character-wise equality of `a[lo..hi]` and `b`.
pub fn chars_eq(a: &[char], lo: usize, hi: usize, b: &[char]) -> (r: bool)
    requires
        lo <= hi <= a@.len(),
    ensures
        r == (a@.subrange(lo as int, hi as int) == b@),
{
    if hi - lo != b.len() {
        return false;
    }
    let mut i: usize = 0;
    while i < b.len()
        invariant
            hi - lo == b@.len(),
            lo <= hi <= a@.len(),
            i <= b@.len(),
            forall|k: int| 0 <= k < i ==> a@[lo + k] == b@[k],
        decreases b@.len() - i,
    {
        if a[lo + i] != b[i] {
            return false;
        }
        i = i + 1;
    }
    assert(a@.subrange(lo as int, hi as int) =~= b@);
    true
}

/// String equality by characters.
pub fn str_is(a: &str, b: &str) -> (r: bool)
    ensures
        r == (a@ == b@),
{
    let ac = chars_of(a);
    let bc = chars_of(b);
    let r = chars_eq(ac.as_slice(), 0, ac.len(), bc.as_slice());
    assert(ac@.subrange(0, ac@.len() as int) =~= ac@);
    r
}

/// The first `c` in `cs` at or after `from`.
pub fn find_char(cs: &[char], c: char, from: usize) -> (r: Option<usize>)
    ensures
        r matches Some(j) ==> from <= j < cs@.len() && cs@[j as int] == c,
        spec_find_char(cs@, c, from as int) == match r {
            Some(j) => Some(j as int),
            None => None::<int>,
        },
{
    let mut i = from;
    while i < cs.len()
        invariant
            from <= i,
            spec_find_char(cs@, c, from as int) == spec_find_char(cs@, c, i as int),
        decreases cs@.len() - i,
    {
        if cs[i] == c {
            return Some(i);
        }
        i = i + 1;
    }
    None
}

/// The first whitespace character in `cs[from..hi]`, or `hi`.
pub fn find_ws(cs: &[char], from: usize, hi: usize) -> (r: usize)
    requires
        from <= hi <= cs@.len(),
    ensures
        from <= r <= hi,
        forall|i: int| from <= i < r ==> !is_ws(#[trigger] cs@[i]),
        r < hi ==> is_ws(cs@[r as int]),
{
    let mut i = from;
    while i < hi
        invariant
            from <= i <= hi,
            hi <= cs@.len(),
            forall|k: int| from <= k < i ==> !is_ws(#[trigger] cs@[k]),
        decreases hi - i,
    {
        if is_whitespace(cs[i]) {
            return i;
        }
        i = i + 1;
    }
    i
}

/// `spec_find_ws` from `i` finds `r` when nothing before `r` is whitespace
/// and `r` is (or finds nothing when nothing in the rest is).
pub proof fn lemma_find_ws_is(s: Seq<char>, i: int, r: int)
    requires
        0 <= i <= r <= s.len(),
        forall|k: int| i <= k < r ==> !is_ws(#[trigger] s[k]),
        r < s.len() ==> is_ws(s[r]),
    ensures
        spec_find_ws(s, i) == if r < s.len() { Some(r) } else { None::<int> },
    decreases r - i,
{
    if i < r {
        lemma_find_ws_is(s, i + 1, r);
    }
}

/// The first non-whitespace index in `cs[i..hi]`, or `hi`.
pub fn skip_ws(cs: &[char], i: usize, hi: usize) -> (r: usize)
    requires
        i <= hi <= cs@.len(),
    ensures
        i <= r <= hi,
        r == spec_skip_ws(cs@.subrange(0, hi as int), i as int),
{
    let ghost s = cs@.subrange(0, hi as int);
    let mut j = i;
    while j < hi && is_whitespace(cs[j])
        invariant
            i <= j <= hi,
            hi <= cs@.len(),
            s == cs@.subrange(0, hi as int),
            spec_skip_ws(s, i as int) == spec_skip_ws(s, j as int),
        decreases hi - j,
    {
        j = j + 1;
    }
    j
}

/// The first whitespace index in `cs[i..hi]`, or `hi`.
pub fn skip_word(cs: &[char], i: usize, hi: usize) -> (r: usize)
    requires
        i <= hi <= cs@.len(),
    ensures
        i <= r <= hi,
        r == spec_skip_word(cs@.subrange(0, hi as int), i as int),
{
    let ghost s = cs@.subrange(0, hi as int);
    let mut j = i;
    while j < hi && !is_whitespace(cs[j])
        invariant
            i <= j <= hi,
            hi <= cs@.len(),
            s == cs@.subrange(0, hi as int),
            spec_skip_word(s, i as int) == spec_skip_word(s, j as int),
        decreases hi - j,
    {
        j = j + 1;
    }
    j
}

/// The bounds of the next word of `cs[..hi]` at or after `i`, if any.
pub fn next_word(cs: &[char], i: usize, hi: usize) -> (r: Option<(usize, usize)>)
    requires
        i <= hi <= cs@.len(),
    ensures
        match r {
            Some((j, k)) => i <= j < k <= hi && spec_words(cs@.subrange(0, hi as int), i as int)
                == seq![cs@.subrange(j as int, k as int)] + spec_words(cs@.subrange(0, hi as int), k as int),
            None => spec_words(cs@.subrange(0, hi as int), i as int) == Seq::<Seq<char>>::empty(),
        },
{
    let ghost s = cs@.subrange(0, hi as int);
    let j = skip_ws(cs, i, hi);
    let k = skip_word(cs, j, hi);
    if j < k {
        assert(s.subrange(j as int, k as int) =~= cs@.subrange(j as int, k as int));
        Some((j, k))
    } else {
        None
    }
}

/// The bounds of `cs[lo..hi]` with surrounding whitespace removed.
pub fn trim_bounds(cs: &[char], lo: usize, hi: usize) -> (r: (usize, usize))
    requires
        lo <= hi <= cs@.len(),
    ensures
        lo <= r.0 <= r.1 <= hi,
        cs@.subrange(r.0 as int, r.1 as int) == spec_trim(cs@.subrange(lo as int, hi as int)),
{
    let mut a = lo;
    while a < hi && is_whitespace(cs[a])
        invariant
            lo <= a <= hi,
            hi <= cs@.len(),
            spec_trim_start(cs@.subrange(lo as int, hi as int)) == spec_trim_start(cs@.subrange(a as int, hi as int)),
        decreases hi - a,
    {
        assert(cs@.subrange(a as int, hi as int).drop_first() =~= cs@.subrange(a + 1, hi as int));
        a = a + 1;
    }
    assert(spec_trim_start(cs@.subrange(a as int, hi as int)) == cs@.subrange(a as int, hi as int));
    let mut b = hi;
    while b > a && is_whitespace(cs[b - 1])
        invariant
            lo <= a <= b <= hi,
            hi <= cs@.len(),
            spec_trim_end(cs@.subrange(a as int, hi as int)) == spec_trim_end(cs@.subrange(a as int, b as int)),
        decreases b - a,
    {
        assert(cs@.subrange(a as int, b as int).drop_last() =~= cs@.subrange(a as int, b - 1));
        b = b - 1;
    }
    (a, b)
}

/// Searching from `start` in `s` is searching from 0 in the suffix of `s`
/// that begins at `start`, shifted by `start`.
pub proof fn lemma_find_char_shift(s: Seq<char>, c: char, start: int, i: int)
    requires
        0 <= start <= i,
        start <= s.len(),
    ensures
        spec_find_char(s, c, i) == match spec_find_char(s.subrange(start, s.len() as int), c, i - start) {
            Some(j) => Some(j + start),
            None => None::<int>,
        },
    decreases s.len() - i,
{
    if i < s.len() {
        assert(s.subrange(start, s.len() as int)[i - start] == s[i]);
        lemma_find_char_shift(s, c, start, i + 1);
    }
}

/// A found character lies in range, at or after the starting point.
pub proof fn lemma_find_char_range(s: Seq<char>, c: char, i: int)
    ensures
        spec_find_char(s, c, i) matches Some(j) ==> 0 <= i <= j < s.len() && s[j] == c,
    decreases s.len() - i,
{
    if 0 <= i < s.len() && s[i] != c {
        lemma_find_char_range(s, c, i + 1);
    }
}

} // verus!

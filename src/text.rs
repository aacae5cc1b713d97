//! Character-level scanning over text: collecting a string's characters,
//! finding the identity marker, finding the end of a line and trimming
//! whitespace.
use vstd::prelude::*;

verus! {

/// The marker that introduces an identity, in sidecars and in documents.
pub open spec fn marker() -> Seq<char> {
    seq!['g', 'u', 'i', 'd', ':', ' ']
}

/// Whether `c` is whitespace in Unicode's sense (the `White_Space`
/// property): tab through carriage return, space, next line, no-break space,
/// ogham space mark, the spaces from en quad through hair space, line and
/// paragraph separators, narrow no-break space, medium mathematical space and
/// ideographic space.
pub open spec fn is_space(c: char) -> bool {
    ('\t' <= c && c <= '\r') || c == ' ' || c == '\u{85}' || c == '\u{A0}' || c == '\u{1680}'
        || ('\u{2000}' <= c && c <= '\u{200A}') || c == '\u{2028}' || c == '\u{2029}' || c
        == '\u{202F}' || c == '\u{205F}' || c == '\u{3000}'
}

/// Whether the marker starts at position `i` of `t`.
pub open spec fn marker_at(t: Seq<char>, i: int) -> bool {
    0 <= i && i + marker().len() <= t.len() && t.subrange(i, i + marker().len()) == marker()
}

/// The first position at or after `i` where the marker starts.
pub open spec fn find_marker(t: Seq<char>, i: int) -> Option<int>
    decreases t.len() - i,
{
    if i < 0 || i >= t.len() {
        None
    } else if marker_at(t, i) {
        Some(i)
    } else {
        find_marker(t, i + 1)
    }
}

/// The position of the first line feed at or after `i`, or the length of `t`.
pub open spec fn line_end(t: Seq<char>, i: int) -> int
    decreases t.len() - i,
{
    if i < 0 || i >= t.len() {
        t.len() as int
    } else if t[i] == '\n' {
        i
    } else {
        line_end(t, i + 1)
    }
}

/// The first position at or after `i` that does not hold whitespace.
pub open spec fn skip_space(t: Seq<char>, i: int) -> int
    decreases t.len() - i,
{
    if 0 <= i < t.len() && is_space(t[i]) {
        skip_space(t, i + 1)
    } else {
        i
    }
}

/// The end of `t.subrange(lo, j)` once trailing whitespace is dropped.
pub open spec fn drop_space_back(t: Seq<char>, lo: int, j: int) -> int
    decreases j - lo,
{
    if lo < j && 0 < j <= t.len() && is_space(t[j - 1]) {
        drop_space_back(t, lo, j - 1)
    } else {
        j
    }
}

/// `t` without its leading and trailing whitespace.
pub open spec fn trim(t: Seq<char>) -> Seq<char> {
    let a = skip_space(t, 0);
    t.subrange(a, drop_space_back(t, a, t.len() as int))
}

/// The characters of `s`, in order.
pub fn chars_of(s: &str) -> (r: Vec<char>)
    ensures
        r@ == s@,
{
    let mut r: Vec<char> = Vec::new();
    for c in it: s.chars()
        invariant
            r@ == it.seq().take(it.index() as int),
    {
        r.push(c);
    }
    r
}

/// Whether `c` is whitespace in Unicode's sense.
pub fn is_space_char(c: char) -> (r: bool)
    ensures
        r == is_space(c),
{
    ('\t' <= c && c <= '\r') || c == ' ' || c == '\u{85}' || c == '\u{A0}' || c == '\u{1680}'
        || ('\u{2000}' <= c && c <= '\u{200A}') || c == '\u{2028}' || c == '\u{2029}' || c
        == '\u{202F}' || c == '\u{205F}' || c == '\u{3000}'
}

/// Whether the marker starts at position `i` of `t`.
pub fn has_marker_at(t: &Vec<char>, i: usize) -> (r: bool)
    ensures
        r == marker_at(t@, i as int),
{
    if i > t.len() || t.len() - i < 6 {
        return false;
    }
    let r = t[i] == 'g' && t[i + 1] == 'u' && t[i + 2] == 'i' && t[i + 3] == 'd' && t[i + 4]
        == ':' && t[i + 5] == ' ';
    proof {
        let w = t@.subrange(i as int, i + 6);
        if r {
            assert(w =~= marker());
        } else if w == marker() {
            assert(w[0] == 'g' && w[1] == 'u' && w[2] == 'i' && w[3] == 'd');
            assert(w[4] == ':' && w[5] == ' ');
        }
    }
    r
}

/// The first position at or after `from` where the marker starts.
pub fn next_marker(t: &Vec<char>, from: usize) -> (r: Option<usize>)
    ensures
        match r {
            Some(p) => find_marker(t@, from as int) == Some(p as int) && marker_at(t@, p as int),
            None => find_marker(t@, from as int) is None,
        },
{
    let mut i = from;
    while i < t.len()
        invariant
            from <= i,
            find_marker(t@, i as int) == find_marker(t@, from as int),
        decreases t.len() - i,
    {
        if has_marker_at(t, i) {
            return Some(i);
        }
        i = i + 1;
    }
    None
}

/// The position of the first line feed at or after `from`, or the length of `t`.
pub fn next_line_end(t: &Vec<char>, from: usize) -> (r: usize)
    requires
        from <= t.len(),
    ensures
        r == line_end(t@, from as int),
        from <= r <= t.len(),
{
    let mut i = from;
    while i < t.len() && t[i] != '\n'
        invariant
            from <= i <= t.len(),
            line_end(t@, i as int) == line_end(t@, from as int),
        decreases t.len() - i,
    {
        i = i + 1;
    }
    i
}

/// The bounds of `t.subrange(lo, hi)` once leading and trailing whitespace
/// are dropped.
pub fn trimmed_bounds(t: &Vec<char>, lo: usize, hi: usize) -> (r: (usize, usize))
    requires
        lo <= hi <= t.len(),
    ensures
        lo <= r.0 <= r.1 <= hi,
        t@.subrange(r.0 as int, r.1 as int) == trim(t@.subrange(lo as int, hi as int)),
{
    let ghost s = t@.subrange(lo as int, hi as int);
    let mut a = lo;
    while a < hi && is_space_char(t[a])
        invariant
            lo <= a <= hi <= t.len(),
            s == t@.subrange(lo as int, hi as int),
            skip_space(s, a - lo) == skip_space(s, 0),
        decreases hi - a,
    {
        a = a + 1;
    }
    let mut b = hi;
    while b > a && is_space_char(t[b - 1])
        invariant
            lo <= a <= b <= hi <= t.len(),
            s == t@.subrange(lo as int, hi as int),
            skip_space(s, 0) == a - lo,
            drop_space_back(s, a - lo, b - lo) == drop_space_back(s, a - lo, hi - lo),
        decreases b - a,
    {
        b = b - 1;
    }
    assert(t@.subrange(a as int, b as int) =~= s.subrange(a - lo, b - lo));
    (a, b)
}

} // verus!

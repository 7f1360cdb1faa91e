//! Character sequences: the searches and trims the record format is built on.
//!
//! Every function here speaks of a text as its sequence of characters, so a
//! position is a count of characters, never of bytes.

use vstd::prelude::*;

verus! {

/// Whether `c` is white space as Unicode defines it (the White_Space property).
pub open spec fn is_whitespace(c: char) -> bool {
    ||| '\u{9}' <= c <= '\u{d}'
    ||| c == ' '
    ||| c == '\u{85}'
    ||| c == '\u{a0}'
    ||| c == '\u{1680}'
    ||| '\u{2000}' <= c <= '\u{200a}'
    ||| c == '\u{2028}'
    ||| c == '\u{2029}'
    ||| c == '\u{202f}'
    ||| c == '\u{205f}'
    ||| c == '\u{3000}'
}

/// The sets of characters that are cut away from the ends of a text.
#[derive(Clone, Copy, Debug)]
pub enum Strip {
    /// White space.
    Whitespace,
    /// The key/value separator and the blank.
    Separators,
    /// The double quote.
    Quotes,
}

impl Strip {
    /// Whether `c` belongs to the set.
    pub open spec fn takes(self, c: char) -> bool {
        match self {
            Strip::Whitespace => is_whitespace(c),
            Strip::Separators => c == ':' || c == ' ',
            Strip::Quotes => c == '"',
        }
    }

    /// Tests whether `c` belongs to the set.
    pub fn has(&self, c: char) -> (b: bool)
        ensures
            b == self.takes(c),
    {
        match self {
            Strip::Whitespace => {
                ('\u{9}' <= c && c <= '\u{d}') || c == ' ' || c == '\u{85}' || c == '\u{a0}' || c
                    == '\u{1680}' || ('\u{2000}' <= c && c <= '\u{200a}') || c == '\u{2028}' || c
                    == '\u{2029}' || c == '\u{202f}' || c == '\u{205f}' || c == '\u{3000}'
            },
            Strip::Separators => c == ':' || c == ' ',
            Strip::Quotes => c == '"',
        }
    }
}

/// `i` is the place of the first `c` in `s`.
pub open spec fn is_first(s: Seq<char>, c: char, i: int) -> bool {
    &&& 0 <= i < s.len()
    &&& s[i] == c
    &&& forall|j: int| 0 <= j < i ==> s[j] != c
}

/// The place of the first `c` in `s`, if `s` holds one.
pub open spec fn find(s: Seq<char>, c: char) -> Option<int> {
    if exists|i: int| is_first(s, c, i) {
        Some(choose|i: int| is_first(s, c, i))
    } else {
        None
    }
}

/// `pattern` stands in `s` from place `i` on.
pub open spec fn occurs_at(s: Seq<char>, pattern: Seq<char>, i: int) -> bool {
    &&& 0 <= i
    &&& i + pattern.len() <= s.len()
    &&& s.subrange(i, i + pattern.len()) == pattern
}

/// Whether `pattern` stands somewhere in `s`.
pub open spec fn contains(s: Seq<char>, pattern: Seq<char>) -> bool {
    exists|i: int| occurs_at(s, pattern, i)
}

/// Whether the last character of `s` is `c`.
pub open spec fn ends_with(s: Seq<char>, c: char) -> bool {
    s.len() > 0 && s.last() == c
}

/// The first `n` characters of `s` are all in `strip`, and no more than `n` are.
pub open spec fn is_leading(s: Seq<char>, strip: Strip, n: int) -> bool {
    &&& 0 <= n <= s.len()
    &&& forall|j: int| 0 <= j < n ==> strip.takes(#[trigger] s[j])
    &&& n < s.len() ==> !strip.takes(s[n])
}

/// The last `n` characters of `s` are all in `strip`, and no more than `n` are.
pub open spec fn is_trailing(s: Seq<char>, strip: Strip, n: int) -> bool {
    &&& 0 <= n <= s.len()
    &&& forall|j: int| s.len() - n <= j < s.len() ==> strip.takes(#[trigger] s[j])
    &&& n < s.len() ==> !strip.takes(s[s.len() - 1 - n])
}

/// How many characters at the start of `s` are in `strip`.
pub open spec fn leading(s: Seq<char>, strip: Strip) -> int {
    choose|n: int| is_leading(s, strip, n)
}

/// How many characters at the end of `s` are in `strip`.
pub open spec fn trailing(s: Seq<char>, strip: Strip) -> int {
    choose|n: int| is_trailing(s, strip, n)
}

/// Where `s` starts and ends once the characters of `strip` are cut from
/// its two ends. Of a text made of such characters alone nothing is left,
/// and both bounds are its length.
pub open spec fn trim_bounds(s: Seq<char>, strip: Strip) -> (int, int) {
    if leading(s, strip) == s.len() {
        (s.len() as int, s.len() as int)
    } else {
        (leading(s, strip), s.len() - trailing(s, strip))
    }
}

/// `s` without the characters of `strip` at its two ends.
pub open spec fn trimmed(s: Seq<char>, strip: Strip) -> Seq<char> {
    s.subrange(trim_bounds(s, strip).0, trim_bounds(s, strip).1)
}

/// A place that passes `is_first` is the one that `find` gives.
pub proof fn lemma_find_is(s: Seq<char>, c: char, i: int)
    requires
        is_first(s, c, i),
    ensures
        find(s, c) == Some(i),
{
}

/// A count that passes `is_leading` is the one that `leading` gives.
pub proof fn lemma_leading_is(s: Seq<char>, strip: Strip, n: int)
    requires
        is_leading(s, strip, n),
    ensures
        leading(s, strip) == n,
{
}

/// A count that passes `is_trailing` is the one that `trailing` gives.
pub proof fn lemma_trailing_is(s: Seq<char>, strip: Strip, n: int)
    requires
        is_trailing(s, strip, n),
    ensures
        trailing(s, strip) == n,
{
}

/// A text that neither starts nor ends with a character of `strip` is
/// left as it is.
pub proof fn lemma_trimmed_clean(s: Seq<char>, strip: Strip)
    requires
        s.len() > 0 ==> !strip.takes(s[0]) && !strip.takes(s.last()),
    ensures
        trimmed(s, strip) == s,
{
    lemma_leading_is(s, strip, 0);
    lemma_trailing_is(s, strip, 0);
}

/// Cutting `strip` from `left + s + right` gives `s`, where `left` and
/// `right` are made of characters of `strip` and `s`, not empty, neither
/// starts nor ends with one.
pub proof fn lemma_trimmed_padded(left: Seq<char>, s: Seq<char>, right: Seq<char>, strip: Strip)
    requires
        forall|j: int| 0 <= j < left.len() ==> strip.takes(#[trigger] left[j]),
        forall|j: int| 0 <= j < right.len() ==> strip.takes(#[trigger] right[j]),
        s.len() > 0,
        !strip.takes(s[0]),
        !strip.takes(s.last()),
    ensures
        trimmed(left + s + right, strip) == s,
{
    let whole = left + s + right;
    lemma_leading_is(whole, strip, left.len() as int);
    lemma_trailing_is(whole, strip, right.len() as int);
}

/// The characters of `s`, in order.
pub fn chars_of(s: &str) -> (v: Vec<char>)
    ensures
        v@ == s@,
{
    let mut v: Vec<char> = Vec::new();
    for c in it: s.chars()
        invariant
            v@ == it.seq().take(it.index() as int),
    {
        v.push(c);
    }
    v
}

/// Finds the first `c` among the characters of `v`.
pub fn find_char(v: &Vec<char>, c: char) -> (r: Option<usize>)
    ensures
        r is Some <==> find(v@, c) is Some,
        r matches Some(i) ==> find(v@, c) == Some(i as int),
{
    let mut i: usize = 0;
    while i < v.len()
        invariant
            i <= v.len(),
            forall|j: int| 0 <= j < i ==> v@[j] != c,
        decreases v.len() - i,
    {
        if v[i] == c {
            proof {
                lemma_find_is(v@, c, i as int);
            }
            return Some(i);
        }
        i += 1;
    }
    None
}

/// Tests whether the characters of `pattern` stand somewhere in `v`.
pub fn holds(v: &Vec<char>, pattern: &Vec<char>) -> (b: bool)
    ensures
        b == contains(v@, pattern@),
{
    if pattern.len() > v.len() {
        return false;
    }
    let last: usize = v.len() - pattern.len();
    let mut i: usize = 0;
    while i <= last
        invariant
            last == v.len() - pattern.len(),
            i <= last + 1,
            forall|k: int| 0 <= k < i ==> !occurs_at(v@, pattern@, k),
        decreases last + 1 - i,
    {
        let mut j: usize = 0;
        while j < pattern.len() && v[i + j] == pattern[j]
            invariant
                i <= last,
                last == v.len() - pattern.len(),
                j <= pattern.len(),
                forall|k: int| 0 <= k < j ==> v@[i + k] == pattern@[k],
            decreases pattern.len() - j,
        {
            j += 1;
        }
        if j == pattern.len() {
            assert(v@.subrange(i as int, i + pattern@.len()) =~= pattern@);
            assert(occurs_at(v@, pattern@, i as int));
            return true;
        }
        i += 1;
    }
    false
}

/// Cuts `strip` from the two ends of the characters of `v` that stand from
/// `from` up to `to`, and gives the bounds of what is left.
pub fn trim_range(v: &Vec<char>, from: usize, to: usize, strip: Strip) -> (r: (usize, usize))
    requires
        from <= to <= v.len(),
    ensures
        from <= r.0 <= r.1 <= to,
        (r.0 - from, r.1 - from) == trim_bounds(v@.subrange(from as int, to as int), strip),
        v@.subrange(r.0 as int, r.1 as int) == trimmed(v@.subrange(from as int, to as int), strip),
{
    let ghost s = v@.subrange(from as int, to as int);
    let mut a: usize = from;
    while a < to && strip.has(v[a])
        invariant
            from <= a <= to <= v.len(),
            s == v@.subrange(from as int, to as int),
            forall|j: int| 0 <= j < a - from ==> strip.takes(#[trigger] s[j]),
        decreases to - a,
    {
        a += 1;
    }
    proof {
        lemma_leading_is(s, strip, a - from);
    }
    if a == to {
        return (a, a);
    }
    let mut b: usize = to;
    while b > a && strip.has(v[b - 1])
        invariant
            from <= a < b <= to <= v.len(),
            s == v@.subrange(from as int, to as int),
            !strip.takes(s[a - from]),
            forall|j: int| b - from <= j < s.len() ==> strip.takes(#[trigger] s[j]),
        decreases b - a,
    {
        b -= 1;
    }
    proof {
        lemma_trailing_is(s, strip, to - b);
    }
    (a, b)
}

/// Tests whether two runs of characters are the same.
pub fn same_chars(a: &Vec<char>, b: &Vec<char>) -> (r: bool)
    ensures
        r == (a@ == b@),
{
    if a.len() != b.len() {
        return false;
    }
    let mut i: usize = 0;
    while i < a.len()
        invariant
            a.len() == b.len(),
            i <= a.len(),
            forall|j: int| 0 <= j < i ==> a@[j] == b@[j],
        decreases a.len() - i,
    {
        if a[i] != b[i] {
            return false;
        }
        i += 1;
    }
    assert(a@ =~= b@);
    true
}

} // verus!

//! Character-level text utilities: classes of characters, trimming, searching,
//! decimal digits, and conversion between `&str`, `Vec<char>` and `String`.
//!
//! Text is modelled as `Seq<char>` (the view of `&str` and `String`); positions
//! are character positions.
use vstd::prelude::*;

verus! {

/// `String::push` appends one character to the end of the string.
pub assume_specification[ String::push ](s: &mut String, ch: char)
    ensures
        final(s)@ == old(s)@.push(ch),
;

/// A set of characters that trimming and scanning work with.
#[derive(Clone, Copy, PartialEq, Eq, Debug)]
pub enum CharClass {
    /// Exactly one character.
    Exactly(char),
    /// The characters with the Unicode `White_Space` property (`char::is_whitespace`).
    WhiteSpace,
    /// `0` to `9`.
    AsciiDigit,
    /// `0` to `9` and `,`.
    DigitOrComma,
}

/// Unicode `White_Space`, the set that `char::is_whitespace` and `str::trim` use.
pub open spec fn is_white_space(c: char) -> bool {
    ||| '\u{9}' <= c <= '\u{d}'
    ||| c == ' '
    ||| c == '\u{85}'
    ||| c == '\u{a0}'
    ||| c == '\u{1680}'
    ||| '\u{2000}' <= c <= '\u{200a}'
    ||| c == '\u{2028}'
    ||| c == '\u{2029}'
    ||| c == '\u{202f}'
    ||| c == '\u{205f}'
    ||| c == '\u{3000}'
}

pub open spec fn is_ascii_digit(c: char) -> bool {
    '0' <= c <= '9'
}

pub open spec fn in_class(cls: CharClass, c: char) -> bool {
    match cls {
        CharClass::Exactly(x) => c == x,
        CharClass::WhiteSpace => is_white_space(c),
        CharClass::AsciiDigit => is_ascii_digit(c),
        CharClass::DigitOrComma => is_ascii_digit(c) || c == ',',
    }
}

/// Whether `c` belongs to `cls`.
pub fn class_contains(cls: CharClass, c: char) -> (b: bool)
    ensures
        b == in_class(cls, c),
{
    match cls {
        CharClass::Exactly(x) => c == x,
        CharClass::WhiteSpace => {
            ('\u{9}' <= c && c <= '\u{d}') || c == ' ' || c == '\u{85}' || c == '\u{a0}'
                || c == '\u{1680}' || ('\u{2000}' <= c && c <= '\u{200a}') || c == '\u{2028}'
                || c == '\u{2029}' || c == '\u{202f}' || c == '\u{205f}' || c == '\u{3000}'
        },
        CharClass::AsciiDigit => '0' <= c && c <= '9',
        CharClass::DigitOrComma => ('0' <= c && c <= '9') || c == ',',
    }
}

/// `n` is the length of the longest prefix of `s` made of characters of `cls`.
pub open spec fn is_leading_run(s: Seq<char>, cls: CharClass, n: int) -> bool {
    &&& 0 <= n <= s.len()
    &&& forall|j: int| 0 <= j < n ==> in_class(cls, #[trigger] s[j])
    &&& n < s.len() ==> !in_class(cls, s[n])
}

/// `n` is the length of the longest suffix of `s` made of characters of `cls`.
pub open spec fn is_trailing_run(s: Seq<char>, cls: CharClass, n: int) -> bool {
    &&& 0 <= n <= s.len()
    &&& forall|j: int| s.len() - n <= j < s.len() ==> in_class(cls, #[trigger] s[j])
    &&& n < s.len() ==> !in_class(cls, s[s.len() - n - 1])
}

pub open spec fn leading_run(s: Seq<char>, cls: CharClass) -> int {
    choose|n: int| is_leading_run(s, cls, n)
}

pub open spec fn trailing_run(s: Seq<char>, cls: CharClass) -> int {
    choose|n: int| is_trailing_run(s, cls, n)
}

/// `str::trim_start_matches` for a class of characters.
pub open spec fn trim_start_class(s: Seq<char>, cls: CharClass) -> Seq<char> {
    s.subrange(leading_run(s, cls), s.len() as int)
}

/// `str::trim_end_matches` for a class of characters.
pub open spec fn trim_end_class(s: Seq<char>, cls: CharClass) -> Seq<char> {
    s.subrange(0, s.len() - trailing_run(s, cls))
}

/// `str::trim`: white space removed at both ends.
pub open spec fn trim(s: Seq<char>) -> Seq<char> {
    trim_end_class(trim_start_class(s, CharClass::WhiteSpace), CharClass::WhiteSpace)
}

pub proof fn lemma_leading_run_unique(s: Seq<char>, cls: CharClass, n: int)
    requires
        is_leading_run(s, cls, n),
    ensures
        leading_run(s, cls) == n,
{
    let m = leading_run(s, cls);
    assert(is_leading_run(s, cls, m));
    if m < n {
        assert(in_class(cls, s[m]));
    }
    if n < m {
        assert(in_class(cls, s[n]));
    }
}

pub proof fn lemma_trailing_run_unique(s: Seq<char>, cls: CharClass, n: int)
    requires
        is_trailing_run(s, cls, n),
    ensures
        trailing_run(s, cls) == n,
{
    let m = trailing_run(s, cls);
    assert(is_trailing_run(s, cls, m));
    if m < n {
        assert(in_class(cls, s[s.len() - m - 1]));
    }
    if n < m {
        assert(in_class(cls, s[s.len() - n - 1]));
    }
}

proof fn lemma_leading_run_from(s: Seq<char>, cls: CharClass, i: int)
    requires
        0 <= i <= s.len(),
        forall|j: int| 0 <= j < i ==> in_class(cls, #[trigger] s[j]),
    ensures
        is_leading_run(s, cls, leading_run(s, cls)),
    decreases s.len() - i,
{
    if i == s.len() || !in_class(cls, s[i]) {
        lemma_leading_run_unique(s, cls, i);
    } else {
        lemma_leading_run_from(s, cls, i + 1);
    }
}

/// Every text has a longest prefix made of characters of `cls`.
pub proof fn lemma_leading_run(s: Seq<char>, cls: CharClass)
    ensures
        is_leading_run(s, cls, leading_run(s, cls)),
{
    lemma_leading_run_from(s, cls, 0);
}

proof fn lemma_trailing_run_from(s: Seq<char>, cls: CharClass, i: int)
    requires
        0 <= i <= s.len(),
        forall|j: int| s.len() - i <= j < s.len() ==> in_class(cls, #[trigger] s[j]),
    ensures
        is_trailing_run(s, cls, trailing_run(s, cls)),
    decreases s.len() - i,
{
    if i == s.len() || !in_class(cls, s[s.len() - i - 1]) {
        lemma_trailing_run_unique(s, cls, i);
    } else {
        lemma_trailing_run_from(s, cls, i + 1);
    }
}

/// Every text has a longest suffix made of characters of `cls`.
pub proof fn lemma_trailing_run(s: Seq<char>, cls: CharClass)
    ensures
        is_trailing_run(s, cls, trailing_run(s, cls)),
{
    lemma_trailing_run_from(s, cls, 0);
}

/// Removing white space at the end of `pre + t`, where `pre` ends with a
/// character that is not white space, removes it at the end of `t` only.
pub proof fn lemma_trim_end_after(pre: Seq<char>, t: Seq<char>)
    requires
        pre.len() >= 1,
        !is_white_space(pre.last()),
    ensures
        trim_end_class(pre + t, CharClass::WhiteSpace) == pre + trim_end_class(
            t,
            CharClass::WhiteSpace,
        ),
{
    let x = pre + t;
    let r = trailing_run(t, CharClass::WhiteSpace);
    lemma_trailing_run(t, CharClass::WhiteSpace);
    assert forall|j: int| x.len() - r <= j < x.len() implies in_class(
        CharClass::WhiteSpace,
        #[trigger] x[j],
    ) by {
        assert(x[j] == t[j - pre.len()]);
    }
    if r < t.len() {
        assert(x[x.len() - r - 1] == t[t.len() - r - 1]);
    } else {
        assert(x[x.len() - r - 1] == pre.last());
    }
    lemma_trailing_run_unique(x, CharClass::WhiteSpace, r);
    assert(x.subrange(0, x.len() - r) =~= pre + t.subrange(0, t.len() - r));
}

pub proof fn lemma_trim_empty()
    ensures
        trim(Seq::<char>::empty()) == Seq::<char>::empty(),
{
    let e = Seq::<char>::empty();
    lemma_leading_run_unique(e, CharClass::WhiteSpace, 0);
    assert(trim_start_class(e, CharClass::WhiteSpace) =~= e);
    lemma_trailing_run_unique(e, CharClass::WhiteSpace, 0);
    assert(trim(e) =~= e);
}

/// Trimming after removing trailing white space is trimming.
pub proof fn lemma_trim_of_trim_end(t: Seq<char>)
    ensures
        trim(trim_end_class(t, CharClass::WhiteSpace)) == trim(t),
{
    let ws = CharClass::WhiteSpace;
    let n = t.len() as int;
    let a = leading_run(t, ws);
    let r = trailing_run(t, ws);
    lemma_leading_run(t, ws);
    lemma_trailing_run(t, ws);
    let te = trim_end_class(t, ws);
    if a == n {
        lemma_trailing_run_unique(t, ws, n);
        assert(te =~= Seq::<char>::empty());
        lemma_trim_empty();
        let ts = trim_start_class(t, ws);
        assert(ts =~= Seq::<char>::empty());
        lemma_trailing_run_unique(ts, ws, 0);
        assert(trim(t) =~= Seq::<char>::empty());
    } else {
        assert(!in_class(ws, t[a]));
        if r > n - a - 1 {
            assert(in_class(ws, t[a]));
        }
        assert(te =~= t.subrange(0, n - r));
        assert forall|j: int| 0 <= j < a implies in_class(ws, #[trigger] te[j]) by {
            assert(te[j] == t[j]);
        }
        assert(te[a] == t[a]);
        lemma_leading_run_unique(te, ws, a);
        let s1 = trim_start_class(te, ws);
        assert(s1 =~= t.subrange(a, n - r));
        assert(s1[s1.len() - 1] == t[n - r - 1]);
        lemma_trailing_run_unique(s1, ws, 0);
        assert(trim(te) =~= t.subrange(a, n - r));
        let s2 = trim_start_class(t, ws);
        assert(s2 =~= t.subrange(a, n));
        assert forall|j: int| s2.len() - r <= j < s2.len() implies in_class(ws, #[trigger] s2[j]) by {
            assert(s2[j] == t[j + a]);
        }
        assert(s2[s2.len() - r - 1] == t[n - r - 1]);
        lemma_trailing_run_unique(s2, ws, r);
        assert(trim(t) =~= t.subrange(a, n - r));
    }
}

/// The position after the characters of `cls` that start `s[lo..hi]`.
pub fn skip_leading(s: &Vec<char>, lo: usize, hi: usize, cls: CharClass) -> (r: usize)
    requires
        lo <= hi <= s@.len(),
    ensures
        lo <= r <= hi,
        r - lo == leading_run(s@.subrange(lo as int, hi as int), cls),
{
    let ghost sub = s@.subrange(lo as int, hi as int);
    let mut i = lo;
    while i < hi && class_contains(cls, s[i])
        invariant
            lo <= i <= hi <= s@.len(),
            sub == s@.subrange(lo as int, hi as int),
            forall|j: int| 0 <= j < i - lo ==> in_class(cls, #[trigger] sub[j]),
        decreases hi - i,
    {
        i = i + 1;
    }
    proof {
        lemma_leading_run_unique(sub, cls, i - lo);
    }
    i
}

/// The position before the characters of `cls` that end `s[lo..hi]`.
pub fn skip_trailing(s: &Vec<char>, lo: usize, hi: usize, cls: CharClass) -> (r: usize)
    requires
        lo <= hi <= s@.len(),
    ensures
        lo <= r <= hi,
        hi - r == trailing_run(s@.subrange(lo as int, hi as int), cls),
{
    let ghost sub = s@.subrange(lo as int, hi as int);
    let mut i = hi;
    while i > lo && class_contains(cls, s[i - 1])
        invariant
            lo <= i <= hi <= s@.len(),
            sub == s@.subrange(lo as int, hi as int),
            forall|j: int| i - lo <= j < sub.len() ==> in_class(cls, #[trigger] sub[j]),
        decreases i - lo,
    {
        i = i - 1;
    }
    proof {
        lemma_trailing_run_unique(sub, cls, (hi - i) as int);
    }
    i
}

/// The bounds of `trim(s[lo..hi])`.
pub fn trim_range(s: &Vec<char>, lo: usize, hi: usize) -> (r: (usize, usize))
    requires
        lo <= hi <= s@.len(),
    ensures
        lo <= r.0 <= r.1 <= hi,
        s@.subrange(r.0 as int, r.1 as int) == trim(s@.subrange(lo as int, hi as int)),
{
    let a = skip_leading(s, lo, hi, CharClass::WhiteSpace);
    let b = skip_trailing(s, a, hi, CharClass::WhiteSpace);
    proof {
        let sub = s@.subrange(lo as int, hi as int);
        assert(trim_start_class(sub, CharClass::WhiteSpace) =~= s@.subrange(a as int, hi as int));
        assert(s@.subrange(a as int, b as int) =~= trim(sub));
    }
    (a, b)
}

/// `i` is the first position of `c` in `s`.
pub open spec fn is_first_index(s: Seq<char>, c: char, i: int) -> bool {
    &&& 0 <= i < s.len()
    &&& s[i] == c
    &&& forall|j: int| 0 <= j < i ==> s[j] != c
}

/// `i` is the last position of `c` in `s`.
pub open spec fn is_last_index(s: Seq<char>, c: char, i: int) -> bool {
    &&& 0 <= i < s.len()
    &&& s[i] == c
    &&& forall|j: int| i < j < s.len() ==> s[j] != c
}

/// `str::find` for one character, by character position.
pub open spec fn find_char(s: Seq<char>, c: char) -> Option<int> {
    if exists|i: int| is_first_index(s, c, i) {
        Some(choose|i: int| is_first_index(s, c, i))
    } else {
        None
    }
}

/// `str::rfind` for one character, by character position.
pub open spec fn rfind_char(s: Seq<char>, c: char) -> Option<int> {
    if exists|i: int| is_last_index(s, c, i) {
        Some(choose|i: int| is_last_index(s, c, i))
    } else {
        None
    }
}

pub proof fn lemma_find_char_some(s: Seq<char>, c: char, i: int)
    requires
        is_first_index(s, c, i),
    ensures
        find_char(s, c) == Some(i),
{
    let k = choose|k: int| is_first_index(s, c, k);
    assert(is_first_index(s, c, k));
    if k < i {
        assert(s[k] != c);
    }
    if i < k {
        assert(s[i] != c);
    }
}

pub proof fn lemma_rfind_char_some(s: Seq<char>, c: char, i: int)
    requires
        is_last_index(s, c, i),
    ensures
        rfind_char(s, c) == Some(i),
{
    let k = choose|k: int| is_last_index(s, c, k);
    assert(is_last_index(s, c, k));
    if k < i {
        assert(s[i] != c);
    }
    if i < k {
        assert(s[k] != c);
    }
}

/// The first position of `c` in `s[lo..hi]`.
pub fn find_in(s: &Vec<char>, lo: usize, hi: usize, c: char) -> (r: Option<usize>)
    requires
        lo <= hi <= s@.len(),
    ensures
        match r {
            Some(i) => lo <= i < hi && find_char(s@.subrange(lo as int, hi as int), c) == Some(
                i - lo,
            ),
            None => find_char(s@.subrange(lo as int, hi as int), c) is None,
        },
{
    let ghost sub = s@.subrange(lo as int, hi as int);
    let mut i = lo;
    while i < hi
        invariant
            lo <= i <= hi <= s@.len(),
            sub == s@.subrange(lo as int, hi as int),
            forall|j: int| 0 <= j < i - lo ==> sub[j] != c,
        decreases hi - i,
    {
        if s[i] == c {
            proof {
                lemma_find_char_some(sub, c, i - lo);
            }
            return Some(i);
        }
        i = i + 1;
    }
    proof {
        assert(!exists|k: int| is_first_index(sub, c, k));
    }
    None
}

/// The last position of `c` in `s[lo..hi]`.
pub fn rfind_in(s: &Vec<char>, lo: usize, hi: usize, c: char) -> (r: Option<usize>)
    requires
        lo <= hi <= s@.len(),
    ensures
        match r {
            Some(i) => lo <= i < hi && rfind_char(s@.subrange(lo as int, hi as int), c) == Some(
                i - lo,
            ),
            None => rfind_char(s@.subrange(lo as int, hi as int), c) is None,
        },
{
    let ghost sub = s@.subrange(lo as int, hi as int);
    let mut i = hi;
    while i > lo
        invariant
            lo <= i <= hi <= s@.len(),
            sub == s@.subrange(lo as int, hi as int),
            forall|j: int| i - lo <= j < sub.len() ==> sub[j] != c,
        decreases i - lo,
    {
        if s[i - 1] == c {
            proof {
                lemma_rfind_char_some(sub, c, i - 1 - lo);
            }
            return Some(i - 1);
        }
        i = i - 1;
    }
    proof {
        assert(!exists|k: int| is_last_index(sub, c, k));
    }
    None
}

/// The characters of `s`, in order.
pub fn chars_of(s: &str) -> (v: Vec<char>)
    ensures
        v@ == s@,
{
    let mut v: Vec<char> = Vec::new();
    for c in it: s.chars()
        invariant
            v@ == it.seq().take(it.index() as int),
    {
        v.push(c);
    }
    v
}

/// Appends `s[lo..hi]` to `out`.
pub fn push_range(out: &mut String, s: &Vec<char>, lo: usize, hi: usize)
    requires
        lo <= hi <= s@.len(),
    ensures
        final(out)@ == old(out)@ + s@.subrange(lo as int, hi as int),
{
    let mut i = lo;
    while i < hi
        invariant
            lo <= i <= hi <= s@.len(),
            out@ == old(out)@ + s@.subrange(lo as int, i as int),
        decreases hi - i,
    {
        out.push(s[i]);
        i = i + 1;
        assert(out@ =~= old(out)@ + s@.subrange(lo as int, i as int));
    }
}

/// A new string holding `s[lo..hi]`.
pub fn string_of_range(s: &Vec<char>, lo: usize, hi: usize) -> (r: String)
    requires
        lo <= hi <= s@.len(),
    ensures
        r@ == s@.subrange(lo as int, hi as int),
{
    let mut out = String::new();
    push_range(&mut out, s, lo, hi);
    assert(out@ =~= s@.subrange(lo as int, hi as int));
    out
}

} // verus!

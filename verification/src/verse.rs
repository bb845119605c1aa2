//! The verse reference that starts a verse paragraph: `3:16 text` or
//! `3:16,17 text` (chapter, a colon, a comma-separated list of verse numbers,
//! and one ASCII white-space character).
use vstd::prelude::*;
use crate::text::{
    CharClass, is_ascii_digit, in_class, leading_run, lemma_leading_run, chars_of,
    skip_leading,
};
use crate::digits::{digits_value, parse_u32_digits, parse_u32_in, decimal, law_decimal_parse_roundtrip};
use crate::text::lemma_leading_run_unique;

verus! {

/// ASCII white space: tab, line feed, vertical tab, form feed, carriage return, space.
pub open spec fn is_ascii_space(c: char) -> bool {
    c == '\t' || c == '\n' || c == '\u{b}' || c == '\u{c}' || c == '\r' || c == ' '
}

/// The pieces of `s` between commas (`str::split(',')`): an empty text has one
/// empty piece.
pub open spec fn segments(s: Seq<char>) -> Seq<Seq<char>>
    decreases s.len(),
{
    if s.len() == 0 {
        seq![Seq::empty()]
    } else {
        let prev = segments(s.drop_last());
        if s.last() == ',' {
            prev.push(Seq::empty())
        } else {
            prev.update(prev.len() - 1, prev.last().push(s.last()))
        }
    }
}

/// The values of the pieces that `str::parse::<u32>` reads, in order
/// (`filter_map(|s| s.parse().ok())`), for pieces made of ASCII digits.
pub open spec fn fitting_values(segs: Seq<Seq<char>>) -> Seq<u32>
    decreases segs.len(),
{
    if segs.len() == 0 {
        seq![]
    } else {
        let rest = fitting_values(segs.drop_last());
        match parse_u32_digits(segs.last()) {
            Some(v) => rest.push(v),
            None => rest,
        }
    }
}

/// Digits separated by single commas, with digits at both ends.
pub open spec fn is_number_list(list: Seq<char>) -> bool {
    forall|k: int| 0 <= k < segments(list).len() ==> #[trigger] segments(list)[k].len() >= 1
}

/// The verse reference at the start of `text`, as the pattern
/// `^(\d+):(\d+(?:,\d+)*)\s` reads it: the chapter number, the verse numbers that
/// fit in a `u32`, and the length of the reference (its white space included).
/// There is none when the pattern does not match, when the chapter number does
/// not fit in a `u32`, or when no verse number does.
pub open spec fn verse_start(text: Seq<char>) -> Option<(u32, Seq<u32>, int)> {
    let d = leading_run(text, CharClass::AsciiDigit);
    if 1 <= d < text.len() && text[d] == ':' {
        let rest = text.subrange(d + 1, text.len() as int);
        let list = rest.subrange(0, leading_run(rest, CharClass::DigitOrComma));
        let e = d + 1 + list.len();
        if is_number_list(list) && e < text.len() && is_ascii_space(text[e]) {
            match parse_u32_digits(text.subrange(0, d)) {
                None => None,
                Some(chapter) => {
                    let nums = fitting_values(segments(list));
                    if nums.len() == 0 {
                        None
                    } else {
                        Some((chapter, nums, e + 1))
                    }
                },
            }
        } else {
            None
        }
    } else {
        None
    }
}

pub proof fn lemma_segments_len(s: Seq<char>)
    ensures
        segments(s).len() >= 1,
    decreases s.len(),
{
    if s.len() > 0 {
        lemma_segments_len(s.drop_last());
    }
}

/// Reads the numbers of the comma-separated list `s[lo..hi]` of digits and commas;
/// `None` when the list is not digits separated by single commas.
fn number_list_in(s: &Vec<char>, lo: usize, hi: usize) -> (r: Option<Vec<u32>>)
    requires
        lo <= hi <= s@.len(),
        forall|j: int| lo <= j < hi ==> in_class(CharClass::DigitOrComma, #[trigger] s@[j]),
    ensures
        match r {
            None => !is_number_list(s@.subrange(lo as int, hi as int)),
            Some(v) => is_number_list(s@.subrange(lo as int, hi as int)) && v@ == fitting_values(
                segments(s@.subrange(lo as int, hi as int)),
            ),
        },
{
    let ghost list = s@.subrange(lo as int, hi as int);
    let mut nums: Vec<u32> = Vec::new();
    let mut cur_len: usize = 0;
    let mut cur_val: u32 = 0;
    let mut cur_big = false;
    let mut closed_ok = true;
    let mut i = lo;
    assert(list.take(0) =~= Seq::<char>::empty());
    assert(segments(list.take(0)).last() =~= Seq::<char>::empty());
    while i < hi
        invariant
            lo <= i <= hi <= s@.len(),
            list == s@.subrange(lo as int, hi as int),
            forall|j: int| lo <= j < hi ==> in_class(CharClass::DigitOrComma, #[trigger] s@[j]),
            segments(list.take(i - lo)).len() >= 1,
            cur_len == segments(list.take(i - lo)).last().len(),
            cur_len <= i - lo,
            cur_big <==> digits_value(segments(list.take(i - lo)).last()) > u32::MAX,
            !cur_big ==> cur_val == digits_value(segments(list.take(i - lo)).last()),
            nums@ == fitting_values(segments(list.take(i - lo)).drop_last()),
            closed_ok <==> forall|k: int|
                0 <= k < segments(list.take(i - lo)).len() - 1 ==> #[trigger] segments(
                    list.take(i - lo),
                )[k].len() >= 1,
        decreases hi - i,
    {
        let ghost pre = list.take(i - lo);
        let ghost segs = segments(pre);
        let ghost post = list.take(i - lo + 1);
        assert(post.drop_last() =~= pre);
        assert(post.last() == s@[i as int]);
        let c = s[i];
        if c == ',' {
            assert(segments(post) == segs.push(Seq::empty()));
            assert(segments(post).drop_last() =~= segs);
            assert(segs =~= segs.drop_last().push(segs.last()));
            if cur_len == 0 {
                closed_ok = false;
            }
            if !cur_big && cur_len > 0 {
                nums.push(cur_val);
            }
            cur_len = 0;
            cur_val = 0;
            cur_big = false;
            assert(segments(post).last() =~= Seq::<char>::empty());
            proof {
                let np = segments(post);
                assert forall|k: int| 0 <= k < segs.len() implies #[trigger] np[k] == segs[k] by {}
                if closed_ok {
                    assert forall|k: int| 0 <= k < np.len() - 1 implies #[trigger] np[k].len() >= 1 by {
                        assert(np[k] == segs[k]);
                    }
                } else {
                    if segs.last().len() == 0 {
                        assert(np[segs.len() - 1].len() == 0);
                    } else {
                        let k = choose|k: int| 0 <= k < segs.len() - 1 && !(#[trigger] segs[k].len() >= 1);
                        assert(np[k] == segs[k]);
                    }
                }
            }
        } else {
            assert(is_ascii_digit(c));
            let ghost last = segs.last();
            assert(segments(post) == segs.update(segs.len() - 1, last.push(c)));
            assert(segments(post).drop_last() =~= segs.drop_last());
            assert(last.push(c).drop_last() =~= last);
            let d = ((c as u32) - ('0' as u32)) as u64;
            if !cur_big {
                let next = (cur_val as u64) * 10 + d;
                if next > u32::MAX as u64 {
                    cur_big = true;
                } else {
                    cur_val = next as u32;
                }
            }
            cur_len = cur_len + 1;
            proof {
                let np = segments(post);
                assert forall|k: int| 0 <= k < segs.len() - 1 implies #[trigger] np[k] == segs[k] by {}
                if closed_ok {
                    assert forall|k: int| 0 <= k < np.len() - 1 implies #[trigger] np[k].len() >= 1 by {
                        assert(np[k] == segs[k]);
                    }
                } else {
                    let k = choose|k: int| 0 <= k < segs.len() - 1 && !(#[trigger] segs[k].len() >= 1);
                    assert(np[k] == segs[k]);
                }
            }
        }
        i = i + 1;
    }
    assert(list.take(hi - lo) =~= list);
    let ghost segs = segments(list);
    assert(segs =~= segs.drop_last().push(segs.last()));
    if !closed_ok || cur_len == 0 {
        proof {
            if cur_len == 0 {
                assert(segs[segs.len() - 1].len() == 0);
            } else {
                let k = choose|k: int| 0 <= k < segs.len() - 1 && #[trigger] segs[k].len() < 1;
                assert(segs[k].len() < 1);
            }
        }
        return None;
    }
    if !cur_big {
        nums.push(cur_val);
    }
    Some(nums)
}

/// `verse_start` of `s[lo..hi]`, with the reference length counted from `lo`.
pub fn verse_start_in(s: &Vec<char>, lo: usize, hi: usize) -> (r: Option<(u32, Vec<u32>, usize)>)
    requires
        lo <= hi <= s@.len(),
    ensures
        match verse_start(s@.subrange(lo as int, hi as int)) {
            None => r is None,
            Some((c, nums, off)) => r matches Some((rc, rn, ro)) && rc == c && rn@ == nums && ro
                == off && lo + ro <= hi,
        },
{
    let ghost text = s@.subrange(lo as int, hi as int);
    let d_end = skip_leading(s, lo, hi, CharClass::AsciiDigit);
    let ghost d = d_end - lo;
    proof {
        lemma_leading_run(text, CharClass::AsciiDigit);
    }
    if !(d_end > lo && d_end < hi && s[d_end] == ':') {
        return None;
    }
    let l_end = skip_leading(s, d_end + 1, hi, CharClass::DigitOrComma);
    let ghost rest = text.subrange(d + 1, text.len() as int);
    assert(rest =~= s@.subrange(d_end + 1, hi as int));
    proof {
        lemma_leading_run(rest, CharClass::DigitOrComma);
    }
    let ghost list = rest.subrange(0, leading_run(rest, CharClass::DigitOrComma));
    assert(list =~= s@.subrange(d_end + 1, l_end as int));
    assert forall|j: int| d_end + 1 <= j < l_end implies in_class(
        CharClass::DigitOrComma,
        #[trigger] s@[j],
    ) by {
        assert(s@[j] == rest[j - d_end - 1]);
    }
    let nums = match number_list_in(s, d_end + 1, l_end) {
        Some(v) => v,
        None => {
            return None;
        },
    };
    if !(l_end < hi && (s[l_end] == '\t' || s[l_end] == '\n' || s[l_end] == '\u{b}' || s[l_end]
        == '\u{c}' || s[l_end] == '\r' || s[l_end] == ' ')) {
        return None;
    }
    assert forall|j: int| lo <= j < d_end implies is_ascii_digit(#[trigger] s@[j]) by {
        assert(s@[j] == text[j - lo]);
    }
    assert(s@.subrange(lo as int, d_end as int) =~= text.subrange(0, d));
    let chapter = match parse_u32_in(s, lo, d_end) {
        Some(c) => c,
        None => {
            return None;
        },
    };
    if nums.len() == 0 {
        return None;
    }
    Some((chapter, nums, l_end + 1 - lo))
}

/// Reads the verse reference at the start of `text`; see `verse_start`. The
/// reference is ASCII, so its length is also its length in bytes.
pub fn parse_verse_start(text: &str) -> (r: Option<(u32, Vec<u32>, usize)>)
    ensures
        match verse_start(text@) {
            None => r is None,
            Some((c, nums, off)) => r matches Some((rc, rn, ro)) && rc == c && rn@ == nums && ro
                == off,
        },
{
    let s = chars_of(text);
    assert(s@.subrange(0, s@.len() as int) =~= text@);
    verse_start_in(&s, 0, s.len())
}

/// Law: a verse reference is made of ASCII characters only (digits, `:`, `,` and
/// one white-space character), so its length in characters is its length in
/// bytes; it is never longer than the text, and holds at least one verse number.
pub proof fn law_verse_reference_ascii(text: Seq<char>)
    requires
        verse_start(text) is Some,
    ensures
        ({
            let (_, nums, off) = verse_start(text).unwrap();
            &&& 4 <= off <= text.len()
            &&& nums.len() >= 1
            &&& forall|j: int| 0 <= j < off ==> (#[trigger] text[j] as u32) < 128
        }),
{
    let d = leading_run(text, CharClass::AsciiDigit);
    lemma_leading_run(text, CharClass::AsciiDigit);
    let rest = text.subrange(d + 1, text.len() as int);
    let l = leading_run(rest, CharClass::DigitOrComma);
    lemma_leading_run(rest, CharClass::DigitOrComma);
    let list = rest.subrange(0, l);
    lemma_segments_len(list);
    if l == 0 {
        assert(list =~= Seq::<char>::empty());
        assert(segments(list)[0].len() >= 1);
    }
    assert forall|j: int| 0 <= j < d + 2 + l implies (#[trigger] text[j] as u32) < 128 by {
        if j < d {
            assert(in_class(CharClass::AsciiDigit, text[j]));
        } else if d < j < d + 1 + l {
            assert(in_class(CharClass::DigitOrComma, rest[j - d - 1]));
        }
    }
}

proof fn lemma_segments_no_comma(s: Seq<char>)
    requires
        forall|j: int| 0 <= j < s.len() ==> #[trigger] s[j] != ',',
    ensures
        segments(s) == seq![s],
    decreases s.len(),
{
    if s.len() > 0 {
        let t = s.drop_last();
        assert forall|j: int| 0 <= j < t.len() implies #[trigger] t[j] != ',' by {
            assert(t[j] == s[j]);
        }
        lemma_segments_no_comma(t);
        assert(s.last() == s[s.len() - 1]);
        assert(t.push(s.last()) =~= s);
        assert(segments(s) =~= seq![s]);
    } else {
        assert(s =~= Seq::<char>::empty());
    }
}

/// Law: the reference `chapter:verse ` written in decimal, before any text,
/// reads back as that chapter and that one verse number, and the verse text
/// starts right after it.
pub proof fn law_verse_reference_roundtrip(chapter: u32, verse: u32, rest: Seq<char>)
    ensures
        ({
            let reference = decimal(chapter as nat) + seq![':'] + decimal(verse as nat) + seq![' '];
            verse_start(reference + rest) == Some((chapter, seq![verse], reference.len() as int))
        }),
{
    let d1 = decimal(chapter as nat);
    let d2 = decimal(verse as nat);
    let reference = d1 + seq![':'] + d2 + seq![' '];
    let text = reference + rest;
    law_decimal_parse_roundtrip(chapter);
    law_decimal_parse_roundtrip(verse);
    let d = d1.len() as int;
    assert(text[d] == ':');
    assert forall|j: int| 0 <= j < d implies in_class(CharClass::AsciiDigit, #[trigger] text[j]) by {
        assert(text[j] == d1[j]);
    }
    lemma_leading_run_unique(text, CharClass::AsciiDigit, d);
    let tail = text.subrange(d + 1, text.len() as int);
    assert(tail[d2.len() as int] == ' ');
    assert forall|j: int| 0 <= j < d2.len() implies in_class(
        CharClass::DigitOrComma,
        #[trigger] tail[j],
    ) by {
        assert(tail[j] == d2[j]);
    }
    lemma_leading_run_unique(tail, CharClass::DigitOrComma, d2.len() as int);
    let list = tail.subrange(0, d2.len() as int);
    assert(list =~= d2);
    assert forall|j: int| 0 <= j < d2.len() implies #[trigger] d2[j] != ',' by {}
    lemma_segments_no_comma(d2);
    assert(text.subrange(0, d) =~= d1);
    assert(seq![d2].drop_last() =~= Seq::<Seq<char>>::empty());
    assert(seq![d2].last() == d2);
    assert(fitting_values(Seq::<Seq<char>>::empty()) =~= Seq::<u32>::empty());
    assert(parse_u32_digits(d2) == Some(verse));
    assert(fitting_values(seq![d2]) =~= seq![verse]);
    assert(text[d + 1 + d2.len()] == ' ');
}

} // verus!

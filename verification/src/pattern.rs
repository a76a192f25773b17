//! The patterns for code and for placeholder tokens, searched by the `regex`
//! crate.
use vstd::prelude::*;
use vstd::string::StrSliceExecFns;
use crate::text;

verus! {

/// What counts as code and is kept from the translator. A placeholder token that
/// the text already holds is found too, so that nothing within it is.
pub const CODE_PATTERN: &'static str = r"(?x)
        __PH_\d+__                            # existing placeholder token
      | https?://\S+                          # URLs
      | [\w.+-]+@[\w-]+\.[\w.]+               # emails
      | `[^`]*`                               # inline code
      | --[\w-]+                              # CLI flags
      | \b\w+(?:::\w+)+                       # a::b paths
      | \b[\w$.]+\(\)                         # foo(), obj.method()
      | \b\w+<[\w\s,]+>                       # generics X<Y>
      | [\w.~/-]*/[\w.~/-]+                   # paths with /
      | \b[\w./-]+\.(?:rs|toml|json|js|ts|html|css|md)\b  # filenames
      | \b\w*[a-z][A-Z]\w*\b                  # camelCase / inner-capital words
      | \b[A-Z][a-z]+[A-Z]\w*\b               # PascalCase w/ inner cap
      | \b[A-Z]{2,}[A-Za-z0-9]*\b             # ALLCAPS acronyms
      | \b\w*_\w+\b                           # snake_case
      ";

/// A placeholder token, from end to end.
pub const TOKEN_PATTERN: &'static str = r"^__PH_\d+__$";

/// A placeholder token as a translator may have left it: in another case, or
/// with white space inside.
pub const MARK_PATTERN: &'static str = r"(?i)__\s*ph_\s*(\d+)\s*__";

/// Whether a character outside ASCII is a decimal digit, of the Unicode category
/// `Nd`.
pub uninterp spec fn wide_digit(c: char) -> bool;

/// Whether a character is a decimal digit, of the Unicode category `Nd`.
pub open spec fn decimal_digit(c: char) -> bool {
    if (c as u32) < 128 {
        '0' <= c <= '9'
    } else {
        wide_digit(c)
    }
}

/// Whether a text is `__PH_`, digits and `__`.
pub open spec fn token_like(s: Seq<char>) -> bool {
    &&& s.len() > 7
    &&& s.take(5) == "__PH_"@
    &&& forall|k: int| 5 <= k < s.len() - 2 ==> decimal_digit(#[trigger] s[k])
    &&& s.skip(s.len() - 2) == "__"@
}

/// Searches a text with `regex::Regex::is_match`. It tells whether the text from
/// end to end is `__PH_`, one or more decimal digits, and `__`. Only the pattern
/// for tokens is let in: `Regex::new` fails on a text that is no pattern.
#[verifier::external_body]
fn matches_token(pattern: &str, haystack: &str) -> (found: bool)
    requires
        pattern@ == TOKEN_PATTERN@,
    ensures
        found == {
            &&& haystack@.len() > 7
            &&& haystack@.take(5) == "__PH_"@
            &&& forall|k: int|
                5 <= k < haystack@.len() - 2 ==> if (haystack@[k] as u32) < 128 {
                    '0' <= #[trigger] haystack@[k] <= '9'
                } else {
                    wide_digit(haystack@[k])
                }
            &&& haystack@.skip(haystack@.len() - 2) == "__"@
        },
{
    regex::Regex::new(pattern).expect("the pattern is valid").is_match(haystack)
}

/// Tests whether a text is a placeholder token.
pub fn is_token(s: &str) -> (found: bool)
    ensures
        found == token_like(s@),
{
    matches_token(TOKEN_PATTERN, s)
}

/// How many bytes the first `i` characters of a text take in UTF-8.
pub open spec fn byte_offset(s: Seq<char>, i: int) -> int {
    vstd::utf8::encode_utf8(s.take(i)).len() as int
}

/// Whether stretches of a text follow one another without overlaps.
pub open spec fn in_order(spans: Seq<(int, int)>, len: int) -> bool {
    &&& forall|k: int|
        0 <= k < spans.len() ==> 0 <= (#[trigger] spans[k]).0 <= spans[k].1 <= len
    &&& forall|j: int, k: int|
        0 <= j < k < spans.len() ==> (#[trigger] spans[j]).1 <= (#[trigger] spans[k]).0
}

/// Without the first of some stretches, the others still follow one another.
pub proof fn lemma_in_order_rest(spans: Seq<(int, int)>, len: int)
    requires
        in_order(spans, len),
        spans.len() > 0,
    ensures
        in_order(spans.skip(1), len),
        0 <= spans[0].0 <= spans[0].1 <= len,
        spans.len() > 1 ==> spans[0].1 <= spans.skip(1)[0].0,
{
    let rest = spans.skip(1);
    assert forall|j: int, k: int| 0 <= j < k < rest.len() implies (#[trigger] rest[j]).1 <= (
    #[trigger] rest[k]).0 by {
        assert(spans[j + 1].1 <= spans[k + 1].0);
    }
    assert(spans[0].0 <= spans[0].1);
    if spans.len() > 1 {
        assert(spans[0].1 <= spans[1].0);
    }
}

/// Whether no stretch is empty.
pub open spec fn none_empty(spans: Seq<(int, int)>) -> bool {
    forall|k: int| 0 <= k < spans.len() ==> (#[trigger] spans[k]).0 < spans[k].1
}

/// Whether pairs of byte offsets stand for stretches of a text, which follow one
/// another without overlaps.
pub open spec fn offsets_of(found: Seq<(usize, usize)>, s: Seq<char>, spans: Seq<(int, int)>) -> bool {
    &&& in_order(spans, s.len() as int)
    &&& found.len() == spans.len()
    &&& forall|k: int|
        0 <= k < found.len() ==> {
            &&& (#[trigger] found[k]).0 == byte_offset(s, spans[k].0)
            &&& found[k].1 == byte_offset(s, spans[k].1)
        }
}

/// The stretches of a text that `regex::Regex::find_iter` finds for a pattern, as
/// positions of characters.
pub uninterp spec fn regex_spans(pattern: Seq<char>, haystack: Seq<char>) -> Seq<(int, int)>;

/// Searches a text with `regex::Regex::find_iter`. The matches, given by the byte
/// offsets of their starts and ends, are those that [`regex_spans`] names: they
/// stand between characters and follow one another without overlaps. None is empty,
/// for each alternative of the pattern for code takes at least one character. Only
/// that pattern is let in: `Regex::new` fails on a text that is no pattern.
#[verifier::external_body]
fn find_spans(pattern: &str, haystack: &str) -> (found: Vec<(usize, usize)>)
    requires
        pattern@ == CODE_PATTERN@,
    ensures
        offsets_of(found@, haystack@, regex_spans(pattern@, haystack@)),
        forall|k: int| 0 <= k < found@.len() ==> (#[trigger] found@[k]).0 < found@[k].1,
{
    let code = regex::Regex::new(pattern).expect("the pattern is valid");
    code.find_iter(haystack).map(|found| (found.start(), found.end())).collect()
}

proof fn lemma_byte_offset(s: Seq<char>, i: int)
    requires
        0 <= i <= s.len(),
    ensures
        vstd::utf8::is_char_boundary(vstd::utf8::encode_utf8(s), byte_offset(s, i)),
        byte_offset(s, i) <= vstd::utf8::encode_utf8(s).len(),
        vstd::utf8::encode_utf8(s).subrange(0, byte_offset(s, i)) == vstd::utf8::encode_utf8(
            s.take(i),
        ),
    decreases i,
{
    let bytes = vstd::utf8::encode_utf8(s);
    vstd::utf8::encode_utf8_valid_utf8(s);
    if i == 0 {
        assert(s.take(0) =~= Seq::empty());
        assert(bytes.subrange(0, 0) =~= vstd::utf8::encode_utf8(s.take(0)));
    } else {
        let rest = s.drop_first();
        vstd::utf8::encode_utf8_first_scalar(s);
        lemma_byte_offset(rest, i - 1);
        assert(s.take(i).drop_first() =~= rest.take(i - 1));
        assert(s.take(i)[0] == s[0]);
        assert(vstd::utf8::pop_first_scalar(bytes) =~= vstd::utf8::encode_utf8(rest));
        assert(bytes.subrange(0, byte_offset(s, i)) =~= vstd::utf8::encode_utf8(s.take(i)));
    }
}

/// The position of the character that starts at a byte offset.
fn position_at(s: &str, offset: usize, Ghost(i): Ghost<int>) -> (position: usize)
    requires
        0 <= i <= s@.len(),
        offset == byte_offset(s@, i),
    ensures
        position == i,
{
    proof {
        lemma_byte_offset(s@, i);
    }
    let (before, _) = s.split_at(offset);
    proof {
        vstd::utf8::encode_utf8_decode_utf8(before@);
        vstd::utf8::encode_utf8_decode_utf8(s@.take(i));
    }
    before.unicode_len()
}

/// What a list of stretches holds.
pub open spec fn positions(spans: Seq<(usize, usize)>) -> Seq<(int, int)> {
    Seq::new(spans.len(), |k: int| (spans[k].0 as int, spans[k].1 as int))
}

/// Finds the code in a text: the stretches to keep from the translator.
pub fn find_code(s: &str) -> (spans: Vec<(usize, usize)>)
    ensures
        positions(spans@) == regex_spans(CODE_PATTERN@, s@),
        in_order(positions(spans@), s@.len() as int),
        none_empty(positions(spans@)),
{
    let found = find_spans(CODE_PATTERN, s);
    let ghost wanted = regex_spans(CODE_PATTERN@, s@);
    let mut spans: Vec<(usize, usize)> = Vec::new();
    let mut k: usize = 0;
    while k < found.len()
        invariant
            k <= found@.len(),
            offsets_of(found@, s@, wanted),
            forall|j: int| 0 <= j < found@.len() ==> (#[trigger] found@[j]).0 < found@[j].1,
            none_empty(positions(spans@)),
            positions(spans@) =~= wanted.take(k as int),
        decreases found@.len() - k,
    {
        assert(found@[k as int].0 == byte_offset(s@, wanted[k as int].0));
        let from = position_at(s, found[k].0, Ghost(wanted[k as int].0));
        let to = position_at(s, found[k].1, Ghost(wanted[k as int].1));
        let ghost before = positions(spans@);
        assert(wanted[k as int] == (from as int, to as int));
        spans.push((from, to));
        assert(positions(spans@) =~= before.push(wanted[k as int]));
        assert(none_empty(positions(spans@))) by {
            assert forall|j: int| 0 <= j < positions(spans@).len() implies (
            #[trigger] positions(spans@)[j]).0 < positions(spans@)[j].1 by {
                if j < before.len() {
                    assert(positions(spans@)[j] == before[j]);
                }
            }
        }
        k += 1;
    }
    assert(wanted.take(k as int) =~= wanted);
    spans
}

/// The first position from `i` on that holds no white space.
pub open spec fn white_end(s: Seq<char>, i: int) -> int
    decreases s.len() - i,
{
    if 0 <= i < s.len() && text::white_space(s[i]) {
        white_end(s, i + 1)
    } else {
        i
    }
}

/// The first position from `i` on that holds no decimal digit.
pub open spec fn digits_end(s: Seq<char>, i: int) -> int
    decreases s.len() - i,
{
    if 0 <= i < s.len() && decimal_digit(s[i]) {
        digits_end(s, i + 1)
    } else {
        i
    }
}

/// A placeholder token within a text, as a translator may have left it: where it
/// starts and ends, and where its number does.
pub ghost struct Mark {
    pub start: int,
    pub digits: int,
    pub digits_end: int,
    pub end: int,
}

/// The token that starts at a position: `__`, `PH_` in any case, a number and `__`,
/// with white space before and behind `PH_` and behind the number.
pub open spec fn mark_at(s: Seq<char>, i: int) -> Option<Mark> {
    let core = white_end(s, i + 2);
    let from = white_end(s, core + 3);
    let to = digits_end(s, from);
    let close = white_end(s, to);
    if {
        &&& 0 <= i
        &&& close + 2 <= s.len()
        &&& s[i] == '_' && s[i + 1] == '_'
        &&& s[core] == 'p' || s[core] == 'P'
        &&& s[core + 1] == 'h' || s[core + 1] == 'H'
        &&& s[core + 2] == '_'
        &&& from < to
        &&& s[close] == '_' && s[close + 1] == '_'
    } {
        Some(Mark { start: i, digits: from, digits_end: to, end: close + 2 })
    } else {
        None
    }
}

pub proof fn lemma_white_end(s: Seq<char>, i: int)
    ensures
        i <= white_end(s, i),
        0 <= i <= s.len() ==> white_end(s, i) <= s.len(),
        forall|k: int| i <= k < white_end(s, i) ==> text::white_space(#[trigger] s[k]),
        0 <= white_end(s, i) < s.len() ==> i < 0 || !text::white_space(s[white_end(s, i)]),
    decreases s.len() - i,
{
    if 0 <= i < s.len() && text::white_space(s[i]) {
        lemma_white_end(s, i + 1);
    }
}

pub proof fn lemma_digits_end(s: Seq<char>, i: int)
    ensures
        i <= digits_end(s, i),
        0 <= i <= s.len() ==> digits_end(s, i) <= s.len(),
        forall|k: int| i <= k < digits_end(s, i) ==> decimal_digit(#[trigger] s[k]),
        0 <= digits_end(s, i) < s.len() ==> i < 0 || !decimal_digit(s[digits_end(s, i)]),
    decreases s.len() - i,
{
    if 0 <= i < s.len() && decimal_digit(s[i]) {
        lemma_digits_end(s, i + 1);
    }
}

pub proof fn lemma_mark_at(s: Seq<char>, i: int)
    ensures
        mark_at(s, i) matches Some(mark) ==> 0 <= i && mark.start == i && i < mark.digits
            < mark.digits_end < mark.end <= s.len(),
{
    let core = white_end(s, i + 2);
    let from = white_end(s, core + 3);
    let to = digits_end(s, from);
    lemma_white_end(s, i + 2);
    lemma_white_end(s, core + 3);
    lemma_digits_end(s, from);
    lemma_white_end(s, to);
}

/// The tokens in a text from `i` on, from the left and without overlaps.
pub open spec fn marks_from(s: Seq<char>, i: int) -> Seq<Mark>
    decreases s.len() - i,
{
    if i < 0 || i >= s.len() {
        Seq::empty()
    } else {
        match mark_at(s, i) {
            Some(mark) => {
                proof {
                    lemma_mark_at(s, i);
                }
                seq![mark] + marks_from(s, mark.end)
            },
            None => marks_from(s, i + 1),
        }
    }
}

/// Whether byte offsets stand for tokens in a text: of each its start and end, and
/// those of its number.
pub open spec fn offsets_of_marks(
    found: Seq<(usize, usize, usize, usize)>,
    s: Seq<char>,
    marks: Seq<Mark>,
) -> bool {
    &&& found.len() == marks.len()
    &&& forall|k: int|
        0 <= k < found.len() ==> {
            &&& (#[trigger] found[k]).0 == byte_offset(s, marks[k].start)
            &&& found[k].1 == byte_offset(s, marks[k].end)
            &&& found[k].2 == byte_offset(s, marks[k].digits)
            &&& found[k].3 == byte_offset(s, marks[k].digits_end)
        }
}

/// Searches a text with `regex::Regex::captures_iter`. Of each match it gives the
/// byte offsets of its start and end and of those of its first group. From the
/// left and without overlaps these are the stretches that read `__`, `ph_` in any
/// case, decimal digits and `__`, with any white space between them but none
/// within `ph_`. The digits are the group. Only the pattern for marks is let in:
/// `Regex::new` fails on a text that is no pattern, and a group that takes no part
/// in a match has no place.
#[verifier::external_body]
fn find_marks(pattern: &str, haystack: &str) -> (found: Vec<(usize, usize, usize, usize)>)
    requires
        pattern@ == MARK_PATTERN@,
    ensures
        offsets_of_marks(found@, haystack@, marks_from(haystack@, 0)),
{
    let mark = regex::Regex::new(pattern).expect("the pattern is valid");
    mark.captures_iter(haystack)
        .map(|groups| (groups.get(0).unwrap(), groups.get(1).unwrap()))
        .map(|(whole, digits)| (whole.start(), whole.end(), digits.start(), digits.end()))
        .collect()
}

/// A stretch of text in a token: where the token starts and ends, and where its
/// number does.
pub struct MarkSpan {
    pub start: usize,
    pub end: usize,
    pub digits: usize,
    pub digits_end: usize,
}

/// What a list of tokens holds.
pub open spec fn marks(spans: Seq<MarkSpan>) -> Seq<Mark> {
    Seq::new(
        spans.len(),
        |k: int|
            Mark {
                start: spans[k].start as int,
                digits: spans[k].digits as int,
                digits_end: spans[k].digits_end as int,
                end: spans[k].end as int,
            },
    )
}

/// Whether tokens lie between `from` and `to`.
pub open spec fn marks_within(marks: Seq<Mark>, from: int, to: int) -> bool {
    forall|k: int|
        0 <= k < marks.len() ==> from <= (#[trigger] marks[k]).start < marks[k].digits
            < marks[k].digits_end < marks[k].end <= to
}

pub proof fn lemma_marks_from(s: Seq<char>, i: int)
    requires
        0 <= i,
    ensures
        marks_within(marks_from(s, i), i, s.len() as int),
    decreases s.len() - i,
{
    if i < s.len() {
        lemma_mark_at(s, i);
        match mark_at(s, i) {
            Some(mark) => {
                let rest = marks_from(s, mark.end);
                lemma_marks_from(s, mark.end);
                assert forall|k: int| 0 <= k < (seq![mark] + rest).len() implies i <= (
                #[trigger] (seq![mark] + rest)[k]).start < (seq![mark] + rest)[k].digits < (
                seq![mark] + rest)[k].digits_end < (seq![mark] + rest)[k].end <= s.len() by {
                    if k > 0 {
                        assert((seq![mark] + rest)[k] == rest[k - 1]);
                    }
                }
            },
            None => {
                lemma_marks_from(s, i + 1);
            },
        }
    }
}

/// Each token that is found stands where it starts, and behind those before it.
pub proof fn lemma_marks_order(s: Seq<char>, i: int)
    requires
        0 <= i,
    ensures
        forall|k: int|
            0 <= k < marks_from(s, i).len() ==> mark_at(s, (#[trigger] marks_from(s, i)[k]).start)
                == Some(marks_from(s, i)[k]),
        forall|j: int, k: int|
            0 <= j < k < marks_from(s, i).len() ==> (#[trigger] marks_from(s, i)[j]).end <= (
            #[trigger] marks_from(s, i)[k]).start,
    decreases s.len() - i,
{
    if i < s.len() {
        lemma_mark_at(s, i);
        match mark_at(s, i) {
            Some(mark) => {
                let rest = marks_from(s, mark.end);
                let all = seq![mark] + rest;
                lemma_marks_order(s, mark.end);
                lemma_marks_from(s, mark.end);
                assert(marks_from(s, i) == all);
                assert forall|k: int| 0 <= k < all.len() implies mark_at(
                    s,
                    (#[trigger] all[k]).start,
                ) == Some(all[k]) by {
                    if k > 0 {
                        assert(all[k] == rest[k - 1]);
                    }
                }
                assert forall|j: int, k: int| 0 <= j < k < all.len() implies (
                #[trigger] all[j]).end <= (#[trigger] all[k]).start by {
                    assert(all[k] == rest[k - 1]);
                    if j > 0 {
                        assert(all[j] == rest[j - 1]);
                    }
                }
            },
            None => {
                lemma_marks_order(s, i + 1);
            },
        }
    }
}

/// Finds the placeholder tokens in a text, also those that a translator has
/// changed.
pub fn find_tokens(s: &str) -> (spans: Vec<MarkSpan>)
    ensures
        marks(spans@) == marks_from(s@, 0),
{
    let found = find_marks(MARK_PATTERN, s);
    let ghost wanted = marks_from(s@, 0);
    proof {
        lemma_marks_from(s@, 0);
    }
    let mut spans: Vec<MarkSpan> = Vec::new();
    let mut k: usize = 0;
    while k < found.len()
        invariant
            k <= found@.len(),
            wanted == marks_from(s@, 0),
            offsets_of_marks(found@, s@, wanted),
            marks_within(wanted, 0, s@.len() as int),
            marks(spans@) =~= wanted.take(k as int),
        decreases found@.len() - k,
    {
        let ghost mark = wanted[k as int];
        assert(found@[k as int].0 == byte_offset(s@, mark.start));
        let start = position_at(s, found[k].0, Ghost(mark.start));
        let end = position_at(s, found[k].1, Ghost(mark.end));
        let digits = position_at(s, found[k].2, Ghost(mark.digits));
        let digits_end = position_at(s, found[k].3, Ghost(mark.digits_end));
        let ghost before = marks(spans@);
        spans.push(MarkSpan { start, end, digits, digits_end });
        assert(marks(spans@) =~= before.push(mark));
        k += 1;
    }
    assert(wanted.take(k as int) =~= wanted);
    spans
}

} // verus!

//! Hiding code from the translator behind placeholder tokens, and putting it back
//! into the translation.
use vstd::prelude::*;
use vstd::string::StringExecFns;
use crate::error::TranslationError;
use crate::digits;
use crate::error;
use crate::pattern;
use crate::placeholder_laws;
use crate::request;
use crate::search;
use crate::text;

verus! {

/// A placeholder token with its number as it is written.
pub open spec fn token_of(number: Seq<char>) -> Seq<char> {
    "__PH_"@ + number + "__"@
}

/// The placeholder token for a number.
pub open spec fn token(n: nat) -> Seq<char> {
    token_of(digits::decimal(n))
}

/// A part of a text.
pub ghost enum Part {
    /// Text for the translator.
    Plain(Seq<char>),
    /// Code to be kept from it.
    Code(Seq<char>),
}

/// Whether a text holds a placeholder token.
pub open spec fn holds_token(s: Seq<char>) -> bool {
    exists|a: int, b: int|
        0 <= a <= b <= s.len() && pattern::token_like(#[trigger] s.subrange(a, b))
}

/// The part that a stretch of code makes. One that already holds a token is left as
/// it is.
pub open spec fn code_part(s: Seq<char>) -> Part {
    if holds_token(s) {
        Part::Plain(s)
    } else {
        Part::Code(s)
    }
}

/// Tests whether a text holds a placeholder token.
fn has_token(s: &str) -> (found: bool)
    ensures
        found == holds_token(s@),
{
    proof {
        reveal_strlit("__PH_");
        reveal_strlit("__");
    }
    let chars = text::chars_of(s);
    let len = chars.len();
    let head = text::chars_of("__PH_");
    let mut a: usize = 0;
    while a < len
        invariant
            a <= len == chars@.len(),
            chars@ == s@,
            head@ == "__PH_"@,
            "__PH_"@.len() == 5,
            "__"@ == seq!['_', '_'],
            forall|x: int, y: int|
                0 <= x < a && x <= y <= s@.len() ==> !pattern::token_like(
                    #[trigger] s@.subrange(x, y),
                ),
        decreases len - a,
    {
        if search::is_at(&chars, a, &head) {
            let mut b: usize = a;
            while b < len
                invariant
                    a <= b <= len == chars@.len(),
                    chars@ == s@,
                    "__"@ == seq!['_', '_'],
                    forall|y: int|
                        a <= y <= b ==> !pattern::token_like(#[trigger] s@.subrange(a as int, y)),
                decreases len - b,
            {
                b += 1;
                let ghost part = s@.subrange(a as int, b as int);
                if chars[b - 1] == '_' {
                    let stretch = text::text_of(&chars, a, b);
                    if pattern::is_token(stretch.as_str()) {
                        assert(pattern::token_like(part));
                        return true;
                    }
                } else {
                    assert(!pattern::token_like(part)) by {
                        if part.len() > 7 {
                            assert(part.skip(part.len() - 2)[1] == part[part.len() - 1]);
                        }
                    }
                }
            }
        } else {
            assert forall|y: int| a <= y <= s@.len() implies !pattern::token_like(
                #[trigger] s@.subrange(a as int, y),
            ) by {
                let part = s@.subrange(a as int, y);
                if pattern::token_like(part) {
                    assert(part.take(5) =~= s@.subrange(a as int, a + 5));
                }
            }
        }
        a += 1;
    }
    assert forall|x: int, y: int| 0 <= x <= y <= s@.len() implies !pattern::token_like(
        #[trigger] s@.subrange(x, y),
    ) by {
        if x == s@.len() {
            assert(s@.subrange(x, y).len() == 0);
        }
    }
    false
}

/// The parts of a text from `from` on, cut at the given stretches of code.
pub open spec fn parts_from(s: Seq<char>, from: int, spans: Seq<(int, int)>) -> Seq<Part>
    decreases spans.len(),
{
    if spans.len() == 0 {
        seq![Part::Plain(s.subrange(from, s.len() as int))]
    } else {
        let span = spans[0];
        seq![
            Part::Plain(s.subrange(from, span.0)),
            code_part(s.subrange(span.0, span.1)),
        ] + parts_from(s, span.1, spans.skip(1))
    }
}

/// The parts of a text, cut at the given stretches of code.
pub open spec fn parts(s: Seq<char>, spans: Seq<(int, int)>) -> Seq<Part> {
    parts_from(s, 0, spans)
}

/// The code among some parts, in order.
pub open spec fn codes(parts: Seq<Part>) -> Seq<Seq<char>>
    decreases parts.len(),
{
    if parts.len() == 0 {
        Seq::empty()
    } else {
        match parts.last() {
            Part::Plain(_) => codes(parts.drop_last()),
            Part::Code(code) => codes(parts.drop_last()).push(code),
        }
    }
}

/// The parts as one text, with the code replaced by tokens that are numbered from
/// zero on.
pub open spec fn hidden(parts: Seq<Part>) -> Seq<char>
    decreases parts.len(),
{
    if parts.len() == 0 {
        Seq::empty()
    } else {
        let before = parts.drop_last();
        match parts.last() {
            Part::Plain(plain) => hidden(before) + plain,
            Part::Code(_) => hidden(before) + token(codes(before).len()),
        }
    }
}

/// Writes the placeholder token for a number.
fn push_token(out: &mut String, n: usize)
    ensures
        final(out)@ == old(out)@ + token(n as nat),
{
    out.append("__PH_");
    digits::push_decimal(out, n);
    out.append("__");
    assert(out@ =~= old(out)@ + token(n as nat));
}

/// Replaces the given stretches of a text by numbered tokens. Gives back the text
/// and what was replaced.
pub fn protect_spans(s: &str, spans: &[(usize, usize)]) -> (result: (String, Vec<String>))
    requires
        pattern::in_order(pattern::positions(spans@), s@.len() as int),
    ensures
        result.0@ == hidden(parts(s@, pattern::positions(spans@))),
        text::views(result.1@) == codes(parts(s@, pattern::positions(spans@))),
        text::views(result.1@) == placeholder_laws::tokenless(s@, pattern::positions(spans@)),
{
    let chars = text::chars_of(s);
    let ghost wanted = pattern::positions(spans@);
    let ghost all = parts(s@, wanted);
    let ghost mut done: Seq<Part> = Seq::empty();
    let mut protected = String::new();
    let mut placeholders: Vec<String> = Vec::new();
    let mut from: usize = 0;
    let mut k: usize = 0;
    assert(wanted.skip(0) =~= wanted);
    assert(done + parts_from(s@, 0, wanted) =~= all);
    assert(text::views(placeholders@) =~= codes(done));
    while k < spans.len()
        invariant
            k <= spans@.len(),
            chars@ == s@,
            wanted == pattern::positions(spans@),
            pattern::in_order(wanted, s@.len() as int),
            all == parts(s@, wanted),
            from <= s@.len(),
            forall|j: int| k <= j < wanted.len() ==> from <= (#[trigger] wanted[j]).0,
            done + parts_from(s@, from as int, wanted.skip(k as int)) == all,
            protected@ == hidden(done),
            text::views(placeholders@) == codes(done),
        decreases spans@.len() - k,
    {
        let (a, b) = spans[k];
        let ghost rest = wanted.skip(k as int);
        proof {
            assert(wanted[k as int] == (a as int, b as int));
            assert(rest[0] == wanted[k as int]);
            assert(rest.skip(1) =~= wanted.skip(k + 1));
        }
        let plain = text::text_of(&chars, from, a);
        let code = text::text_of(&chars, a, b);
        let ghost before = done;
        proof {
            let between = before.push(Part::Plain(plain@));
            assert(between.drop_last() =~= before);
            assert(hidden(between) == hidden(before) + plain@);
            assert(codes(between) == codes(before));
            done = between.push(code_part(code@));
            assert(done.drop_last() =~= between);
            assert(done + parts_from(s@, b as int, rest.skip(1)) =~= before + parts_from(
                s@,
                from as int,
                rest,
            ));
        }
        protected.append(plain.as_str());
        if has_token(code.as_str()) {
            protected.append(code.as_str());
        } else {
            push_token(&mut protected, placeholders.len());
            proof {
                text::lemma_views_push(placeholders@, code);
            }
            placeholders.push(code);
        }
        from = b;
        k += 1;
    }
    let tail = text::text_of(&chars, from, chars.len());
    protected.append(tail.as_str());
    proof {
        assert(wanted.skip(k as int) =~= Seq::empty());
        assert(all =~= done.push(Part::Plain(tail@)));
        placeholder_laws::law_all_code_is_hidden(s@, wanted);
        assert(all.drop_last() =~= done);
    }
    (protected, placeholders)
}

/// The parts of a text, cut at its code.
pub open spec fn code_parts(s: Seq<char>) -> Seq<Part> {
    parts(s, pattern::regex_spans(pattern::CODE_PATTERN@, s))
}

/// Replaces what looks like code in a text by tokens `__PH_0__`, `__PH_1__` and so
/// on. Gives back the text and the code that was replaced, in order: with what is left,
/// it makes up the text. None of it is empty or already holds a token. A text without
/// code stays as it is. Putting the code back gives the text again, unless its words spell
/// tokens that get in the way.
pub fn protect(s: &str) -> (result: (String, Vec<String>))
    ensures
        result.0@ == hidden(code_parts(s@)),
        text::views(result.1@) == codes(code_parts(s@)),
        placeholder_laws::original(code_parts(s@)) == s@,
        text::views(result.1@) == placeholder_laws::tokenless(
            s@,
            pattern::regex_spans(pattern::CODE_PATTERN@, s@),
        ),
        result.1@.len() == 0 ==> result.0@ == s@,
        forall|k: int|
            0 <= k < result.1@.len() ==> (#[trigger] result.1@[k])@.len() > 0 && !holds_token(
                result.1@[k]@,
            ),
        placeholder_laws::coreless(s@) ==> restored(result.0@, text::views(result.1@)) == Some(s@),
        placeholder_laws::unambiguous(code_parts(s@)) ==> restored(
            result.0@,
            text::views(result.1@),
        ) == Some(s@),
{
    let spans = pattern::find_code(s);
    proof {
        let found = pattern::positions(spans@);
        placeholder_laws::law_parts_make_up_the_text(s@, found);
        placeholder_laws::law_all_code_is_hidden(s@, found);
        placeholder_laws::law_codeless_text_stays(s@, found);
        placeholder_laws::law_tokens_are_not_hidden(s@, found);
        placeholder_laws::law_hidden_code_is_not_empty(s@, found);
        if placeholder_laws::coreless(s@) {
            placeholder_laws::law_coreless_text_comes_back(s@, found);
        }
        if placeholder_laws::unambiguous(code_parts(s@)) {
            placeholder_laws::law_protected_text_comes_back(s@, found);
        }
    }
    let result = protect_spans(s, &spans);
    assert(result.1@.len() == text::views(result.1@).len());
    assert forall|k: int| 0 <= k < result.1@.len() implies (#[trigger] result.1@[k])@.len() > 0
        && !holds_token(result.1@[k]@) by {
        assert(text::views(result.1@)[k] == result.1@[k]@);
    }
    result
}

/// The number of a token, as it is written.
pub open spec fn number_of(s: Seq<char>, mark: pattern::Mark) -> Seq<char> {
    s.subrange(mark.digits, mark.digits_end)
}

/// The text from `i` on with every token, also one that a translator has changed,
/// as it is written here.
pub open spec fn normalised_from(s: Seq<char>, i: int) -> Seq<char>
    decreases s.len() - i,
{
    if i < 0 || i >= s.len() {
        Seq::empty()
    } else {
        match pattern::mark_at(s, i) {
            Some(mark) => {
                proof {
                    pattern::lemma_mark_at(s, i);
                }
                token_of(number_of(s, mark)) + normalised_from(s, mark.end)
            },
            None => seq![s[i]] + normalised_from(s, i + 1),
        }
    }
}

/// A text with every token, also one that a translator has changed, as it is
/// written here.
pub open spec fn normalised(s: Seq<char>) -> Seq<char> {
    normalised_from(s, 0)
}

proof fn lemma_normalised_step(s: Seq<char>, i: int)
    requires
        0 <= i <= s.len(),
    ensures
        pattern::marks_from(s, i).len() == 0 ==> normalised_from(s, i) == s.subrange(
            i,
            s.len() as int,
        ),
        pattern::marks_from(s, i).len() > 0 ==> ({
            let mark = pattern::marks_from(s, i)[0];
            &&& i <= mark.start < mark.digits < mark.digits_end < mark.end <= s.len()
            &&& normalised_from(s, i) == s.subrange(i, mark.start) + token_of(number_of(s, mark))
                + normalised_from(s, mark.end)
            &&& pattern::marks_from(s, mark.end) == pattern::marks_from(s, i).skip(1)
        }),
    decreases s.len() - i,
{
    if i < s.len() {
        pattern::lemma_mark_at(s, i);
        match pattern::mark_at(s, i) {
            Some(mark) => {
                assert(s.subrange(i, i) =~= Seq::empty());
                assert(pattern::marks_from(s, i).skip(1) =~= pattern::marks_from(s, mark.end));
                assert(normalised_from(s, i) =~= s.subrange(i, mark.start) + token_of(
                    number_of(s, mark),
                ) + normalised_from(s, mark.end));
            },
            None => {
                lemma_normalised_step(s, i + 1);
                if pattern::marks_from(s, i).len() == 0 {
                    assert(normalised_from(s, i) =~= s.subrange(i, s.len() as int));
                } else {
                    let mark = pattern::marks_from(s, i)[0];
                    assert(normalised_from(s, i) =~= s.subrange(i, mark.start) + token_of(
                    number_of(s, mark),
                ) + normalised_from(s, mark.end));
                }
            },
        }
    } else {
        assert(s.subrange(i, s.len() as int) =~= Seq::empty());
    }
}

/// Writes every token in a text, also one that a translator has changed, as it is
/// written here.
pub fn normalise(s: &str) -> (result: String)
    ensures
        result@ == normalised(s@),
{
    let spans = pattern::find_tokens(s);
    let chars = text::chars_of(s);
    let ghost all = pattern::marks(spans@);
    let mut out = String::new();
    let mut from: usize = 0;
    let mut k: usize = 0;
    assert(all.skip(0) =~= all);
    assert(out@ + normalised_from(s@, 0) =~= normalised(s@));
    while k < spans.len()
        invariant
            k <= spans@.len(),
            chars@ == s@,
            all == pattern::marks(spans@),
            from <= s@.len(),
            pattern::marks_from(s@, from as int) == all.skip(k as int),
            out@ + normalised_from(s@, from as int) == normalised(s@),
        decreases spans@.len() - k,
    {
        let ghost before = out@;
        let ghost at = from as int;
        proof {
            lemma_normalised_step(s@, at);
            assert(all.skip(k as int)[0] == all[k as int]);
            assert(all.skip(k as int).skip(1) =~= all.skip(k + 1));
        }
        let span = &spans[k];
        let plain = text::text_of(&chars, from, span.start);
        let number = text::text_of(&chars, span.digits, span.digits_end);
        out.append(plain.as_str());
        out.append("__PH_");
        out.append(number.as_str());
        out.append("__");
        from = span.end;
        assert(out@ + normalised_from(s@, from as int) =~= before + normalised_from(s@, at));
        k += 1;
    }
    proof {
        lemma_normalised_step(s@, from as int);
    }
    let tail = text::text_of(&chars, from, chars.len());
    out.append(tail.as_str());
    out
}

/// A place in a translation into which code is put back: a character of the translation,
/// or a piece of code. What the code spells does not count.
pub ghost enum Cell {
    Char(char),
    Code(Seq<char>),
}

/// A character of the translation.
pub open spec fn char_cell(c: char) -> Cell {
    Cell::Char(c)
}

/// A text as cells.
pub open spec fn cells(s: Seq<char>) -> Seq<Cell> {
    Seq::new(s.len(), |k: int| char_cell(s[k]))
}

/// What a cell reads.
pub open spec fn cell_text(cell: Cell) -> Seq<char> {
    match cell {
        Cell::Char(c) => seq![c],
        Cell::Code(code) => code,
    }
}

/// What cells read one after the other.
pub open spec fn spelled(of: Seq<Cell>) -> Seq<char> {
    text::concat(Seq::new(of.len(), |k: int| cell_text(of[k])))
}

/// A translation with the tokens from number `n` on replaced by the code they stand for,
/// one number after the other. A token is looked for in what is left of the translation,
/// never in the code that was put back. There is no result where a token is missing when
/// its turn comes.
pub open spec fn restored_from(left: Seq<Cell>, codes: Seq<Seq<char>>, n: int) -> Option<Seq<char>>
    decreases codes.len() - n,
{
    if n < 0 || n >= codes.len() {
        Some(spelled(left))
    } else if !search::contains(left, cells(token(n as nat))) {
        None
    } else {
        restored_from(
            search::replaced(left, cells(token(n as nat)), seq![Cell::Code(codes[n])]),
            codes,
            n + 1,
        )
    }
}

/// A translation with the code put back, unless it has lost a token.
pub open spec fn restored(s: Seq<char>, codes: Seq<Seq<char>>) -> Option<Seq<char>> {
    restored_from(cells(normalised(s)), codes, 0)
}

/// A place in a translation into which code is put back: a character, or a piece of code
/// by its number.
#[derive(Clone, Copy)]
enum Place {
    Char(char),
    Code(usize),
}

impl Place {
    spec fn cell(self, codes: Seq<Seq<char>>) -> Cell {
        match self {
            Place::Char(c) => Cell::Char(c),
            Place::Code(n) => Cell::Code(codes[n as int]),
        }
    }
}

/// What places hold.
spec fn seen(places: Seq<Place>, codes: Seq<Seq<char>>) -> Seq<Cell> {
    Seq::new(places.len(), |k: int| places[k].cell(codes))
}

/// Whether the code at each place is there.
spec fn numbered(places: Seq<Place>, codes: Seq<Seq<char>>) -> bool {
    forall|k: int| 0 <= k < places.len() ==> (#[trigger] places[k] matches Place::Code(n) ==> n
        < codes.len())
}

/// Tests whether a text stands at a place.
fn stands_at(places: &[Place], i: usize, wanted: &[char], Ghost(codes): Ghost<Seq<Seq<char>>>) -> (
    found: bool)
    requires
        i <= places@.len(),
    ensures
        found == search::occurs_at(seen(places@, codes), i as int, cells(wanted@)),
{
    let ghost all = seen(places@, codes);
    let len = places.len();
    if wanted.len() > len - i {
        return false;
    }
    let mut k: usize = 0;
    while k < wanted.len()
        invariant
            len == places@.len(),
            all == seen(places@, codes),
            k <= wanted@.len(),
            i + wanted@.len() <= places@.len(),
            forall|j: int| 0 <= j < k ==> all[i + j] == #[trigger] cells(wanted@)[j],
        decreases wanted@.len() - k,
    {
        let same = match places[i + k] {
            Place::Char(c) => c == wanted[k],
            Place::Code(_) => false,
        };
        if !same {
            assert(all.subrange(i as int, i + wanted@.len())[k as int] != cells(wanted@)[k as int]);
            return false;
        }
        k += 1;
    }
    assert(all.subrange(i as int, i + wanted@.len()) =~= cells(wanted@));
    true
}

/// Puts a piece of code in every place where its token stands. Also tells whether there
/// was one.
fn put_code(places: &[Place], wanted: &[char], n: usize, Ghost(codes): Ghost<Seq<Seq<char>>>) -> (
    result: (Vec<Place>, bool))
    requires
        wanted@.len() > 0,
        n < codes.len(),
        numbered(places@, codes),
    ensures
        numbered(result.0@, codes),
        seen(result.0@, codes) == search::replaced(
            seen(places@, codes),
            cells(wanted@),
            seq![Cell::Code(codes[n as int])],
        ),
        result.1 == search::contains(seen(places@, codes), cells(wanted@)),
{
    let ghost all = seen(places@, codes);
    let ghost pattern = cells(wanted@);
    let ghost by = seq![Cell::Code(codes[n as int])];
    let mut out: Vec<Place> = Vec::new();
    let mut found = false;
    let mut i: usize = 0;
    assert(seen(out@, codes) + search::replaced_from(all, 0, pattern, by) =~= search::replaced(
        all,
        pattern,
        by,
    ));
    while i < places.len()
        invariant
            i <= places@.len(),
            wanted@.len() > 0,
            n < codes.len(),
            numbered(places@, codes),
            numbered(out@, codes),
            all == seen(places@, codes),
            pattern == cells(wanted@),
            by == seq![Cell::Code(codes[n as int])],
            found ==> search::contains(all, pattern),
            !found ==> forall|j: int| 0 <= j < i ==> !#[trigger] search::occurs_at(all, j, pattern),
            seen(out@, codes) + search::replaced_from(all, i as int, pattern, by)
                == search::replaced(all, pattern, by),
        decreases places@.len() - i,
    {
        let ghost before = seen(out@, codes);
        let ghost at = i as int;
        if stands_at(places, i, wanted, Ghost(codes)) {
            out.push(Place::Code(n));
            found = true;
            i += wanted.len();
            assert(seen(out@, codes) =~= before + by);
        } else {
            out.push(places[i]);
            i += 1;
            assert(seen(out@, codes) =~= before + seq![all[at]]);
        }
        assert(seen(out@, codes) + search::replaced_from(all, i as int, pattern, by) =~= before
            + search::replaced_from(all, at, pattern, by));
    }
    assert(seen(out@, codes) =~= search::replaced(all, pattern, by));
    (out, found)
}

/// Reads places one after the other.
fn spell(places: &[Place], placeholders: &[String]) -> (out: String)
    requires
        numbered(places@, text::views(placeholders@)),
    ensures
        out@ == spelled(seen(places@, text::views(placeholders@))),
{
    let ghost codes = text::views(placeholders@);
    let ghost all = seen(places@, codes);
    let ghost texts = Seq::new(all.len(), |k: int| cell_text(all[k]));
    let mut out = String::new();
    let mut i: usize = 0;
    assert(texts.take(0) =~= Seq::empty());
    while i < places.len()
        invariant
            i <= places@.len(),
            codes == text::views(placeholders@),
            numbered(places@, codes),
            all == seen(places@, codes),
            texts == Seq::new(all.len(), |k: int| cell_text(all[k])),
            out@ == text::concat(texts.take(i as int)),
        decreases places@.len() - i,
    {
        let ghost before = out@;
        assert(texts.take(i + 1).drop_last() =~= texts.take(i as int));
        assert(texts.take(i + 1).last() == cell_text(places@[i as int].cell(codes)));
        match places[i] {
            Place::Char(c) => {
                out.push(c);
            },
            Place::Code(n) => {
                out.append(placeholders[n].as_str());
            },
        }
        assert(out@ =~= before + cell_text(places@[i as int].cell(codes)));
        i += 1;
    }
    assert(texts.take(i as int) =~= texts);
    out
}

/// The place of a character.
fn place_of(c: char) -> (place: Place)
    ensures
        place == Place::Char(c),
{
    Place::Char(c)
}

/// Puts the code back into a translation, in place of the tokens that stand for it.
/// Fails where the translation has lost one of them. What is put back is not looked at
/// again, whatever it spells.
pub fn restore(translated: &str, placeholders: &[String]) -> (result: Result<
    String,
    TranslationError,
>)
    ensures
        request::shown(result) == match restored(translated@, text::views(placeholders@)) {
            Some(text) => Ok::<Seq<char>, error::Failure>(text),
            None => Err::<Seq<char>, error::Failure>(error::Failure::PlaceholderMismatch),
        },
{
    let ghost codes = text::views(placeholders@);
    let written = text::chars_of(normalise(translated).as_str());
    let mut places: Vec<Place> = Vec::new();
    let mut i: usize = 0;
    while i < written.len()
        invariant
            i <= written@.len(),
            numbered(places@, codes),
            seen(places@, codes) == cells(written@.take(i as int)),
        decreases written@.len() - i,
    {
        let ghost before = seen(places@, codes);
        let c = written[i];
        places.push(place_of(c));
        i += 1;
        assert(seen(places@, codes) =~= before.push(char_cell(c)));
        assert(cells(written@.take(i as int)) =~= before.push(char_cell(c)));
    }
    assert(written@.take(i as int) =~= written@);
    let mut n: usize = 0;
    while n < placeholders.len()
        invariant
            n <= placeholders@.len(),
            codes == text::views(placeholders@),
            numbered(places@, codes),
            restored_from(seen(places@, codes), codes, n as int) == restored(translated@, codes),
        decreases placeholders@.len() - n,
    {
        let mut name = String::new();
        push_token(&mut name, n);
        assert(name@ =~= token(n as nat));
        let wanted = text::chars_of(name.as_str());
        assert(wanted@.len() > 0) by {
            reveal_strlit("__");
        }
        let (next, found) = put_code(&places, &wanted, n, Ghost(codes));
        if !found {
            return Err(TranslationError::PlaceholderMismatch);
        }
        places = next;
        n += 1;
    }
    Ok(spell(&places, placeholders))
}

} // verus!

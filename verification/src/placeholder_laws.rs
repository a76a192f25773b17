//! What holds of hiding code and putting it back, taken together.
use vstd::prelude::*;
use crate::digits;
use crate::pattern;
use crate::placeholder;
use crate::search;
use crate::text;

verus! {

/// A part of a translation.
pub ghost enum Slot {
    /// Words, whatever the translator made of them.
    Plain(Seq<char>),
    /// A token with its number as it is written.
    Mark(Seq<char>),
}

/// Whether a text is the token with a number, perhaps changed by a translator.
pub open spec fn variant(s: Seq<char>, number: Seq<char>) -> bool {
    match pattern::mark_at(s, 0) {
        Some(mark) => mark.end == s.len() && s.subrange(mark.digits, mark.digits_end) == number,
        None => false,
    }
}

/// Whether texts are what the slots read, the tokens perhaps changed by a translator.
pub open spec fn shown_as(texts: Seq<Seq<char>>, slots: Seq<Slot>) -> bool {
    &&& texts.len() == slots.len()
    &&& forall|k: int|
        0 <= k < slots.len() ==> match slots[k] {
            Slot::Plain(plain) => #[trigger] texts[k] == plain,
            Slot::Mark(number) => variant(texts[k], number),
        }
}

/// What each slot reads before anything is changed.
pub open spec fn written(slots: Seq<Slot>) -> Seq<Seq<char>> {
    Seq::new(
        slots.len(),
        |k: int|
            match slots[k] {
                Slot::Plain(plain) => plain,
                Slot::Mark(number) => placeholder::token_of(number),
            },
    )
}

/// What is put in the place of a token: the code that its number stands for. Where it
/// stands for none, it is the token as it is written here.
pub open spec fn meant(number: Seq<char>, codes: Seq<Seq<char>>) -> Seq<char> {
    if exists|n: nat| n < codes.len() && #[trigger] digits::decimal(n) == number {
        codes[(choose|n: nat| n < codes.len() && #[trigger] digits::decimal(n) == number) as int]
    } else {
        placeholder::token_of(number)
    }
}

/// What each slot reads once the code is put back.
pub open spec fn results(slots: Seq<Slot>, codes: Seq<Seq<char>>) -> Seq<Seq<char>> {
    Seq::new(
        slots.len(),
        |k: int|
            match slots[k] {
                Slot::Plain(plain) => plain,
                Slot::Mark(number) => meant(number, codes),
            },
    )
}

/// Whether each piece of code has a token that stands for it.
pub open spec fn all_marked(slots: Seq<Slot>, codes: Seq<Seq<char>>) -> bool {
    forall|n: nat|
        n < codes.len() ==> slots.contains(Slot::Mark(#[trigger] digits::decimal(n)))
}

/// Whether a token is found that starts at position `p`.
pub open spec fn found_at(s: Seq<char>, p: int) -> bool {
    exists|t: int|
        0 <= t < pattern::marks_from(s, 0).len() && (#[trigger] pattern::marks_from(s, 0)[t]).start
            == p
}

/// Whether slot `k` is a token and starts at position `p`.
pub open spec fn slot_stands(texts: Seq<Seq<char>>, slots: Seq<Slot>, k: int, p: int) -> bool {
    &&& 0 <= k < slots.len()
    &&& slots[k] is Mark
    &&& text::offset(texts, k) == p
}

/// Whether a slot that is a token starts at position `p`.
pub open spec fn slot_at(texts: Seq<Seq<char>>, slots: Seq<Slot>, p: int) -> bool {
    exists|k: int| slot_stands(texts, slots, k, p)
}

/// Whether a token is written as it is written here.
pub open spec fn as_written(s: Seq<char>, mark: pattern::Mark) -> bool {
    s.subrange(mark.start, mark.end) == placeholder::token_of(placeholder::number_of(s, mark))
}

/// Whether the tokens of a translation are those in its slots: each of these is found, and
/// any other that the words spell is written as it is written here.
pub open spec fn in_place(texts: Seq<Seq<char>>, slots: Seq<Slot>) -> bool {
    let s = text::concat(texts);
    &&& forall|k: int|
        0 <= k < slots.len() && slots[k] is Mark ==> found_at(s, #[trigger] text::offset(texts, k))
    &&& forall|t: int|
        0 <= t < pattern::marks_from(s, 0).len() ==> slot_at(
            texts,
            slots,
            (#[trigger] pattern::marks_from(s, 0)[t]).start,
        ) || as_written(s, pattern::marks_from(s, 0)[t])
}

/// Whether slot `k` is the token with a number and starts at position `p`.
pub open spec fn token_stands(slots: Seq<Slot>, n: nat, k: int, p: int) -> bool {
    &&& 0 <= k < slots.len()
    &&& slots[k] == Slot::Mark(digits::decimal(n))
    &&& text::offset(written(slots), k) == p
}

/// Whether the slots hold every token with a number below `count`: neither the words nor
/// the tokens around them spell one by accident.
pub open spec fn apart(slots: Seq<Slot>, count: int) -> bool {
    forall|n: nat, p: int|
        n < count && #[trigger] search::occurs_at(
            text::concat(written(slots)),
            p,
            placeholder::token(n),
        ) ==> exists|k: int| token_stands(slots, n, k, p)
}

proof fn lemma_white_end_local(whole: Seq<char>, at: int, part: Seq<char>, x: int)
    requires
        search::occurs_at(whole, at, part),
        0 <= x <= part.len(),
        pattern::white_end(part, x) < part.len(),
    ensures
        pattern::white_end(whole, at + x) == at + pattern::white_end(part, x),
    decreases part.len() - x,
{
    if x < part.len() {
        assert(whole[at + x] == whole.subrange(at, at + part.len())[x]);
        if text::white_space(part[x]) {
            lemma_white_end_local(whole, at, part, x + 1);
        }
    }
}

proof fn lemma_digits_end_local(whole: Seq<char>, at: int, part: Seq<char>, x: int)
    requires
        search::occurs_at(whole, at, part),
        0 <= x <= part.len(),
        pattern::digits_end(part, x) < part.len(),
    ensures
        pattern::digits_end(whole, at + x) == at + pattern::digits_end(part, x),
    decreases part.len() - x,
{
    if x < part.len() {
        assert(whole[at + x] == whole.subrange(at, at + part.len())[x]);
        if pattern::decimal_digit(part[x]) {
            lemma_digits_end_local(whole, at, part, x + 1);
        }
    }
}

proof fn lemma_char_local(whole: Seq<char>, at: int, part: Seq<char>, x: int)
    requires
        search::occurs_at(whole, at, part),
        0 <= x < part.len(),
    ensures
        whole[at + x] == part[x],
{
    assert(whole[at + x] == whole.subrange(at, at + part.len())[x]);
}

/// Where the core of a token lies.
pub open spec fn core_of(s: Seq<char>, i: int) -> int {
    pattern::white_end(s, i + 2)
}

/// A token, perhaps changed, is found where it stands.
proof fn lemma_mark_local(whole: Seq<char>, at: int, part: Seq<char>, number: Seq<char>)
    requires
        search::occurs_at(whole, at, part),
        variant(part, number),
    ensures
        pattern::mark_at(whole, at) matches Some(mark) && mark.end == at + part.len()
            && whole.subrange(mark.digits, mark.digits_end) == number,
        core_of(whole, at) == at + core_of(part, 0),
        part.len() > 7,
        whole[at] == '_',
        whole[at + 1] == '_',
{
    let core = pattern::white_end(part, 2);
    let from = pattern::white_end(part, core + 3);
    let to = pattern::digits_end(part, from);
    let close = pattern::white_end(part, to);
    pattern::lemma_white_end(part, 2);
    pattern::lemma_white_end(part, core + 3);
    pattern::lemma_digits_end(part, from);
    pattern::lemma_white_end(part, to);
    lemma_white_end_local(whole, at, part, 2);
    lemma_white_end_local(whole, at, part, core + 3);
    lemma_digits_end_local(whole, at, part, from);
    lemma_white_end_local(whole, at, part, to);
    lemma_char_local(whole, at, part, 0);
    lemma_char_local(whole, at, part, 1);
    lemma_char_local(whole, at, part, core);
    lemma_char_local(whole, at, part, core + 1);
    lemma_char_local(whole, at, part, core + 2);
    lemma_char_local(whole, at, part, close);
    lemma_char_local(whole, at, part, close + 1);
    assert(whole.subrange(at + from, at + to) =~= part.subrange(from, to)) by {
        assert forall|k: int| 0 <= k < to - from implies whole.subrange(at + from, at + to)[k]
            == part.subrange(from, to)[k] by {
            lemma_char_local(whole, at, part, from + k);
        }
    }
}

/// The token for a number is a token.
proof fn lemma_token_variant(n: nat)
    ensures
        variant(placeholder::token(n), digits::decimal(n)),
        core_of(placeholder::token(n), 0) == 2,
{
    reveal_strlit("__PH_");
    reveal_strlit("__");
    let s = placeholder::token(n);
    let number = digits::decimal(n);
    digits::lemma_decimal(n);
    assert forall|k: int| 5 <= k < 5 + number.len() implies pattern::decimal_digit(#[trigger] s[k])
        && !text::white_space(s[k]) by {
        assert(s[k] == number[k - 5]);
    }
    assert(s[2] == 'P' && s[3] == 'H' && s[4] == '_');
    let to = 5 + number.len() as int;
    assert(s[to] == '_' && s[to + 1] == '_');
    lemma_digits_end_reaches(s, 5, to);
    assert(pattern::white_end(s, 2) == 2);
    assert(pattern::white_end(s, 5) == 5);
    assert(pattern::white_end(s, to) == to);
    assert(s.subrange(5, to) =~= number);
}

proof fn lemma_digits_end_reaches(s: Seq<char>, from: int, to: int)
    requires
        0 <= from <= to < s.len(),
        forall|k: int| from <= k < to ==> pattern::decimal_digit(#[trigger] s[k]),
        !pattern::decimal_digit(s[to]),
    ensures
        pattern::digits_end(s, from) == to,
    decreases to - from,
{
    if from < to {
        lemma_digits_end_reaches(s, from + 1, to);
    }
}

proof fn lemma_white_end_reaches(s: Seq<char>, from: int, to: int)
    requires
        0 <= from <= to < s.len(),
        forall|k: int| from <= k < to ==> text::white_space(#[trigger] s[k]),
        !text::white_space(s[to]),
    ensures
        pattern::white_end(s, from) == to,
    decreases to - from,
{
    if from < to {
        lemma_white_end_reaches(s, from + 1, to);
    }
}

/// The text that the slots give from position `i` of the translation on, with their tokens
/// as they are written here.
spec fn rest(texts: Seq<Seq<char>>, slots: Seq<Slot>, i: int) -> Seq<char>
    decreases
            (if i < text::concat(texts).len() {
                text::concat(texts).len() - i
            } else {
                0
            }),
{
    let k = choose|k: int| slot_stands(texts, slots, k, i);
    if i < 0 || i >= text::concat(texts).len() {
        Seq::empty()
    } else if slot_at(texts, slots, i) && texts[k].len() > 0 {
        written(slots)[k] + rest(texts, slots, i + texts[k].len())
    } else {
        seq![text::concat(texts)[i]] + rest(texts, slots, i + 1)
    }
}

/// A token in a slot is found where the slot stands.
proof fn lemma_slot_mark(texts: Seq<Seq<char>>, slots: Seq<Slot>, k: int)
    requires
        shown_as(texts, slots),
        0 <= k < slots.len(),
        slots[k] is Mark,
    ensures
        pattern::mark_at(text::concat(texts), text::offset(texts, k)) matches Some(mark) && mark.end
            == text::offset(texts, k + 1) && placeholder::number_of(text::concat(texts), mark)
            == slots[k]->Mark_0,
        texts[k].len() > 7,
{
    text::lemma_offset(texts, k);
    assert(variant(texts[k], slots[k]->Mark_0));
    lemma_mark_local(
        text::concat(texts),
        text::offset(texts, k),
        texts[k],
        slots[k]->Mark_0,
    );
}

/// The slot that holds a position is the only one.
proof fn lemma_slot_alone(texts: Seq<Seq<char>>, slots: Seq<Slot>, k: int, j: int, p: int)
    requires
        shown_as(texts, slots),
        0 <= k < slots.len(),
        text::offset(texts, k) <= p < text::offset(texts, k + 1),
        slot_stands(texts, slots, j, p),
    ensures
        j == k,
{
    lemma_slot_mark(texts, slots, j);
    text::lemma_offset(texts, j);
    if j < k {
        text::lemma_offset_order(texts, j + 1, k);
    } else if k < j {
        text::lemma_offset_order(texts, k + 1, j);
    }
}

proof fn lemma_rest_words(
    texts: Seq<Seq<char>>,
    slots: Seq<Slot>,
    from: int,
    to: int,
)
    requires
        0 <= from <= to <= text::concat(texts).len(),
        forall|p: int| from <= p < to ==> !#[trigger] slot_at(texts, slots, p),
    ensures
        rest(texts, slots, from) == text::concat(texts).subrange(from, to) + rest(
            texts,
            slots,
            to,
        ),
    decreases to - from,
{
    let s = text::concat(texts);
    if from < to {
        lemma_rest_words(texts, slots, from + 1, to);
        assert(!slot_at(texts, slots, from));
    } else {
        assert(s.subrange(from, to) =~= Seq::empty());
    }
    assert(rest(texts, slots, from) =~= s.subrange(from, to) + rest(
        texts,
        slots,
        to,
    ));
}

proof fn lemma_rest_slots(texts: Seq<Seq<char>>, slots: Seq<Slot>, k: int)
    requires
        shown_as(texts, slots),
        0 <= k <= slots.len(),
    ensures
        rest(texts, slots, text::offset(texts, k)) == text::concat(
            written(slots).skip(k),
        ),
    decreases slots.len() - k,
{
    let all = written(slots);
    text::lemma_offset_ends(texts);
    if k == slots.len() {
        assert(all.skip(k) =~= Seq::empty());
    } else {
        let from = text::offset(texts, k);
        let to = text::offset(texts, k + 1);
        text::lemma_offset(texts, k);
        lemma_rest_slots(texts, slots, k + 1);
        assert(all.skip(k) =~= seq![all[k]] + all.skip(k + 1));
        text::lemma_concat_add(seq![all[k]], all.skip(k + 1));
        text::lemma_concat_one(all[k]);
        match slots[k] {
            Slot::Mark(_) => {
                lemma_slot_mark(texts, slots, k);
                assert(slot_stands(texts, slots, k, from));
                let j = choose|j: int| slot_stands(texts, slots, j, from);
                lemma_slot_alone(texts, slots, k, j, from);
            },
            Slot::Plain(plain) => {
                assert(texts[k] == plain);
                assert forall|p: int| from <= p < to implies !#[trigger] slot_at(
                    texts,
                    slots,
                    p,
                ) by {
                    if slot_at(texts, slots, p) {
                        let j = choose|j: int| slot_stands(texts, slots, j, p);
                        lemma_slot_alone(texts, slots, k, j, p);
                    }
                }
                lemma_rest_words(texts, slots, from, to);
            },
        }
    }
}

proof fn lemma_normalised_rest(
    texts: Seq<Seq<char>>,
    slots: Seq<Slot>,
    i: int,
    u: int,
)
    requires
        shown_as(texts, slots),
        in_place(texts, slots),
        0 <= i <= text::concat(texts).len(),
        0 <= u <= pattern::marks_from(text::concat(texts), 0).len(),
        pattern::marks_from(text::concat(texts), i) == pattern::marks_from(
            text::concat(texts),
            0,
        ).skip(u),
    ensures
        placeholder::normalised_from(text::concat(texts), i) == rest(texts, slots, i),
    decreases text::concat(texts).len() - i,
{
    let s = text::concat(texts);
    let marks = pattern::marks_from(s, 0);
    if i < s.len() {
        pattern::lemma_mark_at(s, i);
        if slot_at(texts, slots, i) {
            let k = choose|k: int| slot_stands(texts, slots, k, i);
            lemma_slot_mark(texts, slots, k);
            text::lemma_offset(texts, k);
        }
        match pattern::mark_at(s, i) {
            None => {
                lemma_normalised_rest(texts, slots, i + 1, u);
            },
            Some(mark) => {
                let later = pattern::marks_from(s, mark.end);
                assert(pattern::marks_from(s, i) == seq![mark] + later);
                assert(marks.skip(u).len() > 0);
                assert(marks.skip(u)[0] == mark);
                assert(marks[u] == mark);
                assert(later =~= (seq![mark] + later).skip(1));
                assert(marks.skip(u).skip(1) =~= marks.skip(u + 1));
                lemma_normalised_rest(texts, slots, mark.end, u + 1);
                if !slot_at(texts, slots, i) {
                    assert(as_written(s, mark));
                    pattern::lemma_marks_order(s, 0);
                    pattern::lemma_marks_from(s, 0);
                    assert forall|p: int| i <= p < mark.end implies !#[trigger] slot_at(
                        texts,
                        slots,
                        p,
                    ) by {
                        if slot_at(texts, slots, p) {
                            let k = choose|k: int| slot_stands(texts, slots, k, p);
                            assert(found_at(s, text::offset(texts, k)));
                            let t = choose|t: int|
                                0 <= t < marks.len() && (#[trigger] marks[t]).start == p;
                            assert(marks[t].start == p);
                            if t < u {
                                assert(marks[t].end <= marks[u].start);
                            } else if u < t {
                                assert(marks[u].end <= marks[t].start);
                            }
                        }
                    }
                    lemma_rest_words(texts, slots, i, mark.end);
                }
            },
        }
    }
}

/// Tokens that a translator has changed are written anew, in their case and in the white
/// space in them, and all else stays.
pub proof fn law_changed_tokens_are_rewritten(texts: Seq<Seq<char>>, slots: Seq<Slot>)
    requires
        shown_as(texts, slots),
        in_place(texts, slots),
    ensures
        placeholder::normalised(text::concat(texts)) == text::concat(written(slots)),
{
    let marks = pattern::marks_from(text::concat(texts), 0);
    assert(marks.skip(0) =~= marks);
    lemma_normalised_rest(texts, slots, 0, 0);
    text::lemma_offset_ends(texts);
    lemma_rest_slots(texts, slots, 0);
    assert(written(slots).skip(0) =~= written(slots));
}

/// What a slot holds once the code below number `n` is put back.
spec fn slot_cells(slot: Slot, codes: Seq<Seq<char>>, n: nat) -> Seq<placeholder::Cell> {
    match slot {
        Slot::Plain(plain) => placeholder::cells(plain),
        Slot::Mark(number) => if exists|m: nat| m < n && #[trigger] digits::decimal(m) == number {
            seq![placeholder::Cell::Code(meant(number, codes))]
        } else {
            placeholder::cells(placeholder::token_of(number))
        },
    }
}

/// What each slot holds once the code below number `n` is put back.
spec fn slots_cells(slots: Seq<Slot>, codes: Seq<Seq<char>>, n: nat) -> Seq<
    Seq<placeholder::Cell>,
> {
    Seq::new(slots.len(), |k: int| slot_cells(slots[k], codes, n))
}

/// The slots one after the other, once the code below number `n` is put back.
spec fn stage(slots: Seq<Slot>, codes: Seq<Seq<char>>, n: nat) -> Seq<placeholder::Cell> {
    text::concat(slots_cells(slots, codes, n))
}

pub proof fn lemma_meant(n: nat, codes: Seq<Seq<char>>)
    requires
        n < codes.len(),
    ensures
        meant(digits::decimal(n), codes) == codes[n as int],
{
    let number = digits::decimal(n);
    let m = choose|m: nat| m < codes.len() && #[trigger] digits::decimal(m) == number;
    assert(m < codes.len() && digits::decimal(m) == number);
    digits::lemma_decimal_injective(m, n);
}

proof fn lemma_cells_concat(texts: Seq<Seq<char>>)
    ensures
        placeholder::cells(text::concat(texts)) == text::concat(
            Seq::new(texts.len(), |k: int| placeholder::cells(texts[k])),
        ),
    decreases texts.len(),
{
    let of = Seq::new(texts.len(), |k: int| placeholder::cells(texts[k]));
    if texts.len() == 0 {
        assert(placeholder::cells(text::concat(texts)) =~= text::concat(of));
    } else {
        let front = texts.drop_last();
        lemma_cells_concat(front);
        assert(of.drop_last() =~= Seq::new(front.len(), |k: int| placeholder::cells(front[k])));
        assert(placeholder::cells(text::concat(texts)) =~= text::concat(of));
    }
}

/// Before any code is put back, the slots hold what they read.
proof fn lemma_first_stage(slots: Seq<Slot>, codes: Seq<Seq<char>>)
    ensures
        stage(slots, codes, 0) == placeholder::cells(text::concat(written(slots))),
{
    let texts = written(slots);
    lemma_cells_concat(texts);
    assert(slots_cells(slots, codes, 0) =~= Seq::new(
        texts.len(),
        |k: int| placeholder::cells(texts[k]),
    ));
}

proof fn lemma_spelled_add(a: Seq<placeholder::Cell>, b: Seq<placeholder::Cell>)
    ensures
        placeholder::spelled(a + b) == placeholder::spelled(a) + placeholder::spelled(b),
{
    let texts_a = Seq::new(a.len(), |k: int| placeholder::cell_text(a[k]));
    let texts_b = Seq::new(b.len(), |k: int| placeholder::cell_text(b[k]));
    let both = a + b;
    text::lemma_concat_add(texts_a, texts_b);
    assert(texts_a + texts_b =~= Seq::new(both.len(), |k: int| placeholder::cell_text(both[k])));
}

proof fn lemma_spelled_one(cell: placeholder::Cell)
    ensures
        placeholder::spelled(seq![cell]) == placeholder::cell_text(cell),
{
    text::lemma_concat_one(placeholder::cell_text(cell));
    assert(Seq::new(seq![cell].len(), |k: int| placeholder::cell_text(seq![cell][k])) =~= seq![
        placeholder::cell_text(cell),
    ]);
}

proof fn lemma_spelled_cells(s: Seq<char>)
    ensures
        placeholder::spelled(placeholder::cells(s)) == s,
    decreases s.len(),
{
    if s.len() == 0 {
        assert(placeholder::spelled(placeholder::cells(s)) =~= s);
    } else {
        let front = s.drop_last();
        lemma_spelled_cells(front);
        let last = placeholder::char_cell(s.last());
        let split = placeholder::cells(front) + seq![last];
        assert forall|k: int| 0 <= k < s.len() implies #[trigger] placeholder::cells(s)[k]
            == split[k] by {
            if k < front.len() {
                assert(split[k] == placeholder::cells(front)[k]);
                assert(front[k] == s[k]);
            } else {
                assert(split[k] == last);
            }
        }
        assert(placeholder::cells(s) =~= split);
        lemma_spelled_add(placeholder::cells(front), seq![last]);
        lemma_spelled_one(last);
        assert(front + seq![s.last()] =~= s);
    }
}

proof fn lemma_spelled_concat(parts: Seq<Seq<placeholder::Cell>>)
    ensures
        placeholder::spelled(text::concat(parts)) == text::concat(
            Seq::new(parts.len(), |k: int| placeholder::spelled(parts[k])),
        ),
    decreases parts.len(),
{
    let of = Seq::new(parts.len(), |k: int| placeholder::spelled(parts[k]));
    if parts.len() == 0 {
        lemma_spelled_cells(Seq::empty());
        assert(text::concat(parts) =~= placeholder::cells(Seq::empty()));
        assert(text::concat(of) =~= Seq::empty());
    } else {
        let front = parts.drop_last();
        lemma_spelled_concat(front);
        lemma_spelled_add(text::concat(front), parts.last());
        assert(of.drop_last() =~= Seq::new(front.len(), |k: int| placeholder::spelled(front[k])));
    }
}

/// Once all code is put back, the slots read what they give.
proof fn lemma_last_stage(slots: Seq<Slot>, codes: Seq<Seq<char>>)
    ensures
        placeholder::spelled(stage(slots, codes, codes.len())) == text::concat(
            results(slots, codes),
        ),
{
    let parts = slots_cells(slots, codes, codes.len());
    lemma_spelled_concat(parts);
    let of = Seq::new(parts.len(), |k: int| placeholder::spelled(parts[k]));
    assert forall|k: int| 0 <= k < slots.len() implies #[trigger] of[k] == results(
        slots,
        codes,
    )[k] by {
        match slots[k] {
            Slot::Plain(plain) => {
                lemma_spelled_cells(plain);
            },
            Slot::Mark(number) => {
                if exists|m: nat| m < codes.len() && #[trigger] digits::decimal(m) == number {
                    lemma_spelled_one(placeholder::Cell::Code(meant(number, codes)));
                } else {
                    lemma_spelled_cells(placeholder::token_of(number));
                }
            },
        }
    }
    assert(of =~= results(slots, codes));
}

/// The list that holds a position, and where in it.
proof fn lemma_holder<T>(parts: Seq<Seq<T>>, p: int) -> (k: int)
    requires
        0 <= p < text::concat(parts).len(),
    ensures
        0 <= k < parts.len(),
        text::offset(parts, k) <= p < text::offset(parts, k + 1),
    decreases parts.len(),
{
    let last = parts.len() - 1;
    let front = parts.drop_last();
    assert(parts.take(last) =~= front);
    text::lemma_offset_ends(parts);
    if p < text::concat(front).len() {
        let k = lemma_holder(front, p);
        assert(front.take(k) =~= parts.take(k));
        assert(front.take(k + 1) =~= parts.take(k + 1));
        k
    } else {
        last
    }
}

/// Where two lists of texts differ only in some, a stretch that touches none of these
/// reads the same in both. It starts at position `q` of text `j`.
#[verifier::spinoff_prover]
#[verifier::rlimit(60)]
proof fn lemma_same_stretch<T>(
    a: Seq<Seq<T>>,
    b: Seq<Seq<T>>,
    differs: Seq<bool>,
    j: int,
    q: int,
    len: int,
)
    requires
        a.len() == b.len() == differs.len(),
        forall|k: int| 0 <= k < a.len() && !differs[k] ==> #[trigger] a[k] == b[k],
        forall|k: int| 0 <= k < a.len() && differs[k] ==> (#[trigger] a[k]).len() > 0,
        0 <= j < a.len(),
        0 <= q <= a[j].len(),
        q < a[j].len() || !differs[j],
        0 < len,
        text::offset(a, j) + q + len <= text::concat(a).len(),
        forall|k: int|
            0 <= k < a.len() && #[trigger] differs[k] ==> text::offset(a, k + 1) <= text::offset(
                a,
                j,
            ) + q || text::offset(a, j) + q + len <= text::offset(a, k),
    ensures
        text::offset(b, j) + q + len <= text::concat(b).len(),
        forall|x: int|
            0 <= x < len ==> #[trigger] text::concat(a)[text::offset(a, j) + q + x] == text::concat(
                b,
            )[text::offset(b, j) + q + x],
    decreases a.len() - j,
{
    text::lemma_offset(a, j);
    text::lemma_offset(b, j);
    let from = text::offset(a, j) + q;
    assert(!differs[j]);
    assert(a[j] == b[j]);
    let here = a[j].len() - q;
    let all = text::concat(a);
    let other = text::concat(b);
    let base = text::offset(a, j);
    let base_b = text::offset(b, j);
    assert forall|x: int| 0 <= x < len && x < here implies #[trigger] all[from + x] == other[base_b
        + q + x] by {
        assert(all.subrange(base, text::offset(a, j + 1))[q + x] == a[j][q + x]);
        assert(other.subrange(base_b, text::offset(b, j + 1))[q + x] == b[j][q + x]);
    }
    if here < len {
        text::lemma_offset_ends(a);
        assert(j + 1 < a.len());
        assert(text::offset(a, j + 1) == from + here);
        lemma_same_stretch(a, b, differs, j + 1, 0, len - here);
        assert forall|x: int| 0 <= x < len implies #[trigger] all[from + x] == other[base_b + q
            + x] by {
            if x >= here {
                assert(all[text::offset(a, j + 1) + 0 + (x - here)] == other[text::offset(b, j + 1)
                    + 0 + (x - here)]);
            }
        }
    }
}

/// When its turn comes, a token stands only where a slot holds it.
proof fn lemma_token_in_slot(
    slots: Seq<Slot>,
    codes: Seq<Seq<char>>,
    n: nat,
    p: int,
) -> (j: int)
    requires
        n < codes.len(),
        apart(slots, codes.len() as int),
        search::occurs_at(
            stage(slots, codes, n),
            p,
            placeholder::cells(placeholder::token(n)),
        ),
    ensures
        0 <= j < slots.len(),
        slots[j] == Slot::Mark(digits::decimal(n)),
        text::offset(slots_cells(slots, codes, n), j) == p,
{
    let a = slots_cells(slots, codes, n);
    let whole = text::concat(a);
    let b = slots_cells(slots, codes, 0);
    let name = placeholder::token(n);
    lemma_token_len(n);
    let j = lemma_holder(a, p);
    text::lemma_offset(a, j);
    let q = p - text::offset(a, j);
    let differs = Seq::new(slots.len(), |k: int| a[k] != b[k]);
    assert forall|x: int| p <= x < p + name.len() implies #[trigger] whole[x] is Char by {
        assert(whole.subrange(p, p + name.len())[x - p] == placeholder::cells(name)[x - p]);
    }
    assert forall|k: int| 0 <= k < a.len() && #[trigger] differs[k] implies text::offset(a, k + 1)
        <= p || p + name.len() <= text::offset(a, k) by {
        text::lemma_offset(a, k);
        assert(a[k] != b[k]);
        assert(a[k].len() == 1 && a[k][0] is Code);
        assert(whole.subrange(text::offset(a, k), text::offset(a, k + 1))[0] == a[k][0]);
        assert(whole[text::offset(a, k)] is Code);
    }
    assert forall|k: int| 0 <= k < a.len() && differs[k] implies (#[trigger] a[k]).len() > 0 by {
        assert(a[k] != b[k]);
    }
    lemma_same_stretch(a, b, differs, j, q, name.len() as int);
    let at = text::offset(b, j) + q;
    let first = text::concat(b);
    assert(first.subrange(at, at + name.len()) =~= placeholder::cells(name)) by {
        assert forall|x: int| 0 <= x < name.len() implies first.subrange(at, at + name.len())[x]
            == placeholder::cells(name)[x] by {
            assert(whole[text::offset(a, j) + q + x] == first[at + x]);
            assert(whole.subrange(p, p + name.len())[x] == placeholder::cells(name)[x]);
        }
    }
    lemma_first_stage(slots, codes);
    let text = text::concat(written(slots));
    assert(search::occurs_at(placeholder::cells(text), at, placeholder::cells(name)));
    lemma_occurs_cells(text, at, name);
    let k = choose|k: int| token_stands(slots, n, k, at);
    assert(token_stands(slots, n, k, at));
    lemma_cells_offset(slots, codes, k);
    lemma_cells_offset(slots, codes, j);
    text::lemma_offset(b, k);
    text::lemma_offset(b, j);
    assert(!differs[j]);
    assert(b[k] == placeholder::cells(name)) by {
        assert(slots[k] == Slot::Mark(digits::decimal(n)));
    }
    assert(k == j) by {
        if k < j {
            text::lemma_offset_order(b, k + 1, j);
        } else if j < k {
            text::lemma_offset_order(b, j + 1, k);
        }
    }
    j
}

/// Slots start at the same positions whether they are texts or cells.
proof fn lemma_cells_offset(slots: Seq<Slot>, codes: Seq<Seq<char>>, k: int)
    requires
        0 <= k <= slots.len(),
    ensures
        text::offset(slots_cells(slots, codes, 0), k) == text::offset(written(slots), k),
{
    let front = slots.take(k);
    lemma_first_stage(front, codes);
    assert(slots_cells(slots, codes, 0).take(k) =~= slots_cells(front, codes, 0));
    assert(written(slots).take(k) =~= written(front));
}

proof fn lemma_occurs_cells(s: Seq<char>, p: int, wanted: Seq<char>)
    ensures
        search::occurs_at(placeholder::cells(s), p, placeholder::cells(wanted))
            == search::occurs_at(s, p, wanted),
{
    let all = placeholder::cells(s);
    let name = placeholder::cells(wanted);
    if 0 <= p && p + wanted.len() <= s.len() {
        if s.subrange(p, p + wanted.len()) == wanted {
            assert forall|x: int| 0 <= x < wanted.len() implies all.subrange(p, p + wanted.len())[x]
                == name[x] by {
                assert(s.subrange(p, p + wanted.len())[x] == wanted[x]);
            }
            assert(all.subrange(p, p + wanted.len()) =~= name);
        }
        if all.subrange(p, p + wanted.len()) == name {
            assert forall|x: int| 0 <= x < wanted.len() implies s.subrange(p, p + wanted.len())[x]
                == wanted[x] by {
                assert(all.subrange(p, p + wanted.len())[x] == name[x]);
            }
            assert(s.subrange(p, p + wanted.len()) =~= wanted);
        }
    }
}

proof fn lemma_token_len(n: nat)
    ensures
        placeholder::token(n).len() > 7,
{
    reveal_strlit("__PH_");
    reveal_strlit("__");
    digits::lemma_decimal(n);
}

proof fn lemma_replaced_copy<T>(whole: Seq<T>, from: int, to: int, pattern: Seq<T>, by: Seq<T>)
    requires
        0 <= from <= to <= whole.len(),
        pattern.len() > 0,
        forall|p: int| from <= p < to ==> !#[trigger] search::occurs_at(whole, p, pattern),
    ensures
        search::replaced_from(whole, from, pattern, by) == whole.subrange(from, to)
            + search::replaced_from(whole, to, pattern, by),
    decreases to - from,
{
    if from < to {
        lemma_replaced_copy(whole, from + 1, to, pattern, by);
        assert(!search::occurs_at(whole, from, pattern));
    } else {
        assert(whole.subrange(from, to) =~= Seq::empty());
    }
    assert(search::replaced_from(whole, from, pattern, by) =~= whole.subrange(from, to)
        + search::replaced_from(whole, to, pattern, by));
}

/// What a slot holds changes with the turn of its own token only.
proof fn lemma_next_cells(slot: Slot, codes: Seq<Seq<char>>, n: nat)
    requires
        n < codes.len(),
    ensures
        slot == Slot::Mark(digits::decimal(n)) ==> slot_cells(slot, codes, n)
            == placeholder::cells(placeholder::token(n)) && slot_cells(slot, codes, n + 1) == seq![
            placeholder::Cell::Code(codes[n as int]),
        ],
        slot != Slot::Mark(digits::decimal(n)) ==> slot_cells(slot, codes, n + 1) == slot_cells(
            slot,
            codes,
            n,
        ),
{
    match slot {
        Slot::Plain(_) => {},
        Slot::Mark(number) => {
            if number == digits::decimal(n) {
                lemma_meant(n, codes);
                if exists|m: nat| m < n && #[trigger] digits::decimal(m) == number {
                    let m = choose|m: nat| m < n && #[trigger] digits::decimal(m) == number;
                    digits::lemma_decimal_injective(m, n);
                }
                assert(n < n + 1 && digits::decimal(n) == number);
            } else if exists|m: nat| m < n + 1 && #[trigger] digits::decimal(m) == number {
                let m = choose|m: nat| m < n + 1 && #[trigger] digits::decimal(m) == number;
                assert(m < n && digits::decimal(m) == number);
            } else {
                assert forall|m: nat| m < n implies #[trigger] digits::decimal(m) != number by {
                    assert(m < n + 1);
                }
            }
        },
    }
}

/// Putting one piece of code back leads from one stage to the next.
proof fn lemma_next_stage(slots: Seq<Slot>, codes: Seq<Seq<char>>, n: nat, k: int)
    requires
        n < codes.len(),
        0 <= k <= slots.len(),
        apart(slots, codes.len() as int),
    ensures
        search::replaced_from(
            stage(slots, codes, n),
            text::offset(slots_cells(slots, codes, n), k),
            placeholder::cells(placeholder::token(n)),
            seq![placeholder::Cell::Code(codes[n as int])],
        ) == text::concat(slots_cells(slots, codes, n + 1).skip(k)),
    decreases slots.len() - k,
{
    let here = slots_cells(slots, codes, n);
    let next = slots_cells(slots, codes, n + 1);
    let whole = stage(slots, codes, n);
    let name = placeholder::cells(placeholder::token(n));
    let by = seq![placeholder::Cell::Code(codes[n as int])];
    lemma_token_len(n);
    text::lemma_offset_ends(here);
    if k == slots.len() {
        assert(next.skip(k) =~= Seq::empty());
    } else {
        text::lemma_offset(here, k);
        lemma_next_stage(slots, codes, n, k + 1);
        lemma_next_cells(slots[k], codes, n);
        let from = text::offset(here, k);
        let to = text::offset(here, k + 1);
        assert(next.skip(k) =~= seq![next[k]] + next.skip(k + 1));
        text::lemma_concat_add(seq![next[k]], next.skip(k + 1));
        text::lemma_concat_one(next[k]);
        if slots[k] == Slot::Mark(digits::decimal(n)) {
            assert(search::occurs_at(whole, from, name));
        } else {
            assert forall|p: int| from <= p < to implies !#[trigger] search::occurs_at(
                whole,
                p,
                name,
            ) by {
                if search::occurs_at(whole, p, name) {
                    let j = lemma_token_in_slot(slots, codes, n, p);
                    lemma_next_cells(slots[j], codes, n);
                    text::lemma_offset(here, j);
                    if j < k {
                        text::lemma_offset_order(here, j + 1, k);
                    } else {
                        text::lemma_offset_order(here, k + 1, j);
                    }
                }
            }
            lemma_replaced_copy(whole, from, to, name, by);
        }
    }
}

proof fn lemma_restored_stages(slots: Seq<Slot>, codes: Seq<Seq<char>>, n: nat)
    requires
        n <= codes.len(),
        all_marked(slots, codes),
        apart(slots, codes.len() as int),
    ensures
        placeholder::restored_from(stage(slots, codes, n), codes, n as int) == Some(
            placeholder::spelled(stage(slots, codes, codes.len())),
        ),
    decreases codes.len() - n,
{
    if n < codes.len() {
        let here = slots_cells(slots, codes, n);
        let next = slots_cells(slots, codes, n + 1);
        let slot = Slot::Mark(digits::decimal(n));
        assert(slots.contains(slot));
        let k = slots.index_of(slot);
        assert(slots[k] == slot);
        lemma_next_cells(slot, codes, n);
        text::lemma_offset(here, k);
        assert(search::occurs_at(
            stage(slots, codes, n),
            text::offset(here, k),
            placeholder::cells(placeholder::token(n)),
        ));
        text::lemma_offset_ends(here);
        lemma_next_stage(slots, codes, n, 0);
        assert(next.skip(0) =~= next);
        lemma_restored_stages(slots, codes, n + 1);
    }
}

/// The code comes back into a translation. Take a translation that, its tokens written as
/// they are written here, consists of words and tokens in any order, with a token for each
/// piece of code. Then the code is put in the place of every token that stands for it, and
/// all else stays. This is so whatever the code spells, unless the words spell the token of
/// a piece of code by accident.
pub proof fn law_code_comes_back(translated: Seq<char>, slots: Seq<Slot>, codes: Seq<Seq<char>>)
    requires
        placeholder::normalised(translated) == text::concat(written(slots)),
        apart(slots, codes.len() as int),
        all_marked(slots, codes),
    ensures
        placeholder::restored(translated, codes) == Some(text::concat(results(slots, codes))),
{
    lemma_first_stage(slots, codes);
    lemma_restored_stages(slots, codes, 0);
    lemma_last_stage(slots, codes);
}

/// The code comes back whatever the code spells and whatever the translator did to the
/// words, to the order of the tokens, to their case and to the white space in them, and
/// also where it doubled a token, as long as it lost none.
pub proof fn law_code_comes_back_from_changed_tokens(
    texts: Seq<Seq<char>>,
    slots: Seq<Slot>,
    codes: Seq<Seq<char>>,
)
    requires
        shown_as(texts, slots),
        in_place(texts, slots),
        apart(slots, codes.len() as int),
        all_marked(slots, codes),
    ensures
        placeholder::restored(text::concat(texts), codes) == Some(
            text::concat(results(slots, codes)),
        ),
{
    law_changed_tokens_are_rewritten(texts, slots);
    law_code_comes_back(text::concat(texts), slots, codes);
}

/// What stands before the first piece of code that is put back stood there before.
proof fn lemma_replaced_start(
    left: Seq<placeholder::Cell>,
    i: int,
    pattern: Seq<placeholder::Cell>,
    code: Seq<char>,
    len: int,
)
    requires
        0 <= i <= left.len(),
        pattern.len() > 0,
        0 <= len <= search::replaced_from(left, i, pattern, seq![placeholder::Cell::Code(code)]).len(),
        forall|x: int|
            0 <= x < len ==> (#[trigger] search::replaced_from(
                left,
                i,
                pattern,
                seq![placeholder::Cell::Code(code)],
            )[x]) is Char,
    ensures
        i + len <= left.len(),
        search::replaced_from(left, i, pattern, seq![placeholder::Cell::Code(code)]).take(len)
            == left.subrange(i, i + len),
    decreases left.len() - i,
{
    let by = seq![placeholder::Cell::Code(code)];
    let after = search::replaced_from(left, i, pattern, by);
    if len > 0 {
        assert(after[0] is Char);
        if search::occurs_at(left, i, pattern) {
            assert(after[0] == by[0]);
        } else {
            let later = search::replaced_from(left, i + 1, pattern, by);
            assert(after == seq![left[i]] + later);
            assert forall|x: int| 0 <= x < len - 1 implies (#[trigger] later[x]) is Char by {
                assert(after[x + 1] == later[x]);
            }
            lemma_replaced_start(left, i + 1, pattern, code, len - 1);
            assert forall|x: int| 0 <= x < len implies after.take(len)[x] == left.subrange(
                i,
                i + len,
            )[x] by {
                if x > 0 {
                    assert(after[x] == later[x - 1]);
                    assert(later.take(len - 1)[x - 1] == left.subrange(i + 1, i + len)[x - 1]);
                }
            }
        }
    }
    assert(after.take(len) =~= left.subrange(i, i + len));
}

/// Putting code back brings no token about that was not there.
proof fn lemma_replaced_adds_nothing(
    left: Seq<placeholder::Cell>,
    i: int,
    pattern: Seq<placeholder::Cell>,
    code: Seq<char>,
    wanted: Seq<char>,
    p: int,
)
    requires
        0 <= i <= left.len(),
        pattern.len() > 0,
        wanted.len() > 0,
        search::occurs_at(
            search::replaced_from(left, i, pattern, seq![placeholder::Cell::Code(code)]),
            p,
            placeholder::cells(wanted),
        ),
    ensures
        search::contains(left, placeholder::cells(wanted)),
    decreases left.len() - i,
{
    let by = seq![placeholder::Cell::Code(code)];
    let after = search::replaced_from(left, i, pattern, by);
    let name = placeholder::cells(wanted);
    assert(after.subrange(p, p + name.len()) == name);
    if p == 0 {
        assert forall|x: int| 0 <= x < wanted.len() implies (#[trigger] after[x]) is Char by {
            assert(after.subrange(p, p + name.len())[x] == name[x]);
        }
        lemma_replaced_start(left, i, pattern, code, wanted.len() as int);
        assert(after.take(wanted.len() as int) =~= after.subrange(p, p + name.len()));
        assert(search::occurs_at(left, i, name));
    } else {
        assert(i < left.len());
        let step = if search::occurs_at(left, i, pattern) {
            pattern.len() as int
        } else {
            1
        };
        let later = search::replaced_from(left, i + step, pattern, by);
        assert(after.len() == 1 + later.len());
        assert forall|x: int| 0 <= x < later.len() implies later[x] == #[trigger] after[x + 1] by {}
        assert(later.subrange(p - 1, p - 1 + name.len()) =~= after.subrange(p, p + name.len()));
        lemma_replaced_adds_nothing(left, i + step, pattern, code, wanted, p - 1);
    }
}

proof fn lemma_lost(left: Seq<placeholder::Cell>, codes: Seq<Seq<char>>, n: int, lost: nat)
    requires
        0 <= n <= lost < codes.len(),
        !search::contains(left, placeholder::cells(placeholder::token(lost))),
    ensures
        placeholder::restored_from(left, codes, n) is None,
    decreases lost - n,
{
    let pattern = placeholder::cells(placeholder::token(n as nat));
    if n < lost && search::contains(left, pattern) {
        lemma_token_len(n as nat);
        lemma_token_len(lost);
        let by = seq![placeholder::Cell::Code(codes[n])];
        let after = search::replaced(left, pattern, by);
        let name = placeholder::cells(placeholder::token(lost));
        if search::contains(after, name) {
            let p = choose|p: int| search::occurs_at(after, p, name);
            lemma_replaced_adds_nothing(left, 0, pattern, codes[n], placeholder::token(lost), p);
        }
        lemma_lost(after, codes, n + 1, lost);
    }
}

/// A translation that has lost the token of a piece of code is refused, whatever the code
/// spells.
pub proof fn law_lost_token_is_noticed(translated: Seq<char>, codes: Seq<Seq<char>>, lost: nat)
    requires
        lost < codes.len(),
        !search::contains(placeholder::normalised(translated), placeholder::token(lost)),
    ensures
        placeholder::restored(translated, codes) is None,
{
    let left = placeholder::cells(placeholder::normalised(translated));
    let name = placeholder::token(lost);
    if search::contains(left, placeholder::cells(name)) {
        let p = choose|p: int| search::occurs_at(left, p, placeholder::cells(name));
        lemma_occurs_cells(placeholder::normalised(translated), p, name);
    }
    lemma_lost(left, codes, 0, lost);
}

/// Whether `PH_` in any case stands at a position, with a number behind it after any
/// white space. Every token has such a core.
pub open spec fn core_at(s: Seq<char>, c: int) -> bool {
    let from = pattern::white_end(s, c + 3);
    &&& 0 <= c
    &&& from < s.len()
    &&& s[c] == 'p' || s[c] == 'P'
    &&& s[c + 1] == 'h' || s[c + 1] == 'H'
    &&& s[c + 2] == '_'
    &&& pattern::decimal_digit(s[from])
}

/// Whether a text holds no core of a token.
pub open spec fn coreless(s: Seq<char>) -> bool {
    forall|c: int| !#[trigger] core_at(s, c)
}

/// Every token has a core.
proof fn lemma_mark_core(s: Seq<char>, i: int)
    requires
        pattern::mark_at(s, i) is Some,
    ensures
        core_at(s, core_of(s, i)),
{
    let core = pattern::white_end(s, i + 2);
    let from = pattern::white_end(s, core + 3);
    let to = pattern::digits_end(s, from);
    pattern::lemma_white_end(s, i + 2);
    pattern::lemma_white_end(s, core + 3);
    pattern::lemma_digits_end(s, from);
    pattern::lemma_white_end(s, to);
}

/// The letter `P` of a token, perhaps changed, stands at its core.
proof fn lemma_p_in_variant(part: Seq<char>, number: Seq<char>, x: int)
    requires
        variant(part, number),
        0 <= x < part.len(),
        part[x] == 'p' || part[x] == 'P',
    ensures
        x == core_of(part, 0),
{
    let core = pattern::white_end(part, 2);
    let from = pattern::white_end(part, core + 3);
    let to = pattern::digits_end(part, from);
    let close = pattern::white_end(part, to);
    pattern::lemma_white_end(part, 2);
    pattern::lemma_white_end(part, core + 3);
    pattern::lemma_digits_end(part, from);
    pattern::lemma_white_end(part, to);
    if x < core {
        assert(x < 2 || text::white_space(part[x]));
    } else if x > core {
        assert(x == core + 1 || x == core + 2 || text::white_space(part[x])
            || pattern::decimal_digit(part[x]) || x == close || x == close + 1);
    }
}

/// Where the text with the code put back holds no core of a token, each core before that
/// is the core of a token in a slot.
proof fn lemma_core_in_mark(
    texts: Seq<Seq<char>>,
    slots: Seq<Slot>,
    codes: Seq<Seq<char>>,
    c: int,
) -> (k: int)
    requires
        shown_as(texts, slots),
        core_at(text::concat(texts), c),
        coreless(text::concat(results(slots, codes))),
    ensures
        0 <= k < slots.len(),
        slots[k] is Mark,
        c == text::offset(texts, k) + core_of(texts[k], 0),
{
    let whole = text::concat(texts);
    let b = results(slots, codes);
    let e = pattern::white_end(whole, c + 3);
    pattern::lemma_white_end(whole, c + 3);
    assert forall|k: int| 0 <= k < slots.len() && slots[k] is Mark implies #[trigger] texts[k].len()
        > 7 && whole[text::offset(texts, k)] == '_' && whole[text::offset(texts, k) + 1] == '_' by {
        lemma_slot_mark(texts, slots, k);
    }
    if exists|k: int|
        0 <= k < slots.len() && (#[trigger] slots[k]) is Mark && text::offset(texts, k) <= c
            < text::offset(texts, k + 1) {
        let k = choose|k: int|
            0 <= k < slots.len() && (#[trigger] slots[k]) is Mark && text::offset(texts, k) <= c
                < text::offset(texts, k + 1);
        let part = texts[k];
        let at = text::offset(texts, k);
        text::lemma_offset(texts, k);
        lemma_char_local(whole, at, part, c - at);
        lemma_p_in_variant(part, slots[k]->Mark_0, c - at);
        k
    } else {
        let differs = Seq::new(slots.len(), |k: int| slots[k] is Mark);
        assert forall|k: int| 0 <= k < texts.len() && #[trigger] differs[k] implies text::offset(
            texts,
            k + 1,
        ) <= c || e < text::offset(texts, k) by {
            let at = text::offset(texts, k);
            text::lemma_offset(texts, k);
            assert(slots[k] is Mark);
            assert(texts[k].len() > 7);
            if c < at <= e {
                if at == c + 2 {
                    assert(whole[c + 3] == '_');
                } else if at >= c + 3 {
                    assert(whole[at] == '_');
                }
            }
        }
        assert forall|k: int| 0 <= k < texts.len() && !differs[k] implies #[trigger] texts[k]
            == b[k] by {
            assert(!(slots[k] is Mark));
        }
        assert forall|k: int| 0 <= k < texts.len() && differs[k] implies (#[trigger] texts[k]).len()
            > 0 by {
            assert(slots[k] is Mark);
        }
        let j = lemma_holder(texts, c);
        text::lemma_offset(texts, j);
        let q = c - text::offset(texts, j);
        lemma_same_stretch(texts, b, differs, j, q, e + 1 - c);
        let restored = text::concat(b);
        let d = text::offset(b, j) + q - c;
        text::lemma_offset(b, j);
        assert forall|p: int| c <= p <= e implies #[trigger] whole[p] == restored[p + d] by {
            assert(whole[text::offset(texts, j) + q + (p - c)] == restored[text::offset(b, j) + q + (
            p - c)]);
        }
        assert(restored[c + d] == whole[c]);
        assert(restored[c + d + 1] == whole[c + 1]);
        assert(restored[c + d + 2] == whole[c + 2]);
        assert(restored[e + d] == whole[e]);
        assert forall|p: int| c + d + 3 <= p < e + d implies text::white_space(
            #[trigger] restored[p],
        ) by {
            assert(whole[p - d] == restored[(p - d) + d]);
        }
        lemma_white_end_reaches(restored, c + d + 3, e + d);
        assert(core_at(restored, c + d));
        0
    }
}

/// Where the text with the code put back holds no core of a token, each token before that
/// is in a slot.
proof fn lemma_coreless_mark(
    texts: Seq<Seq<char>>,
    slots: Seq<Slot>,
    codes: Seq<Seq<char>>,
    x: int,
)
    requires
        shown_as(texts, slots),
        coreless(text::concat(results(slots, codes))),
        pattern::mark_at(text::concat(texts), x) is Some,
    ensures
        slot_at(texts, slots, x),
{
    let whole = text::concat(texts);
    lemma_mark_core(whole, x);
    let j = lemma_core_in_mark(texts, slots, codes, core_of(whole, x));
    let at = text::offset(texts, j);
    text::lemma_offset(texts, j);
    assert(variant(texts[j], slots[j]->Mark_0));
    lemma_mark_local(whole, at, texts[j], slots[j]->Mark_0);
    pattern::lemma_white_end(whole, x + 2);
    pattern::lemma_white_end(whole, at + 2);
    if x < at {
        assert(text::white_space(whole[at + 1]));
    } else if at < x {
        assert(text::white_space(whole[x + 1]));
    }
    assert(slot_stands(texts, slots, j, x));
}

/// Where each token is in a slot, the token of a slot is found behind any other.
proof fn lemma_slot_found(texts: Seq<Seq<char>>, slots: Seq<Slot>, k: int, i: int) -> (t: int)
    requires
        shown_as(texts, slots),
        forall|x: int| #[trigger]
            pattern::mark_at(text::concat(texts), x) is Some ==> slot_at(texts, slots, x),
        0 <= k < slots.len(),
        slots[k] is Mark,
        0 <= i <= text::offset(texts, k),
    ensures
        0 <= t < pattern::marks_from(text::concat(texts), i).len(),
        pattern::marks_from(text::concat(texts), i)[t].start == text::offset(texts, k),
    decreases text::offset(texts, k) - i,
{
    let s = text::concat(texts);
    let at = text::offset(texts, k);
    lemma_slot_mark(texts, slots, k);
    text::lemma_offset(texts, k);
    pattern::lemma_mark_at(s, i);
    if i == at {
        0
    } else {
        match pattern::mark_at(s, i) {
            None => lemma_slot_found(texts, slots, k, i + 1),
            Some(mark) => {
                assert(slot_at(texts, slots, i));
                let j = choose|j: int| slot_stands(texts, slots, j, i);
                lemma_slot_mark(texts, slots, j);
                text::lemma_offset(texts, j);
                if j < k {
                    text::lemma_offset_order(texts, j + 1, k);
                } else {
                    text::lemma_offset_order(texts, k, j);
                }
                let t = lemma_slot_found(texts, slots, k, mark.end);
                assert(pattern::marks_from(s, i)[t + 1] == pattern::marks_from(s, mark.end)[t]);
                t + 1
            },
        }
    }
}

proof fn lemma_coreless_in_place(texts: Seq<Seq<char>>, slots: Seq<Slot>, codes: Seq<Seq<char>>)
    requires
        shown_as(texts, slots),
        coreless(text::concat(results(slots, codes))),
    ensures
        in_place(texts, slots),
{
    let s = text::concat(texts);
    let marks = pattern::marks_from(s, 0);
    assert forall|x: int| #[trigger] pattern::mark_at(s, x) is Some implies slot_at(
        texts,
        slots,
        x,
    ) by {
        lemma_coreless_mark(texts, slots, codes, x);
    }
    assert forall|k: int| 0 <= k < slots.len() && slots[k] is Mark implies found_at(
        s,
        #[trigger] text::offset(texts, k),
    ) by {
        text::lemma_offset(texts, k);
        let t = lemma_slot_found(texts, slots, k, 0);
        assert(marks[t].start == text::offset(texts, k));
    }
    pattern::lemma_marks_order(s, 0);
    assert forall|t: int| 0 <= t < marks.len() implies slot_at(
        texts,
        slots,
        (#[trigger] marks[t]).start,
    ) by {
        assert(pattern::mark_at(s, marks[t].start) is Some);
    }
}

/// Where the text with the code put back holds no core of a token, no token is spelled by
/// accident before that.
proof fn lemma_coreless_apart(slots: Seq<Slot>, codes: Seq<Seq<char>>)
    requires
        shown_as(written(slots), slots),
        coreless(text::concat(results(slots, codes))),
    ensures
        apart(slots, codes.len() as int),
{
    let texts = written(slots);
    let whole = text::concat(texts);
    assert forall|n: nat, p: int|
        n < codes.len() && #[trigger] search::occurs_at(
            whole,
            p,
            placeholder::token(n),
        ) implies exists|k: int| token_stands(slots, n, k, p) by {
        lemma_token_variant(n);
        lemma_mark_local(whole, p, placeholder::token(n), digits::decimal(n));
        lemma_coreless_mark(texts, slots, codes, p);
        let k = choose|k: int| slot_stands(texts, slots, k, p);
        lemma_slot_mark(texts, slots, k);
        assert(token_stands(slots, n, k, p));
    }
}

/// The slots of a text whose code is hidden.
pub open spec fn slots_of(parts: Seq<placeholder::Part>) -> Seq<Slot>
    decreases parts.len(),
{
    if parts.len() == 0 {
        Seq::empty()
    } else {
        let before = parts.drop_last();
        match parts.last() {
            placeholder::Part::Plain(plain) => slots_of(before).push(Slot::Plain(plain)),
            placeholder::Part::Code(_) => slots_of(before).push(
                Slot::Mark(digits::decimal(placeholder::codes(before).len())),
            ),
        }
    }
}

/// The parts of a text one after the other.
pub open spec fn original(parts: Seq<placeholder::Part>) -> Seq<char>
    decreases parts.len(),
{
    if parts.len() == 0 {
        Seq::empty()
    } else {
        match parts.last() {
            placeholder::Part::Plain(plain) => original(parts.drop_last()) + plain,
            placeholder::Part::Code(code) => original(parts.drop_last()) + code,
        }
    }
}

proof fn lemma_slots_of(parts: Seq<placeholder::Part>, codes: Seq<Seq<char>>)
    requires
        placeholder::codes(parts).len() <= codes.len(),
        placeholder::codes(parts) == codes.take(placeholder::codes(parts).len() as int),
    ensures
        text::concat(written(slots_of(parts))) == placeholder::hidden(parts),
        text::concat(results(slots_of(parts), codes)) == original(parts),
        shown_as(written(slots_of(parts)), slots_of(parts)),
        forall|n: nat|
            n < placeholder::codes(parts).len() ==> slots_of(parts).contains(
                Slot::Mark(#[trigger] digits::decimal(n)),
            ),
    decreases parts.len(),
{
    if parts.len() > 0 {
        let before = parts.drop_last();
        let slots = slots_of(parts);
        let fewer = slots_of(before);
        let count = placeholder::codes(before).len();
        assert(placeholder::codes(before) =~= codes.take(count as int));
        lemma_slots_of(before, codes);
        assert(slots.drop_last() =~= fewer);
        assert(written(slots).drop_last() =~= written(fewer));
        assert(results(slots, codes).drop_last() =~= results(fewer, codes));
        match parts.last() {
            placeholder::Part::Plain(_) => {},
            placeholder::Part::Code(code) => {
                assert(placeholder::codes(parts).last() == code);
                assert(codes[count as int] == code);
                lemma_meant(count, codes);
                lemma_token_variant(count);
            },
        }
        assert forall|k: int| 0 <= k < slots.len() implies match slots[k] {
            Slot::Plain(plain) => #[trigger] written(slots)[k] == plain,
            Slot::Mark(number) => variant(written(slots)[k], number),
        } by {
            if k < fewer.len() {
                assert(slots[k] == fewer[k]);
                assert(written(slots)[k] == written(fewer)[k]);
            }
        }
        assert forall|m: nat| m < placeholder::codes(parts).len() implies slots.contains(
            Slot::Mark(#[trigger] digits::decimal(m)),
        ) by {
            let slot = Slot::Mark(digits::decimal(m));
            if m < count {
                assert(fewer.contains(slot));
                let k = fewer.index_of(slot);
                assert(slots[k] == slot);
            } else {
                assert(slots[slots.len() - 1] == slot);
            }
        }
    }
}

proof fn lemma_original_add(a: Seq<placeholder::Part>, b: Seq<placeholder::Part>)
    ensures
        original(a + b) == original(a) + original(b),
    decreases b.len(),
{
    if b.len() == 0 {
        assert(a + b =~= a);
    } else {
        assert((a + b).drop_last() =~= a + b.drop_last());
        lemma_original_add(a, b.drop_last());
        assert(original(a + b) =~= original(a) + original(b));
    }
}

proof fn lemma_parts_original(s: Seq<char>, from: int, spans: Seq<(int, int)>)
    requires
        0 <= from <= s.len(),
        pattern::in_order(spans, s.len() as int),
        spans.len() > 0 ==> from <= spans[0].0,
    ensures
        original(placeholder::parts_from(s, from, spans)) == s.subrange(from, s.len() as int),
    decreases spans.len(),
{
    let none = Seq::<placeholder::Part>::empty();
    assert(original(none) =~= Seq::empty());
    if spans.len() == 0 {
        let tail = placeholder::Part::Plain(s.subrange(from, s.len() as int));
        assert(seq![tail].drop_last() =~= none);
        assert(original(seq![tail]) =~= s.subrange(from, s.len() as int));
    } else {
        let span = spans[0];
        let rest = spans.skip(1);
        let plain = placeholder::Part::Plain(s.subrange(from, span.0));
        let code = placeholder::code_part(s.subrange(span.0, span.1));
        pattern::lemma_in_order_rest(spans, s.len() as int);
        lemma_parts_original(s, span.1, rest);
        assert(seq![plain].drop_last() =~= none);
        assert(original(seq![plain]) =~= s.subrange(from, span.0));
        assert(seq![plain, code].drop_last() =~= seq![plain]);
        assert(original(seq![plain, code]) =~= s.subrange(from, span.1));
        lemma_original_add(seq![plain, code], placeholder::parts_from(s, span.1, rest));
        assert(s.subrange(from, span.1) + s.subrange(span.1, s.len() as int) =~= s.subrange(
            from,
            s.len() as int,
        ));
    }
}

/// Whether a text, with its code hidden, holds only tokens that are told apart: all are
/// written as they are written here, and those for the code stand nowhere else.
pub open spec fn unambiguous(parts: Seq<placeholder::Part>) -> bool {
    &&& placeholder::normalised(placeholder::hidden(parts)) == placeholder::hidden(parts)
    &&& apart(slots_of(parts), placeholder::codes(parts).len() as int)
}

/// The parts of a text make it up.
pub proof fn law_parts_make_up_the_text(s: Seq<char>, spans: Seq<(int, int)>)
    requires
        pattern::in_order(spans, s.len() as int),
    ensures
        original(placeholder::parts(s, spans)) == s,
{
    lemma_parts_original(s, 0, spans);
    assert(s.subrange(0, s.len() as int) =~= s);
}

proof fn lemma_codeless_hidden(parts: Seq<placeholder::Part>)
    requires
        placeholder::codes(parts).len() == 0,
    ensures
        placeholder::hidden(parts) == original(parts),
    decreases parts.len(),
{
    if parts.len() > 0 {
        lemma_codeless_hidden(parts.drop_last());
    }
}

/// A text in which no code is found stays as it is.
pub proof fn law_codeless_text_stays(s: Seq<char>, spans: Seq<(int, int)>)
    requires
        pattern::in_order(spans, s.len() as int),
    ensures
        placeholder::codes(placeholder::parts(s, spans)).len() == 0 ==> placeholder::hidden(
            placeholder::parts(s, spans),
        ) == s,
{
    let parts = placeholder::parts(s, spans);
    law_parts_make_up_the_text(s, spans);
    if placeholder::codes(parts).len() == 0 {
        lemma_codeless_hidden(parts);
    }
}

/// Each piece of code is one of the parts.
proof fn lemma_code_is_part(parts: Seq<placeholder::Part>, k: int) -> (j: int)
    requires
        0 <= k < placeholder::codes(parts).len(),
    ensures
        0 <= j < parts.len(),
        parts[j] == placeholder::Part::Code(placeholder::codes(parts)[k]),
    decreases parts.len(),
{
    let before = parts.drop_last();
    if k < placeholder::codes(before).len() {
        lemma_code_is_part(before, k)
    } else {
        parts.len() - 1
    }
}

/// Whether a part, if it is code, holds no token, and is not empty unless some stretch is.
spec fn proper(part: placeholder::Part, spans: Seq<(int, int)>) -> bool {
    part matches placeholder::Part::Code(code) ==> !placeholder::holds_token(code) && (
    pattern::none_empty(spans) ==> code.len() > 0)
}

proof fn lemma_parts_proper(s: Seq<char>, from: int, spans: Seq<(int, int)>)
    requires
        pattern::in_order(spans, s.len() as int),
    ensures
        forall|k: int|
            0 <= k < placeholder::parts_from(s, from, spans).len() ==> proper(
                #[trigger] placeholder::parts_from(s, from, spans)[k],
                spans,
            ),
    decreases spans.len(),
{
    if spans.len() > 0 {
        let span = spans[0];
        let later = spans.skip(1);
        pattern::lemma_in_order_rest(spans, s.len() as int);
        if pattern::none_empty(spans) {
            assert forall|k: int| 0 <= k < later.len() implies (#[trigger] later[k]).0
                < later[k].1 by {
                assert(spans[k + 1].0 < spans[k + 1].1);
            }
            assert(pattern::none_empty(later));
        }
        let tail = placeholder::parts_from(s, span.1, later);
        lemma_parts_proper(s, span.1, later);
        let head = seq![
            placeholder::Part::Plain(s.subrange(from, span.0)),
            placeholder::code_part(s.subrange(span.0, span.1)),
        ];
        assert(placeholder::parts_from(s, from, spans) == head + tail);
        assert forall|k: int| 0 <= k < (head + tail).len() implies proper(
            #[trigger] (head + tail)[k],
            spans,
        ) by {
            if k >= 2 {
                assert((head + tail)[k] == tail[k - 2]);
                assert(proper(tail[k - 2], later));
            }
        }
    }
}

/// A stretch that already holds a token is never hidden behind another.
pub proof fn law_tokens_are_not_hidden(s: Seq<char>, spans: Seq<(int, int)>)
    requires
        pattern::in_order(spans, s.len() as int),
    ensures
        forall|k: int|
            0 <= k < placeholder::codes(placeholder::parts(s, spans)).len()
                ==> !placeholder::holds_token(
                #[trigger] placeholder::codes(placeholder::parts(s, spans))[k],
            ),
{
    let parts = placeholder::parts(s, spans);
    lemma_parts_proper(s, 0, spans);
    assert forall|k: int| 0 <= k < placeholder::codes(parts).len() implies !placeholder::holds_token(
        #[trigger] placeholder::codes(parts)[k],
    ) by {
        let j = lemma_code_is_part(parts, k);
        assert(proper(parts[j], spans));
    }
}

/// What is hidden is not empty, if no stretch of code is.
pub proof fn law_hidden_code_is_not_empty(s: Seq<char>, spans: Seq<(int, int)>)
    requires
        pattern::in_order(spans, s.len() as int),
        pattern::none_empty(spans),
    ensures
        forall|k: int|
            0 <= k < placeholder::codes(placeholder::parts(s, spans)).len() ==> (
            #[trigger] placeholder::codes(placeholder::parts(s, spans))[k]).len() > 0,
{
    let parts = placeholder::parts(s, spans);
    lemma_parts_proper(s, 0, spans);
    assert forall|k: int| 0 <= k < placeholder::codes(parts).len() implies (
    #[trigger] placeholder::codes(parts)[k]).len() > 0 by {
        let j = lemma_code_is_part(parts, k);
        assert(proper(parts[j], spans));
    }
}

/// What was hidden comes back: with its code hidden and put back, a text is what it was,
/// for every choice of code and whatever the code spells. This is so unless the words of
/// the text spell a token of their own that stands for some of its code, or that is written
/// in another way.
pub proof fn law_protected_text_comes_back(s: Seq<char>, spans: Seq<(int, int)>)
    requires
        pattern::in_order(spans, s.len() as int),
        unambiguous(placeholder::parts(s, spans)),
    ensures
        placeholder::restored(
            placeholder::hidden(placeholder::parts(s, spans)),
            placeholder::codes(placeholder::parts(s, spans)),
        ) == Some(s),
{
    let parts = placeholder::parts(s, spans);
    let codes = placeholder::codes(parts);
    assert(codes.take(codes.len() as int) =~= codes);
    lemma_slots_of(parts, codes);
    law_parts_make_up_the_text(s, spans);
    law_code_comes_back(placeholder::hidden(parts), slots_of(parts), codes);
}

/// A text that holds no `PH_` before a number, in any case, is unambiguous for every choice
/// of code. So it is what it was once its code is hidden and put back.
pub proof fn law_coreless_text_comes_back(s: Seq<char>, spans: Seq<(int, int)>)
    requires
        pattern::in_order(spans, s.len() as int),
        coreless(s),
    ensures
        unambiguous(placeholder::parts(s, spans)),
        placeholder::restored(
            placeholder::hidden(placeholder::parts(s, spans)),
            placeholder::codes(placeholder::parts(s, spans)),
        ) == Some(s),
{
    let parts = placeholder::parts(s, spans);
    let codes = placeholder::codes(parts);
    assert(codes.take(codes.len() as int) =~= codes);
    lemma_slots_of(parts, codes);
    law_parts_make_up_the_text(s, spans);
    lemma_coreless_in_place(written(slots_of(parts)), slots_of(parts), codes);
    law_changed_tokens_are_rewritten(written(slots_of(parts)), slots_of(parts));
    lemma_coreless_apart(slots_of(parts), codes);
    law_protected_text_comes_back(s, spans);
}

/// Whether a token stands in a text: `__PH_` at position `a`, one or more digits up to
/// position `d`, and two underscores.
pub open spec fn token_between(s: Seq<char>, a: int, d: int) -> bool {
    &&& 0 <= a
    &&& a + 5 < d
    &&& d + 2 <= s.len()
    &&& s[a] == '_' && s[a + 1] == '_' && s[a + 2] == 'P' && s[a + 3] == 'H' && s[a + 4] == '_'
    &&& forall|k: int| a + 5 <= k < d ==> pattern::decimal_digit(#[trigger] s[k])
    &&& s[d] == '_' && s[d + 1] == '_'
}

/// A text holds a token if and only if one stands in it somewhere.
pub proof fn law_tokens_are_recognised(s: Seq<char>)
    ensures
        placeholder::holds_token(s) <==> exists|a: int, d: int| #[trigger] token_between(s, a, d),
{
    reveal_strlit("__PH_");
    reveal_strlit("__");
    if placeholder::holds_token(s) {
        let (a, b) = choose|a: int, b: int|
            0 <= a <= b <= s.len() && pattern::token_like(#[trigger] s.subrange(a, b));
        let part = s.subrange(a, b);
        assert(pattern::token_like(part));
        assert forall|k: int| 0 <= k < 5 implies s[a + k] == #[trigger] "__PH_"@[k] by {
            assert(part.take(5)[k] == part[k]);
        }
        assert(s[a] == "__PH_"@[0] && s[a + 1] == "__PH_"@[1] && s[a + 2] == "__PH_"@[2]);
        assert(s[a + 3] == "__PH_"@[3] && s[a + 4] == "__PH_"@[4]);
        assert(part.skip(part.len() - 2)[0] == "__"@[0] && part.skip(part.len() - 2)[1] == "__"@[1]);
        assert forall|k: int| a + 5 <= k < b - 2 implies pattern::decimal_digit(#[trigger] s[k]) by {
            assert(part[k - a] == s[k]);
        }
        assert(token_between(s, a, b - 2));
    }
    if exists|a: int, d: int| #[trigger] token_between(s, a, d) {
        let (a, d) = choose|a: int, d: int| #[trigger] token_between(s, a, d);
        let part = s.subrange(a, d + 2);
        assert(part.take(5) =~= "__PH_"@);
        assert(part.skip(part.len() - 2) =~= "__"@);
        assert forall|k: int| 5 <= k < part.len() - 2 implies pattern::decimal_digit(
            #[trigger] part[k],
        ) by {
            assert(s[a + k] == part[k]);
        }
        assert(pattern::token_like(part));
    }
}

proof fn lemma_parts_push(s: Seq<char>, from: int, spans: Seq<(int, int)>, a: int, b: int)
    requires
        0 <= from <= a <= b <= s.len(),
        pattern::in_order(spans.push((a, b)), s.len() as int),
        spans.len() > 0 ==> from <= spans[0].0,
    ensures
        placeholder::parts_from(s, from, spans.push((a, b))) == placeholder::parts_from(
            s.take(a),
            from,
            spans,
        ) + seq![
            placeholder::code_part(s.subrange(a, b)),
            placeholder::Part::Plain(s.subrange(b, s.len() as int)),
        ],
    decreases spans.len(),
{
    let all = spans.push((a, b));
    let front = s.take(a);
    let added = seq![
        placeholder::code_part(s.subrange(a, b)),
        placeholder::Part::Plain(s.subrange(b, s.len() as int)),
    ];
    if spans.len() == 0 {
        assert(all[0] == (a, b));
        assert(all.skip(1) =~= Seq::empty());
        assert(front.subrange(from, a) =~= s.subrange(from, a));
        assert(placeholder::parts_from(s, b, all.skip(1)) =~= seq![
            placeholder::Part::Plain(s.subrange(b, s.len() as int)),
        ]);
        assert(placeholder::parts_from(s, from, all) =~= placeholder::parts_from(front, from, spans)
            + added);
    } else {
        let span = spans[0];
        assert(all[0] == span);
        assert(all[0].0 <= all[0].1);
        assert(all[0].1 <= all[all.len() - 1].0);
        assert(all.skip(1) =~= spans.skip(1).push((a, b)));
        pattern::lemma_in_order_rest(all, s.len() as int);
        if spans.len() > 1 {
            assert(all.skip(1)[0] == spans.skip(1)[0]);
        }
        lemma_parts_push(s, span.1, spans.skip(1), a, b);
        assert(front.subrange(from, span.0) =~= s.subrange(from, span.0));
        assert(front.subrange(span.0, span.1) =~= s.subrange(span.0, span.1));
        assert(placeholder::parts_from(s, from, all) =~= placeholder::parts_from(front, from, spans)
            + added);
    }
}

/// Hiding is done stretch by stretch. Without stretches nothing is hidden. With one more at
/// the end, what is before it is hidden as before. Then comes a token with the number of the
/// code that was hidden so far, and the stretch joins the code. A stretch that holds a token
/// stays instead. What is behind it stays as well.
pub proof fn law_each_stretch_is_hidden(s: Seq<char>, spans: Seq<(int, int)>, a: int, b: int)
    requires
        0 <= a <= b <= s.len(),
        pattern::in_order(spans.push((a, b)), s.len() as int),
    ensures
        placeholder::hidden(placeholder::parts(s, Seq::empty())) == s,
        placeholder::codes(placeholder::parts(s, Seq::empty())).len() == 0,
        ({
            let before = placeholder::parts(s.take(a), spans);
            let after = placeholder::parts(s, spans.push((a, b)));
            let stretch = s.subrange(a, b);
            if placeholder::holds_token(stretch) {
                &&& placeholder::hidden(after) == placeholder::hidden(before) + stretch + s.skip(b)
                &&& placeholder::codes(after) == placeholder::codes(before)
            } else {
                &&& placeholder::hidden(after) == placeholder::hidden(before) + ("__PH_"@
                    + digits::decimal(placeholder::codes(before).len()) + "__"@) + s.skip(b)
                &&& placeholder::codes(after) == placeholder::codes(before).push(stretch)
            }
        }),
{
    let none = Seq::<(int, int)>::empty();
    let whole = placeholder::Part::Plain(s.subrange(0, s.len() as int));
    assert(placeholder::parts(s, none) =~= seq![whole]);
    assert(seq![whole].drop_last() =~= Seq::empty());
    assert(s.subrange(0, s.len() as int) =~= s);
    let nothing = Seq::<placeholder::Part>::empty();
    assert(placeholder::hidden(nothing) == Seq::<char>::empty());
    assert(placeholder::codes(nothing) == Seq::<Seq<char>>::empty());
    assert(placeholder::hidden(seq![whole]) =~= s);
    assert(placeholder::codes(seq![whole]) =~= Seq::empty());
    if spans.len() > 0 {
        assert(spans.push((a, b))[0] == spans[0]);
        assert(0 <= spans.push((a, b))[0].0);
    }
    lemma_parts_push(s, 0, spans, a, b);
    let before = placeholder::parts(s.take(a), spans);
    let after = placeholder::parts(s, spans.push((a, b)));
    let middle = before.push(placeholder::code_part(s.subrange(a, b)));
    assert(after.drop_last() =~= middle);
    assert(after.last() == placeholder::Part::Plain(s.subrange(b, s.len() as int)));
    assert(s.subrange(b, s.len() as int) =~= s.skip(b));
    assert(middle.drop_last() =~= before);
    assert(middle.last() == placeholder::code_part(s.subrange(a, b)));
    assert(placeholder::hidden(after) == placeholder::hidden(middle) + s.skip(b));
    assert(placeholder::codes(after) == placeholder::codes(middle));
}

/// The stretches of a text that hold no token, in order.
pub open spec fn tokenless(s: Seq<char>, spans: Seq<(int, int)>) -> Seq<Seq<char>> {
    spans.filter(
        |span: (int, int)| !placeholder::holds_token(s.subrange(span.0, span.1)),
    ).map_values(|span: (int, int)| s.subrange(span.0, span.1))
}

proof fn lemma_tokenless_push(s: Seq<char>, spans: Seq<(int, int)>, span: (int, int))
    ensures
        tokenless(s, spans.push(span)) == if placeholder::holds_token(s.subrange(span.0, span.1)) {
            tokenless(s, spans)
        } else {
            tokenless(s, spans).push(s.subrange(span.0, span.1))
        },
{
    reveal(Seq::filter);
    assert(spans.push(span).drop_last() =~= spans);
    let keep = |span: (int, int)| !placeholder::holds_token(s.subrange(span.0, span.1));
    let cut = |span: (int, int)| s.subrange(span.0, span.1);
    if keep(span) {
        assert(spans.push(span).filter(keep) =~= spans.filter(keep).push(span));
        assert(spans.filter(keep).push(span).map_values(cut) =~= spans.filter(keep).map_values(
            cut,
        ).push(cut(span)));
    } else {
        assert(spans.push(span).filter(keep) =~= spans.filter(keep));
    }
}

proof fn lemma_codes_tokenless(s: Seq<char>, end: int, spans: Seq<(int, int)>)
    requires
        0 <= end <= s.len(),
        pattern::in_order(spans, end),
    ensures
        placeholder::codes(placeholder::parts(s.take(end), spans)) == tokenless(s, spans),
    decreases spans.len(),
{
    let t = s.take(end);
    if spans.len() == 0 {
        assert(spans =~= Seq::empty());
        assert(pattern::in_order(spans.push((end, end)), t.len() as int));
        law_each_stretch_is_hidden(t, spans, end, end);
        reveal(Seq::filter);
        assert(tokenless(s, spans) =~= Seq::empty());
        assert(placeholder::codes(placeholder::parts(t, spans)) =~= Seq::empty());
    } else {
        let before = spans.drop_last();
        let (a, b) = spans.last();
        assert(spans =~= before.push((a, b)));
        assert(spans[spans.len() - 1] == (a, b));
        assert(pattern::in_order(before, a)) by {
            assert forall|k: int| 0 <= k < before.len() implies 0 <= (#[trigger] before[k]).0
                <= before[k].1 <= a by {
                assert(spans[k].1 <= spans[spans.len() - 1].0);
            }
            assert forall|j: int, k: int| 0 <= j < k < before.len() implies (
            #[trigger] before[j]).1 <= (#[trigger] before[k]).0 by {
                assert(spans[j].1 <= spans[k].0);
            }
        }
        lemma_codes_tokenless(s, a, before);
        law_each_stretch_is_hidden(t, before, a, b);
        assert(t.take(a) =~= s.take(a));
        assert(t.subrange(a, b) =~= s.subrange(a, b));
        lemma_tokenless_push(s, before, (a, b));
    }
}

/// Every stretch of code is hidden, unless it holds a token: the code that is hidden is the
/// list of all stretches without those that do, in order.
pub proof fn law_all_code_is_hidden(s: Seq<char>, spans: Seq<(int, int)>)
    requires
        pattern::in_order(spans, s.len() as int),
    ensures
        placeholder::codes(placeholder::parts(s, spans)) == tokenless(s, spans),
        placeholder::codes(placeholder::parts(s, spans)).len() == spans.filter(
            |span: (int, int)| !placeholder::holds_token(s.subrange(span.0, span.1)),
        ).len(),
{
    lemma_codes_tokenless(s, s.len() as int, spans);
    assert(s.take(s.len() as int) =~= s);
}

} // verus!

//! Gathering short texts into batches that share one request.
use vstd::prelude::*;
use vstd::string::StrSliceExecFns;
use crate::text;

verus! {

/// The most texts in one batch.
pub const BATCH_MAX_TEXTS: usize = 8;

/// The most characters in a batch of several texts, the newlines between them
/// counted.
pub const BATCH_MAX_CHARS: usize = 3000;

/// The numbers from `from` up to `to`.
pub open spec fn run(from: int, to: int) -> Seq<usize> {
    Seq::new((to - from) as nat, |k: int| (from + k) as usize)
}

/// Whether a batch of the texts from `start` up to `i` is closed before text `i`:
/// it is full, or with that text it would hold too many characters.
pub open spec fn closes(texts: Seq<Seq<char>>, start: int, i: int) -> bool {
    &&& start < i
    &&& i - start >= BATCH_MAX_TEXTS || text::join_lines(texts.subrange(start, i + 1)).len()
        > BATCH_MAX_CHARS
}

/// The batches of the texts from `start` on, where the texts up to `i` go into
/// the first.
pub open spec fn batches_from(texts: Seq<Seq<char>>, start: int, i: int) -> Seq<Seq<usize>>
    decreases texts.len() - i,
{
    if i >= texts.len() {
        if start < i {
            seq![run(start, i)]
        } else {
            Seq::empty()
        }
    } else if closes(texts, start, i) {
        seq![run(start, i)] + batches_from(texts, i, i + 1)
    } else {
        batches_from(texts, start, i + 1)
    }
}

/// The texts gathered into batches, as lists of their positions.
pub open spec fn batches(texts: Seq<Seq<char>>) -> Seq<Seq<usize>> {
    batches_from(texts, 0, 0)
}

/// What each of a list of lists holds.
pub open spec fn lists(of: Seq<Vec<usize>>) -> Seq<Seq<usize>> {
    Seq::new(of.len(), |k: int| of[k]@)
}

/// Gathers texts into batches of at most [`BATCH_MAX_TEXTS`] texts. A batch of
/// more than one holds at most [`BATCH_MAX_CHARS`] characters.
pub fn split_into_batches(texts: &[String]) -> (found: Vec<Vec<usize>>)
    ensures
        lists(found@) == batches(text::views(texts@)),
{
    let ghost all = text::views(texts@);
    let mut found: Vec<Vec<usize>> = Vec::new();
    let mut current: Vec<usize> = Vec::new();
    let mut current_len: usize = 0;
    let mut i: usize = 0;
    let ghost mut start: int = 0;
    assert(lists(found@) + batches_from(all, 0, 0) =~= batches(all));
    assert(current@ =~= run(0, 0));
    while i < texts.len()
        invariant
            all == text::views(texts@),
            0 <= start <= i <= texts@.len(),
            current@ == run(start, i as int),
            current_len == text::join_lines(all.subrange(start, i as int)).len(),
            lists(found@) + batches_from(all, start, i as int) == batches(all),
        decreases texts@.len() - i,
    {
        let len = texts[i].as_str().unicode_len();
        proof {
            assert(all.subrange(start, i + 1) =~= all.subrange(start, i as int).push(all[i as int]));
            if start < i {
                text::lemma_join_lines_push(all.subrange(start, i as int), all[i as int]);
            }
        }
        if current.len() > 0 && (current.len() >= BATCH_MAX_TEXTS || current_len >= BATCH_MAX_CHARS
            || len >= BATCH_MAX_CHARS - current_len) {
            let ghost before = lists(found@);
            found.push(current);
            assert(lists(found@) =~= before.push(run(start, i as int)));
            assert(lists(found@) + batches_from(all, i as int, i + 1) =~= before + (seq![
                run(start, i as int),
            ] + batches_from(all, i as int, i + 1)));
            current = Vec::new();
            current_len = 0;
            proof {
                start = i as int;
                assert(all.subrange(start, i + 1) =~= seq![all[i as int]]);
            }
        }
        if current.len() > 0 {
            current_len += 1;
        }
        current.push(i);
        current_len += len;
        i += 1;
        assert(current@ =~= run(start, i as int));
    }
    if current.len() > 0 {
        let ghost before = lists(found@);
        found.push(current);
        assert(lists(found@) =~= before.push(run(start, i as int)));
    }
    assert(lists(found@) =~= batches(all));
    found
}

/// Whether the positions from `from` up to `to` are dealt out to the batches in
/// order, with no batch left empty.
pub open spec fn dealt(batches: Seq<Seq<usize>>, from: int, to: int) -> bool
    decreases batches.len(),
{
    if batches.len() == 0 {
        from == to
    } else {
        let size = batches[0].len() as int;
        &&& size > 0
        &&& from + size <= to
        &&& batches[0] == run(from, from + size)
        &&& dealt(batches.skip(1), from + size, to)
    }
}

/// Whether every position in the batches is less than `to`.
pub open spec fn below(batches: Seq<Seq<usize>>, to: int) -> bool {
    forall|b: int, k: int|
        0 <= b < batches.len() && 0 <= k < batches[b].len() ==> (#[trigger] batches[b][k]) < to
}

pub proof fn lemma_dealt_below(batches: Seq<Seq<usize>>, from: int, to: int)
    requires
        0 <= from <= to <= usize::MAX,
        dealt(batches, from, to),
    ensures
        below(batches, to),
    decreases batches.len(),
{
    if batches.len() > 0 {
        let size = batches[0].len() as int;
        let rest = batches.skip(1);
        lemma_dealt_below(rest, from + size, to);
        assert forall|b: int, k: int|
            0 <= b < batches.len() && 0 <= k < batches[b].len() implies (#[trigger] batches[b][k])
            < to by {
            if b > 0 {
                assert(rest[b - 1][k] < to);
            } else {
                assert(batches[0] == run(from, from + size));
            }
        }
    }
}

/// The texts at the positions of a batch.
pub open spec fn select(texts: Seq<Seq<char>>, batch: Seq<usize>) -> Seq<Seq<char>> {
    Seq::new(batch.len(), |k: int| texts[batch[k] as int])
}

/// Whether every batch keeps to the limits on texts and characters.
pub open spec fn within_limits(texts: Seq<Seq<char>>, batches: Seq<Seq<usize>>) -> bool {
    forall|b: int|
        0 <= b < batches.len() ==> {
            let batch = #[trigger] batches[b];
            &&& 0 < batch.len() <= BATCH_MAX_TEXTS
            &&& batch.len() > 1 ==> text::join_lines(select(texts, batch)).len() <= BATCH_MAX_CHARS
        }
}

proof fn lemma_batches_from(texts: Seq<Seq<char>>, start: int, i: int)
    requires
        0 <= start <= i <= texts.len() <= usize::MAX,
        i - start <= BATCH_MAX_TEXTS,
        start < i || i == texts.len() || start == 0,
        i - start > 1 ==> text::join_lines(texts.subrange(start, i)).len() <= BATCH_MAX_CHARS,
    ensures
        dealt(batches_from(texts, start, i), start, texts.len() as int),
        within_limits(texts, batches_from(texts, start, i)),
    decreases texts.len() - i,
{
    let found = batches_from(texts, start, i);
    let first = run(start, i);
    if start < i {
        assert(select(texts, first) =~= texts.subrange(start, i));
    }
    if i >= texts.len() {
        if start < i {
            assert(found.skip(1) =~= Seq::empty());
            assert(dealt(found.skip(1), i, texts.len() as int));
            assert(found[0] == first);
            assert(first == run(start, start + first.len()));
        }
    } else if closes(texts, start, i) {
        let rest = batches_from(texts, i, i + 1);
        lemma_batches_from(texts, i, i + 1);
        assert(found.skip(1) =~= rest);
        assert(found[0] == first);
        assert(first == run(start, start + first.len()));
        assert forall|b: int| 0 <= b < found.len() implies {
            let batch = #[trigger] found[b];
            &&& 0 < batch.len() <= BATCH_MAX_TEXTS
            &&& batch.len() > 1 ==> text::join_lines(select(texts, batch)).len() <= BATCH_MAX_CHARS
        } by {
            if b > 0 {
                assert(found[b] == rest[b - 1]);
            }
        }
    } else {
        lemma_batches_from(texts, start, i + 1);
    }
}

/// Every text goes into exactly one batch, in order, and no batch is empty. A
/// batch holds at most eight texts, and if it holds several, these and the
/// newlines between them have at most 3000 characters.
pub proof fn law_batches(texts: Seq<Seq<char>>)
    requires
        texts.len() <= usize::MAX,
    ensures
        dealt(batches(texts), 0, texts.len() as int),
        within_limits(texts, batches(texts)),
{
    lemma_batches_from(texts, 0, 0);
}

/// Whether a batch could not have taken the first text of the next one: it has eight texts,
/// or with that one it would have more than 3000 characters, the newlines counted.
pub open spec fn full(texts: Seq<Seq<char>>, batches: Seq<Seq<usize>>, b: int) -> bool {
    ||| batches[b].len() == 8
    ||| text::join_lines(select(texts, batches[b].push(batches[b + 1][0]))).len() > 3000
}

/// Whether every batch but the last is full.
pub open spec fn all_full(texts: Seq<Seq<char>>, batches: Seq<Seq<usize>>) -> bool {
    forall|b: int| 0 <= b < batches.len() - 1 ==> #[trigger] full(texts, batches, b)
}

proof fn lemma_batches_full(texts: Seq<Seq<char>>, start: int, i: int)
    requires
        0 <= start <= i <= texts.len() <= usize::MAX,
        i - start <= BATCH_MAX_TEXTS,
        start < i || i == texts.len() || start == 0,
        i - start > 1 ==> text::join_lines(texts.subrange(start, i)).len() <= BATCH_MAX_CHARS,
    ensures
        all_full(texts, batches_from(texts, start, i)),
    decreases texts.len() - i,
{
    let found = batches_from(texts, start, i);
    if i < texts.len() {
        if closes(texts, start, i) {
            let first = run(start, i);
            let rest = batches_from(texts, i, i + 1);
            lemma_batches_from(texts, i, i + 1);
            lemma_batches_full(texts, i, i + 1);
            assert(found == seq![first] + rest);
            assert forall|b: int| 0 <= b < found.len() - 1 implies #[trigger] full(
                texts,
                found,
                b,
            ) by {
                if b > 0 {
                    assert(full(texts, rest, b - 1));
                    assert(found[b] == rest[b - 1]);
                    assert(found[b + 1] == rest[b]);
                } else {
                    assert(found[0] == first);
                    assert(found[1] == rest[0]);
                    assert(rest[0] == run(i, i + rest[0].len()));
                    assert(rest[0][0] == i);
                    assert(select(texts, first.push(i as usize)) =~= texts.subrange(start, i + 1));
                }
            }
        } else {
            lemma_batches_full(texts, start, i + 1);
        }
    }
}

proof fn lemma_dealt_in_order(batches: Seq<Seq<usize>>, from: int, to: int)
    requires
        0 <= from <= to <= usize::MAX,
        dealt(batches, from, to),
    ensures
        text::concat(batches) == Seq::new((to - from) as nat, |k: int| (from + k) as usize),
    decreases batches.len(),
{
    if batches.len() == 0 {
        assert(text::concat(batches) =~= Seq::new((to - from) as nat, |k: int| (from + k) as usize));
    } else {
        let size = batches[0].len() as int;
        lemma_dealt_in_order(batches.skip(1), from + size, to);
        assert(batches =~= seq![batches[0]] + batches.skip(1));
        text::lemma_concat_add(seq![batches[0]], batches.skip(1));
        text::lemma_concat_one(batches[0]);
        assert(text::concat(batches) =~= Seq::new(
            (to - from) as nat,
            |k: int| (from + k) as usize,
        ));
    }
}

/// The batches one after the other are the positions of all texts in order. A batch is
/// closed only where the next text does not fit: it has one to eight texts, several have at
/// most 3000 characters with the newlines between them, and one that is followed by another
/// could not have taken the next text.
pub proof fn law_batches_take_what_fits(texts: Seq<Seq<char>>)
    requires
        texts.len() <= usize::MAX,
    ensures
        text::concat(batches(texts)) == Seq::new(texts.len(), |k: int| k as usize),
        forall|b: int|
            0 <= b < batches(texts).len() ==> 1 <= (#[trigger] batches(texts)[b]).len() <= 8 && (
            batches(texts)[b].len() > 1 ==> text::join_lines(
                select(texts, batches(texts)[b]),
            ).len() <= 3000),
        all_full(texts, batches(texts)),
{
    law_batches(texts);
    lemma_batches_full(texts, 0, 0);
    lemma_dealt_in_order(batches(texts), 0, texts.len() as int);
    assert(text::concat(batches(texts)) =~= Seq::new(texts.len(), |k: int| k as usize));
}

} // verus!

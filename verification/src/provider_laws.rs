//! What holds of the providers, stated of translators that answer faithfully.
use vstd::prelude::*;
use crate::batch;
use crate::provider;
use crate::search;
use crate::split;
use crate::split_laws;
use crate::text;

verus! {

/// Whether a text holds no newline.
pub open spec fn plain(s: Seq<char>) -> bool {
    forall|j: int| 0 <= j < s.len() ==> #[trigger] s[j] != '\n'
}

/// Whether a translator gives no newline for a text without one.
pub open spec fn keeps_plain(f: spec_fn(Seq<char>) -> Seq<char>) -> bool {
    forall|s: Seq<char>| plain(s) ==> plain(#[trigger] f(s))
}

/// Whether an answer is the request translated line by line. Where there are several lines,
/// it may also have lost or gained some.
pub open spec fn faithful(
    f: spec_fn(Seq<char>) -> Seq<char>,
    chunk: Seq<char>,
    answer: Seq<char>,
) -> bool {
    if plain(chunk) {
        answer == f(chunk)
    } else {
        ||| search::lines(answer).len() != search::lines(chunk).len()
        ||| answer == text::join_lines(search::lines(chunk).map_values(f))
    }
}

/// The translation of a text: its chunks of at most 3500 characters, translated one after
/// the other.
pub open spec fn translated(f: spec_fn(Seq<char>) -> Seq<char>, s: Seq<char>) -> Seq<char> {
    text::concat(split::long_text_chunks(s, 3500).map_values(f))
}

/// A text that fits one request is translated as a whole.
pub proof fn law_short_text_is_translated_whole(
    f: spec_fn(Seq<char>) -> Seq<char>,
    s: Seq<char>,
)
    requires
        s.len() <= 3500,
    ensures
        translated(f, s) == f(s),
{
    split_laws::law_text_that_fits_is_one_chunk(s, 3500);
    assert(seq![s].map_values(f) =~= seq![f(s)]);
    text::lemma_concat_one(f(s));
}

/// Whether no text of a list holds a newline.
spec fn all_plain(list: Seq<Seq<char>>) -> bool {
    forall|k: int| 0 <= k < list.len() ==> plain(#[trigger] list[k])
}

proof fn lemma_plain_add(a: Seq<Seq<char>>, b: Seq<Seq<char>>)
    requires
        all_plain(a),
        all_plain(b),
    ensures
        all_plain(a + b),
{
    assert forall|k: int| 0 <= k < (a + b).len() implies plain(#[trigger] (a + b)[k]) by {
        if k < a.len() {
            assert((a + b)[k] == a[k]);
        } else {
            assert((a + b)[k] == b[k - a.len()]);
        }
    }
}

proof fn lemma_piece_plain(s: Seq<char>)
    requires
        plain(s),
    ensures
        all_plain(split::piece(s)),
{
    let (before, behind) = text::lemma_trim_parts(s);
    let t = text::trim(s);
    assert forall|j: int| 0 <= j < t.len() implies #[trigger] t[j] != '\n' by {
        assert(s[before.len() + j] == t[j]);
    }
}

proof fn lemma_pieces_plain(s: Seq<char>, start: int, i: int)
    requires
        plain(s),
        0 <= start <= i <= s.len(),
    ensures
        all_plain(split::pieces_from(s, start, i)),
    decreases s.len() - i,
{
    if i < s.len() {
        let j = split::resume(s, i);
        split::lemma_resume(s, i);
        if split::cuts(s, i) {
            let part = s.subrange(start, j);
            assert forall|k: int| 0 <= k < part.len() implies #[trigger] part[k] != '\n' by {
                assert(s[start + k] != '\n');
            }
            lemma_piece_plain(part);
            lemma_pieces_plain(s, j, j);
            lemma_plain_add(split::piece(part), split::pieces_from(s, j, j));
        } else {
            lemma_pieces_plain(s, start, j);
        }
    } else {
        let part = s.subrange(start, s.len() as int);
        assert forall|k: int| 0 <= k < part.len() implies #[trigger] part[k] != '\n' by {
            assert(s[start + k] != '\n');
        }
        lemma_piece_plain(part);
    }
}

proof fn lemma_windows_plain(s: Seq<char>, max: int)
    requires
        plain(s),
        max > 0,
    ensures
        all_plain(split::windows(s, max)),
    decreases s.len(),
{
    if s.len() > max {
        assert(plain(s.take(max)));
        assert(plain(s.skip(max))) by {
            assert forall|k: int| 0 <= k < s.skip(max).len() implies #[trigger] s.skip(max)[k]
                != '\n' by {
                assert(s[max + k] != '\n');
            }
        }
        lemma_windows_plain(s.skip(max), max);
        lemma_plain_add(seq![s.take(max)], split::windows(s.skip(max), max));
    }
}

proof fn lemma_pack_plain(pieces: Seq<Seq<char>>, current: Seq<char>, max: int)
    requires
        all_plain(pieces),
        plain(current),
        max > 0,
    ensures
        all_plain(split::pack(pieces, current, max)),
    decreases pieces.len(),
{
    if pieces.len() > 0 {
        let piece = pieces[0];
        let rest = pieces.skip(1);
        let none = Seq::<char>::empty();
        assert(all_plain(rest)) by {
            assert forall|k: int| 0 <= k < rest.len() implies plain(#[trigger] rest[k]) by {
                assert(plain(pieces[k + 1]));
            }
        }
        if piece.len() > max {
            lemma_windows_plain(piece, max);
            lemma_pack_plain(rest, none, max);
            lemma_plain_add(split::filled(current), split::windows(piece, max));
            lemma_plain_add(
                split::filled(current) + split::windows(piece, max),
                split::pack(rest, none, max),
            );
        } else if current.len() == 0 {
            lemma_pack_plain(rest, piece, max);
        } else if current.len() + 1 + piece.len() > max {
            lemma_pack_plain(rest, piece, max);
            lemma_plain_add(seq![current], split::pack(rest, piece, max));
        } else {
            let more = current.push(' ') + piece;
            assert forall|k: int| 0 <= k < more.len() implies #[trigger] more[k] != '\n' by {
                if k < current.len() {
                    assert(current[k] != '\n');
                } else if k > current.len() {
                    assert(piece[k - current.len() - 1] != '\n');
                }
            }
            lemma_pack_plain(rest, more, max);
        }
    }
}

proof fn lemma_chunks_plain(s: Seq<char>, max: int)
    requires
        plain(s),
        max > 0,
    ensures
        all_plain(split::long_text_chunks(s, max)),
{
    lemma_pieces_plain(s, 0, 0);
    let none = Seq::<char>::empty();
    lemma_pack_plain(split::pieces(s), none, max);
    lemma_pack_plain(seq![s], none, max);
}

/// With the answers before a position, work that needs no more of them ends alike.
proof fn lemma_one_by_one_prefix(
    texts: Seq<Seq<char>>,
    answers: Seq<Seq<char>>,
    next: int,
    m: int,
)
    requires
        0 <= next <= m <= answers.len(),
        provider::one_by_one(texts, answers, next) matches provider::Progress::Done(_, after)
            && after <= m,
    ensures
        provider::one_by_one(texts, answers.take(m), next) == provider::one_by_one(
            texts,
            answers,
            next,
        ),
    decreases texts.len(),
{
    if texts.len() > 0 {
        let n = provider::chunks(texts[0]).len() as int;
        provider::lemma_one_by_one_sound(texts.skip(1), answers, next + n);
        lemma_one_by_one_prefix(texts.skip(1), answers, next + n, m);
        assert(answers.take(m).subrange(next, next + n) =~= answers.subrange(next, next + n));
    }
}

proof fn lemma_one_batch_prefix(texts: Seq<Seq<char>>, answers: Seq<Seq<char>>, next: int, m: int)
    requires
        0 <= next <= m <= answers.len(),
        provider::one_batch(texts, answers, next) matches provider::Progress::Done(_, after)
            && after <= m,
    ensures
        provider::one_batch(texts, answers.take(m), next) == provider::one_batch(
            texts,
            answers,
            next,
        ),
{
    if texts.len() == 1 || text::join_lines(texts).len() > provider::REQUEST_MAX_CHARS {
        lemma_one_by_one_prefix(texts, answers, next, m);
    } else if search::lines(answers[next]).len() != texts.len() {
        provider::lemma_one_by_one_sound(texts, answers, next + 1);
        lemma_one_by_one_prefix(texts, answers, next + 1, m);
    }
}

/// Whether each request that was made between two positions, with one text after the other,
/// was answered by a translator.
spec fn answered_one_by_one(
    f: spec_fn(Seq<char>) -> Seq<char>,
    texts: Seq<Seq<char>>,
    answers: Seq<Seq<char>>,
    next: int,
    to: int,
) -> bool {
    forall|m: int|
        next <= m < to ==> (#[trigger] provider::one_by_one(texts, answers.take(m), next) matches provider::Progress::Ask(
            chunk,
        ) ==> answers[m] == f(chunk))
}

proof fn lemma_one_by_one_translates(
    f: spec_fn(Seq<char>) -> Seq<char>,
    texts: Seq<Seq<char>>,
    answers: Seq<Seq<char>>,
    next: int,
)
    requires
        0 <= next <= answers.len(),
        provider::one_by_one(texts, answers, next) matches provider::Progress::Done(_, after)
            && answered_one_by_one(f, texts, answers, next, after),
    ensures
        provider::one_by_one(texts, answers, next)->Done_0 == texts.map_values(
            |s: Seq<char>| translated(f, s),
        ),
    decreases texts.len(),
{
    let tr = |s: Seq<char>| translated(f, s);
    let after = provider::one_by_one(texts, answers, next)->Done_1;
    let got = provider::one_by_one(texts, answers, next)->Done_0;
    if texts.len() == 0 {
        assert(got =~= texts.map_values(tr));
    } else {
        let asked = provider::chunks(texts[0]);
        let n = asked.len() as int;
        let rest = texts.skip(1);
        let later = provider::one_by_one(rest, answers, next + n);
        provider::lemma_one_by_one_sound(rest, answers, next + n);
        assert forall|m: int| next <= m < next + n implies #[trigger] answers[m] == f(
            asked[m - next],
        ) by {
            assert(answers.take(m).len() == m);
            assert(provider::one_by_one(texts, answers.take(m), next) == provider::Progress::Ask(
                asked[m - next],
            ));
        }
        assert(answers.subrange(next, next + n) =~= asked.map_values(f));
        assert(answered_one_by_one(f, rest, answers, next + n, after)) by {
            assert forall|m: int| next + n <= m < after implies (#[trigger] provider::one_by_one(
                rest,
                answers.take(m),
                next + n,
            ) matches provider::Progress::Ask(chunk) ==> answers[m] == f(chunk)) by {
                assert(answers.take(m).len() == m);
                let here = provider::one_by_one(texts, answers.take(m), next);
            }
        }
        lemma_one_by_one_translates(f, rest, answers, next + n);
        assert(got =~= texts.map_values(tr));
    }
}

/// What a faithful translator makes of the texts of a batch.
spec fn answered_batch(
    f: spec_fn(Seq<char>) -> Seq<char>,
    texts: Seq<Seq<char>>,
    answers: Seq<Seq<char>>,
    next: int,
    to: int,
) -> bool {
    forall|m: int|
        next <= m < to ==> (#[trigger] provider::one_batch(texts, answers.take(m), next) matches provider::Progress::Ask(
            chunk,
        ) ==> faithful(f, chunk, answers[m]))
}

/// A chunk of a text without newlines is asked for as it is.
proof fn lemma_asks_plain(texts: Seq<Seq<char>>, answers: Seq<Seq<char>>, next: int)
    requires
        all_plain(texts),
        0 <= next <= answers.len(),
    ensures
        provider::one_by_one(texts, answers, next) matches provider::Progress::Ask(chunk) ==> plain(
            chunk,
        ),
    decreases texts.len(),
{
    if texts.len() > 0 {
        let asked = provider::chunks(texts[0]);
        lemma_chunks_plain(texts[0], 3500);
        if next + asked.len() <= answers.len() {
            let rest = texts.skip(1);
            assert(all_plain(rest)) by {
                assert forall|k: int| 0 <= k < rest.len() implies plain(#[trigger] rest[k]) by {
                    assert(plain(texts[k + 1]));
                }
            }
            lemma_asks_plain(rest, answers, next + asked.len());
        } else {
            assert(plain(asked[answers.len() - next]));
        }
    }
}

proof fn lemma_join_has_newline(texts: Seq<Seq<char>>)
    requires
        texts.len() > 1,
    ensures
        !plain(text::join_lines(texts)),
{
    let joined = text::join_lines(texts);
    let front = text::join_lines(texts.drop_last());
    assert(joined[front.len() as int] == '\n');
}

proof fn lemma_joined_fit(texts: Seq<Seq<char>>, k: int)
    requires
        0 <= k < texts.len(),
    ensures
        texts[k].len() <= text::join_lines(texts).len(),
    decreases texts.len(),
{
    if texts.len() > 1 && k < texts.len() - 1 {
        lemma_joined_fit(texts.drop_last(), k);
        assert(texts.drop_last()[k] == texts[k]);
    }
}

proof fn lemma_single_lines(texts: Seq<Seq<char>>)
    requires
        all_plain(texts),
    ensures
        search::single_lines(texts),
{
    assert forall|k: int, j: int|
        0 <= k < texts.len() && 0 <= j < texts[k].len() implies #[trigger] texts[k][j] != '\n' by {
        assert(plain(texts[k]));
    }
}

/// The lines of a faithful answer to several texts are their translations.
proof fn lemma_lines_translate(f: spec_fn(Seq<char>) -> Seq<char>, texts: Seq<Seq<char>>)
    requires
        all_plain(texts),
        keeps_plain(f),
        texts.len() > 1,
    ensures
        search::lines(text::join_lines(texts)) == texts,
        search::lines(text::join_lines(texts.map_values(f))) == texts.map_values(f),
{
    lemma_single_lines(texts);
    search::law_joined_lines_come_back(texts);
    let after = texts.map_values(f);
    assert(all_plain(after)) by {
        assert forall|k: int| 0 <= k < after.len() implies plain(#[trigger] after[k]) by {
            assert(plain(texts[k]));
            assert(after[k] == f(texts[k]));
        }
    }
    lemma_single_lines(after);
    search::law_joined_lines_come_back(after);
}

proof fn lemma_one_batch_translates(
    f: spec_fn(Seq<char>) -> Seq<char>,
    texts: Seq<Seq<char>>,
    answers: Seq<Seq<char>>,
    next: int,
)
    requires
        texts.len() > 0,
        all_plain(texts),
        keeps_plain(f),
        0 <= next <= answers.len(),
        provider::one_batch(texts, answers, next) matches provider::Progress::Done(_, after)
            && answered_batch(f, texts, answers, next, after),
    ensures
        provider::one_batch(texts, answers, next)->Done_0 == texts.map_values(
            |s: Seq<char>| translated(f, s),
        ),
{
    let tr = |s: Seq<char>| translated(f, s);
    let after = provider::one_batch(texts, answers, next)->Done_1;
    if texts.len() == 1 || text::join_lines(texts).len() > 3500 {
        assert(answered_one_by_one(f, texts, answers, next, after)) by {
            assert forall|m: int| next <= m < after implies (#[trigger] provider::one_by_one(
                texts,
                answers.take(m),
                next,
            ) matches provider::Progress::Ask(chunk) ==> answers[m] == f(chunk)) by {
                provider::lemma_one_by_one_sound(texts, answers, next);
                lemma_asks_plain(texts, answers.take(m), next);
                assert(provider::one_batch(texts, answers.take(m), next) == provider::one_by_one(
                    texts,
                    answers.take(m),
                    next,
                ));
            }
        }
        lemma_one_by_one_translates(f, texts, answers, next);
    } else {
        lemma_join_has_newline(texts);
        lemma_lines_translate(f, texts);
        let joined = text::join_lines(texts);
        let answer = answers[next];
        assert(answers.take(next).len() == next);
        if search::lines(answer).len() == texts.len() {
            assert(after == next + 1);
            assert(provider::one_batch(texts, answers.take(next), next) == provider::Progress::Ask(
                joined,
            ));
            assert(faithful(f, joined, answer));
            assert(search::lines(answer) == texts.map_values(f));
            assert forall|k: int| 0 <= k < texts.len() implies f(#[trigger] texts[k]) == translated(
                f,
                texts[k],
            ) by {
                lemma_joined_fit(texts, k);
                law_short_text_is_translated_whole(f, texts[k]);
            }
            assert(texts.map_values(f) =~= texts.map_values(tr));
        } else {
            provider::lemma_one_by_one_sound(texts, answers, next + 1);
            assert(answered_one_by_one(f, texts, answers, next + 1, after)) by {
                assert forall|m: int| next + 1 <= m < after implies (#[trigger] provider::one_by_one(
                    texts,
                    answers.take(m),
                    next + 1,
                ) matches provider::Progress::Ask(chunk) ==> answers[m] == f(chunk)) by {
                    assert(answers.take(m)[next] == answer);
                    lemma_asks_plain(texts, answers.take(m), next + 1);
                    assert(provider::one_batch(texts, answers.take(m), next)
                        == provider::one_by_one(texts, answers.take(m), next + 1));
                }
            }
            lemma_one_by_one_translates(f, texts, answers, next + 1);
        }
    }
}

/// Whether each request that was made between two positions, with one batch after the other,
/// was answered by a faithful translator.
spec fn answered_batches(
    f: spec_fn(Seq<char>) -> Seq<char>,
    texts: Seq<Seq<char>>,
    batches: Seq<Seq<usize>>,
    answers: Seq<Seq<char>>,
    next: int,
    to: int,
) -> bool {
    forall|m: int|
        next <= m < to ==> (#[trigger] provider::batch_by_batch(
            texts,
            batches,
            answers.take(m),
            next,
        ) matches provider::Progress::Ask(chunk) ==> faithful(f, chunk, answers[m]))
}

proof fn lemma_batches_translate(
    f: spec_fn(Seq<char>) -> Seq<char>,
    texts: Seq<Seq<char>>,
    batches: Seq<Seq<usize>>,
    answers: Seq<Seq<char>>,
    next: int,
    from: int,
)
    requires
        all_plain(texts),
        keeps_plain(f),
        0 <= from <= texts.len() <= usize::MAX,
        0 <= next <= answers.len(),
        batch::dealt(batches, from, texts.len() as int),
        provider::batch_by_batch(texts, batches, answers, next) matches provider::Progress::Done(
            _,
            after,
        ) && after <= answers.len() && answered_batches(f, texts, batches, answers, next, after),
    ensures
        provider::batch_by_batch(texts, batches, answers, next)->Done_0 == texts.skip(
            from,
        ).map_values(|s: Seq<char>| translated(f, s)),
    decreases batches.len(),
{
    let tr = |s: Seq<char>| translated(f, s);
    let got = provider::batch_by_batch(texts, batches, answers, next)->Done_0;
    let after = provider::batch_by_batch(texts, batches, answers, next)->Done_1;
    if batches.len() == 0 {
        assert(got =~= texts.skip(from).map_values(tr));
    } else {
        let first = batch::select(texts, batches[0]);
        let rest = batches.skip(1);
        let size = batches[0].len() as int;
        assert(first =~= texts.subrange(from, from + size));
        assert(all_plain(first)) by {
            assert forall|k: int| 0 <= k < first.len() implies plain(#[trigger] first[k]) by {
                assert(plain(texts[from + k]));
            }
        }
        provider::lemma_one_batch_sound(first, answers, next);
        let part = provider::one_batch(first, answers, next)->Done_0;
        let middle = provider::one_batch(first, answers, next)->Done_1;
        lemma_batches_grow(texts, rest, answers, middle);
        assert(answered_batch(f, first, answers, next, middle)) by {
            assert forall|m: int| next <= m < middle implies (#[trigger] provider::one_batch(
                first,
                answers.take(m),
                next,
            ) matches provider::Progress::Ask(chunk) ==> faithful(f, chunk, answers[m])) by {
                let whole = provider::batch_by_batch(texts, batches, answers.take(m), next);
            }
        }
        lemma_one_batch_translates(f, first, answers, next);
        assert(answered_batches(f, texts, rest, answers, middle, after)) by {
            assert forall|m: int| middle <= m < after implies (#[trigger] provider::batch_by_batch(
                texts,
                rest,
                answers.take(m),
                middle,
            ) matches provider::Progress::Ask(chunk) ==> faithful(f, chunk, answers[m])) by {
                lemma_one_batch_prefix(first, answers, next, m);
                let whole = provider::batch_by_batch(texts, batches, answers.take(m), next);
            }
        }
        lemma_batches_translate(f, texts, rest, answers, middle, from + size);
        assert(got =~= texts.skip(from).map_values(tr));
    }
}

proof fn lemma_batches_grow(
    texts: Seq<Seq<char>>,
    batches: Seq<Seq<usize>>,
    answers: Seq<Seq<char>>,
    next: int,
)
    requires
        0 <= next <= answers.len(),
    ensures
        provider::batch_by_batch(texts, batches, answers, next) matches provider::Progress::Done(
            _,
            after,
        ) ==> next <= after <= answers.len(),
    decreases batches.len(),
{
    if batches.len() > 0 {
        let first = batch::select(texts, batches[0]);
        provider::lemma_one_batch_sound(first, answers, next);
        match provider::one_batch(first, answers, next) {
            provider::Progress::Ask(_) => {},
            provider::Progress::Done(_, after) => {
                lemma_batches_grow(texts, batches.skip(1), answers, after);
            },
        }
    }
}

/// Google gives each text what belongs to it. If every answer is the request translated
/// line by line, or has lost or gained lines where there are several, then translation `k`
/// is that of text `k`: of the text as a whole where it fits one request.
pub proof fn law_google_translates_each_text(
    f: spec_fn(Seq<char>) -> Seq<char>,
    texts: Seq<Seq<char>>,
    answers: Seq<Seq<char>>,
    k: int,
)
    requires
        texts.len() <= usize::MAX,
        forall|j: int| 0 <= j < texts.len() ==> plain(#[trigger] texts[j]),
        keeps_plain(f),
        forall|m: int|
            0 <= m < answers.len() ==> (#[trigger] provider::gtx_progress(texts, answers.take(m)) matches provider::Progress::Ask(
                chunk,
            ) ==> faithful(f, chunk, answers[m])),
        0 <= k < texts.len(),
    ensures
        provider::gtx_progress(texts, answers) matches provider::Progress::Done(translations, _)
            ==> translations.len() == texts.len() && translations[k] == translated(f, texts[k]) && (
        texts[k].len() <= 3500 ==> translations[k] == f(texts[k])),
{
    let batches = batch::batches(texts);
    batch::law_batches(texts);
    lemma_batches_grow(texts, batches, answers, 0);
    if provider::gtx_progress(texts, answers) is Done {
        let after = provider::gtx_progress(texts, answers)->Done_1;
        assert(answered_batches(f, texts, batches, answers, 0, after)) by {
            assert forall|m: int| 0 <= m < after implies (#[trigger] provider::batch_by_batch(
                texts,
                batches,
                answers.take(m),
                0,
            ) matches provider::Progress::Ask(chunk) ==> faithful(f, chunk, answers[m])) by {
                assert(provider::gtx_progress(texts, answers.take(m)) == provider::batch_by_batch(
                    texts,
                    batches,
                    answers.take(m),
                    0,
                ));
            }
        }
        lemma_batches_translate(f, texts, batches, answers, 0, 0);
        assert(texts.skip(0) =~= texts);
        if texts[k].len() <= 3500 {
            law_short_text_is_translated_whole(f, texts[k]);
        }
    }
}

/// Lingva gives each text what belongs to it. If every answer is the translation of the
/// request, then translation `k` is that of text `k`: of the text as a whole where it fits
/// one request.
pub proof fn law_lingva_translates_each_text(
    f: spec_fn(Seq<char>) -> Seq<char>,
    texts: Seq<Seq<char>>,
    answers: Seq<Seq<char>>,
    k: int,
)
    requires
        forall|m: int|
            0 <= m < answers.len() ==> (#[trigger] provider::lingva_progress(
                texts,
                answers.take(m),
            ) matches provider::Progress::Ask(chunk) ==> answers[m] == f(chunk)),
        0 <= k < texts.len(),
    ensures
        provider::lingva_progress(texts, answers) matches provider::Progress::Done(translations, _)
            ==> translations.len() == texts.len() && translations[k] == translated(f, texts[k]) && (
        texts[k].len() <= 3500 ==> translations[k] == f(texts[k])),
{
    provider::lemma_one_by_one_sound(texts, answers, 0);
    if provider::lingva_progress(texts, answers) is Done {
        let after = provider::lingva_progress(texts, answers)->Done_1;
        assert(answered_one_by_one(f, texts, answers, 0, after)) by {
            assert forall|m: int| 0 <= m < after implies (#[trigger] provider::one_by_one(
                texts,
                answers.take(m),
                0,
            ) matches provider::Progress::Ask(chunk) ==> answers[m] == f(chunk)) by {
                assert(provider::lingva_progress(texts, answers.take(m)) == provider::one_by_one(
                    texts,
                    answers.take(m),
                    0,
                ));
            }
        }
        lemma_one_by_one_translates(f, texts, answers, 0);
        if texts[k].len() <= 3500 {
            law_short_text_is_translated_whole(f, texts[k]);
        }
    }
}

/// The requests that texts take one by one: the chunks of the first, then those of the
/// second, and so on.
pub open spec fn all_chunks(texts: Seq<Seq<char>>) -> Seq<Seq<char>> {
    text::concat(texts.map_values(|s: Seq<char>| split::long_text_chunks(s, 3500)))
}

proof fn lemma_asks_in_order(texts: Seq<Seq<char>>, answers: Seq<Seq<char>>, next: int)
    requires
        0 <= next <= answers.len(),
    ensures
        provider::one_by_one(texts, answers, next) matches provider::Progress::Ask(chunk)
            ==> answers.len() - next < all_chunks(texts).len() && chunk == all_chunks(
            texts,
        )[answers.len() - next],
        provider::one_by_one(texts, answers, next) is Done ==> answers.len() - next >= all_chunks(
            texts,
        ).len(),
    decreases texts.len(),
{
    let cut = |s: Seq<char>| split::long_text_chunks(s, 3500);
    if texts.len() > 0 {
        let asked = provider::chunks(texts[0]);
        let rest = texts.skip(1);
        assert(texts.map_values(cut) =~= seq![asked] + rest.map_values(cut));
        text::lemma_concat_add(seq![asked], rest.map_values(cut));
        text::lemma_concat_one(asked);
        if next + asked.len() <= answers.len() {
            lemma_asks_in_order(rest, answers, next + asked.len());
        }
    } else {
        assert(texts.map_values(cut) =~= Seq::empty());
    }
}

/// Lingva is asked for the chunks of the texts in order, one request for each, until there
/// is an answer to all of them.
pub proof fn law_lingva_asks_in_order(texts: Seq<Seq<char>>, answers: Seq<Seq<char>>)
    ensures
        provider::lingva_progress(texts, answers) matches provider::Progress::Ask(chunk)
            ==> answers.len() < all_chunks(texts).len() && chunk == all_chunks(
            texts,
        )[answers.len() as int],
        provider::lingva_progress(texts, answers) is Done ==> answers.len() >= all_chunks(
            texts,
        ).len(),
{
    lemma_asks_in_order(texts, answers, 0);
}

proof fn lemma_one_request(
    f: spec_fn(Seq<char>) -> Seq<char>,
    texts: Seq<Seq<char>>,
    answers: Seq<Seq<char>>,
    next: int,
)
    requires
        texts.len() > 0,
        all_plain(texts),
        keeps_plain(f),
        texts.len() == 1 ==> texts[0].len() <= 3500,
        texts.len() > 1 ==> text::join_lines(texts).len() <= 3500,
        0 <= next <= answers.len(),
        texts.len() > 1 && next < answers.len() ==> answers[next] == text::join_lines(
            texts.map_values(f),
        ),
    ensures
        next == answers.len() ==> provider::one_batch(texts, answers, next)
            == provider::Progress::Ask(text::join_lines(texts)),
        next < answers.len() ==> (provider::one_batch(texts, answers, next) matches provider::Progress::Done(
            _,
            after,
        ) && after == next + 1),
{
    if texts.len() == 1 {
        split_laws::law_text_that_fits_is_one_chunk(texts[0], 3500);
        let rest = texts.skip(1);
        assert(provider::chunks(texts[0]) == seq![texts[0]]);
        if next < answers.len() {
            assert(provider::one_by_one(rest, answers, next + 1) is Done);
        }
    } else {
        lemma_lines_translate(f, texts);
    }
}

proof fn lemma_one_request_each(
    f: spec_fn(Seq<char>) -> Seq<char>,
    texts: Seq<Seq<char>>,
    batches: Seq<Seq<usize>>,
    answers: Seq<Seq<char>>,
    next: int,
    from: int,
)
    requires
        all_plain(texts),
        keeps_plain(f),
        forall|k: int| 0 <= k < texts.len() ==> (#[trigger] texts[k]).len() <= 3500,
        0 <= from <= texts.len() <= usize::MAX,
        0 <= next <= answers.len(),
        batch::dealt(batches, from, texts.len() as int),
        batch::within_limits(texts, batches),
        forall|m: int|
            next <= m < answers.len() ==> (#[trigger] provider::batch_by_batch(
                texts,
                batches,
                answers.take(m),
                next,
            ) matches provider::Progress::Ask(chunk) ==> answers[m] == text::join_lines(
                search::lines(chunk).map_values(f),
            )),
    ensures
        provider::batch_by_batch(texts, batches, answers, next) is Ask <==> answers.len() - next
            < batches.len(),
    decreases batches.len(),
{
    if batches.len() > 0 {
        let first = batch::select(texts, batches[0]);
        let rest = batches.skip(1);
        let size = batches[0].len() as int;
        assert(first =~= texts.subrange(from, from + size));
        assert(batches[0].len() <= batch::BATCH_MAX_TEXTS);
        assert(all_plain(first)) by {
            assert forall|k: int| 0 <= k < first.len() implies plain(#[trigger] first[k]) by {
                assert(plain(texts[from + k]));
            }
        }
        assert(first[0] == texts[from]);
        if next < answers.len() {
            let early = answers.take(next);
            if first.len() > 1 {
                lemma_lines_translate(f, first);
                assert(provider::one_batch(first, early, next) == provider::Progress::Ask(
                    text::join_lines(first),
                ));
                assert(provider::batch_by_batch(texts, batches, early, next)
                    == provider::Progress::Ask(text::join_lines(first)));
            }
            lemma_one_request(f, first, answers, next);
            assert(batch::within_limits(texts, rest)) by {
                assert forall|b: int| 0 <= b < rest.len() implies {
                    let batch = #[trigger] rest[b];
                    &&& 0 < batch.len() <= batch::BATCH_MAX_TEXTS
                    &&& batch.len() > 1 ==> text::join_lines(batch::select(texts, batch)).len()
                        <= batch::BATCH_MAX_CHARS
                } by {
                    assert(rest[b] == batches[b + 1]);
                }
            }
            assert forall|m: int| next + 1 <= m < answers.len() implies (
            #[trigger] provider::batch_by_batch(texts, rest, answers.take(m), next + 1) matches provider::Progress::Ask(
                chunk,
            ) ==> answers[m] == text::join_lines(search::lines(chunk).map_values(f))) by {
                lemma_one_batch_prefix(first, answers, next, m);
                let whole = provider::batch_by_batch(texts, batches, answers.take(m), next);
            }
            lemma_one_request_each(f, texts, rest, answers, next + 1, from + size);
        } else {
            lemma_one_request(f, first, answers, next);
        }
    }
}

/// Google is asked once for each batch, if each answer is the request translated line by
/// line and each text fits one request.
pub proof fn law_google_is_asked_once_for_each_batch(
    f: spec_fn(Seq<char>) -> Seq<char>,
    texts: Seq<Seq<char>>,
    answers: Seq<Seq<char>>,
)
    requires
        texts.len() <= usize::MAX,
        forall|j: int| 0 <= j < texts.len() ==> plain(#[trigger] texts[j]) && texts[j].len() <= 3500,
        keeps_plain(f),
        forall|m: int|
            0 <= m < answers.len() ==> (#[trigger] provider::gtx_progress(texts, answers.take(m)) matches provider::Progress::Ask(
                chunk,
            ) ==> answers[m] == text::join_lines(search::lines(chunk).map_values(f))),
    ensures
        provider::gtx_progress(texts, answers) is Ask <==> answers.len() < batch::batches(
            texts,
        ).len(),
{
    batch::law_batches(texts);
    let batches = batch::batches(texts);
    assert forall|m: int| 0 <= m < answers.len() implies (#[trigger] provider::batch_by_batch(
        texts,
        batches,
        answers.take(m),
        0,
    ) matches provider::Progress::Ask(chunk) ==> answers[m] == text::join_lines(
        search::lines(chunk).map_values(f),
    )) by {
        assert(provider::gtx_progress(texts, answers.take(m)) == provider::batch_by_batch(
            texts,
            batches,
            answers.take(m),
            0,
        ));
    }
    lemma_one_request_each(f, texts, batches, answers, 0, 0);
}

/// The same progress, counted from an earlier answer on.
pub open spec fn counted_from(progress: provider::Progress, base: int) -> provider::Progress {
    match progress {
        provider::Progress::Ask(chunk) => provider::Progress::Ask(chunk),
        provider::Progress::Done(translations, next) => provider::Progress::Done(
            translations,
            next + base,
        ),
    }
}

proof fn lemma_one_by_one_later(
    texts: Seq<Seq<char>>,
    answers: Seq<Seq<char>>,
    base: int,
    next: int,
)
    requires
        0 <= base <= base + next <= answers.len(),
        0 <= next,
    ensures
        provider::one_by_one(texts, answers, base + next) == counted_from(
            provider::one_by_one(texts, answers.skip(base), next),
            base,
        ),
    decreases texts.len(),
{
    let later = answers.skip(base);
    if texts.len() > 0 {
        let n = provider::chunks(texts[0]).len() as int;
        if base + next + n <= answers.len() {
            lemma_one_by_one_later(texts.skip(1), answers, base, next + n);
            assert(base + next + n == base + (next + n));
            assert(answers.subrange(base + next, base + next + n) =~= later.subrange(
                next,
                next + n,
            ));
        }
    }
}

proof fn lemma_one_batch_later(
    texts: Seq<Seq<char>>,
    answers: Seq<Seq<char>>,
    base: int,
    next: int,
)
    requires
        0 <= base <= base + next <= answers.len(),
        0 <= next,
    ensures
        provider::one_batch(texts, answers, base + next) == counted_from(
            provider::one_batch(texts, answers.skip(base), next),
            base,
        ),
{
    lemma_one_by_one_later(texts, answers, base, next);
    if base + next < answers.len() {
        lemma_one_by_one_later(texts, answers, base, next + 1);
        assert(answers.skip(base)[next] == answers[base + next]);
    }
}

/// Batches with all positions moved.
spec fn moved(batches: Seq<Seq<usize>>, off: int) -> Seq<Seq<usize>> {
    Seq::new(
        batches.len(),
        |b: int| Seq::new(batches[b].len(), |k: int| (batches[b][k] + off) as usize),
    )
}

proof fn lemma_batches_later(
    texts: Seq<Seq<char>>,
    off: int,
    batches: Seq<Seq<usize>>,
    from: int,
    answers: Seq<Seq<char>>,
    base: int,
    next: int,
)
    requires
        0 <= off <= texts.len() <= usize::MAX,
        0 <= from,
        batch::dealt(batches, from, texts.len() - off),
        0 <= base <= base + next <= answers.len(),
        0 <= next,
    ensures
        provider::batch_by_batch(texts, moved(batches, off), answers, base + next) == counted_from(
            provider::batch_by_batch(texts.skip(off), batches, answers.skip(base), next),
            base,
        ),
    decreases batches.len(),
{
    if batches.len() > 0 {
        let rest = texts.skip(off);
        let all = moved(batches, off);
        let first = batch::select(rest, batches[0]);
        let size = batches[0].len() as int;
        assert(batches[0] == batch::run(from, from + size));
        assert(batch::select(texts, all[0]) =~= first) by {
            assert forall|k: int| 0 <= k < size implies texts[#[trigger] all[0][k] as int]
                == first[k] by {
                assert(batches[0][k] == from + k);
            }
        }
        assert(all.skip(1) =~= moved(batches.skip(1), off));
        lemma_one_batch_later(first, answers, base, next);
        provider::lemma_one_batch_sound(first, answers.skip(base), next);
        match provider::one_batch(first, answers.skip(base), next) {
            provider::Progress::Ask(_) => {},
            provider::Progress::Done(_, after) => {
                lemma_batches_later(
                    texts,
                    off,
                    batches.skip(1),
                    from + size,
                    answers,
                    base,
                    after,
                );
                assert(after + base == base + after);
            },
        }
    }
}

proof fn lemma_batches_moved(texts: Seq<Seq<char>>, off: int, start: int, i: int)
    requires
        0 <= off <= texts.len() <= usize::MAX,
        0 <= start <= i <= texts.len() - off,
    ensures
        batch::batches_from(texts, off + start, off + i) == moved(
            batch::batches_from(texts.skip(off), start, i),
            off,
        ),
    decreases texts.len() - off - i,
{
    let rest = texts.skip(off);
    let run = batch::run(start, i);
    let later = batch::run(off + start, off + i);
    assert(later =~= Seq::new(run.len(), |k: int| (run[k] + off) as usize)) by {
        assert forall|k: int| 0 <= k < run.len() implies later[k] == (run[k] + off) as usize by {
            assert(run[k] == start + k);
        }
    }
    if i >= rest.len() {
        assert(batch::batches_from(texts, off + start, off + i) =~= moved(
            batch::batches_from(rest, start, i),
            off,
        ));
    } else {
        assert(texts.subrange(off + start, off + i + 1) =~= rest.subrange(start, i + 1));
        assert(batch::closes(texts, off + start, off + i) == batch::closes(rest, start, i));
        if batch::closes(rest, start, i) {
            lemma_batches_moved(texts, off, i, i + 1);
            assert(batch::batches_from(texts, off + start, off + i) =~= moved(
                batch::batches_from(rest, start, i),
                off,
            ));
        } else {
            lemma_batches_moved(texts, off, start, i + 1);
        }
    }
}

/// The first batch of some texts is the only batch of its own texts, and the others are those
/// of the texts behind it.
proof fn lemma_first_batch(texts: Seq<Seq<char>>, i: int)
    requires
        0 < i <= texts.len() <= usize::MAX,
        forall|j: int| 0 < j < i ==> !#[trigger] batch::closes(texts, 0, j),
    ensures
        ({
            let all = batch::batches_from(texts, 0, i);
            let n = all[0].len() as int;
            &&& all.len() > 0
            &&& i <= n <= texts.len()
            &&& all[0] == batch::run(0, n)
            &&& batch::batches(texts.take(n)) == seq![all[0]]
            &&& all.skip(1) == moved(batch::batches(texts.skip(n)), n)
        }),
    decreases texts.len() - i,
{
    let all = batch::batches_from(texts, 0, i);
    if i < texts.len() && !batch::closes(texts, 0, i) {
        lemma_first_batch(texts, i + 1);
    } else {
        let head = texts.take(i);
        let rest = texts.skip(i);
        assert(all[0] == batch::run(0, i));
        assert(batch::batches_from(head, 0, i) =~= seq![batch::run(0, i)]);
        assert forall|j: int| 0 <= j < i implies !#[trigger] batch::closes(head, 0, j) by {
            if j > 0 {
                assert(!batch::closes(texts, 0, j));
                assert(head.subrange(0, j + 1) =~= texts.subrange(0, j + 1));
            }
        }
        lemma_unclosed(head, 0, i);
        if i == texts.len() {
            assert(rest =~= Seq::empty());
            assert(batch::batches(rest) =~= Seq::empty());
            assert(all.skip(1) =~= moved(batch::batches(rest), i));
        } else {
            lemma_batches_moved(texts, i, 0, 1);
            assert(batch::batches(rest) == batch::batches_from(rest, 0, 1));
            assert(all.skip(1) =~= batch::batches_from(texts, i, i + 1));
        }
    }
}

proof fn lemma_unclosed(texts: Seq<Seq<char>>, i: int, to: int)
    requires
        0 <= i <= to <= texts.len(),
        forall|j: int| i <= j < to ==> !#[trigger] batch::closes(texts, 0, j),
    ensures
        batch::batches_from(texts, 0, i) == batch::batches_from(texts, 0, to),
    decreases to - i,
{
    if i < to {
        assert(!batch::closes(texts, 0, i));
        lemma_unclosed(texts, i + 1, to);
    }
}

/// Google works batch by batch: the texts of the first batch as if they were all, and then
/// the texts behind them with the answers that are left.
pub proof fn law_google_goes_batch_by_batch(texts: Seq<Seq<char>>, answers: Seq<Seq<char>>)
    requires
        0 < texts.len() <= usize::MAX,
    ensures
        ({
            let n = batch::batches(texts)[0].len() as int;
            provider::gtx_progress(texts, answers) == match provider::gtx_progress(
                texts.take(n),
                answers,
            ) {
                provider::Progress::Ask(chunk) => provider::Progress::Ask(chunk),
                provider::Progress::Done(first, used) => match provider::gtx_progress(
                    texts.skip(n),
                    answers.skip(used),
                ) {
                    provider::Progress::Ask(chunk) => provider::Progress::Ask(chunk),
                    provider::Progress::Done(others, more) => provider::Progress::Done(
                        first + others,
                        used + more,
                    ),
                },
            }
        }),
{
    let all = batch::batches(texts);
    let n = all[0].len() as int;
    lemma_first_batch(texts, 1);
    assert(all == batch::batches_from(texts, 0, 1));
    let head = texts.take(n);
    let rest = texts.skip(n);
    let first = batch::select(texts, all[0]);
    assert(first =~= head);
    assert(batch::select(head, all[0]) =~= head);
    let only = seq![all[0]];
    assert(only.skip(1) =~= Seq::empty());
    provider::lemma_one_batch_sound(head, answers, 0);
    match provider::one_batch(head, answers, 0) {
        provider::Progress::Ask(_) => {},
        provider::Progress::Done(translations, used) => {
            let none = Seq::<Seq<char>>::empty();
            assert(translations + none =~= translations);
            assert(provider::batch_by_batch(head, only.skip(1), answers, used)
                == provider::Progress::Done(none, used));
            assert(provider::gtx_progress(head, answers) == provider::Progress::Done(
                translations,
                used,
            ));
            batch::law_batches(rest);
            lemma_batches_later(texts, n, batch::batches(rest), 0, answers, used, 0);
        },
    }
}

/// Texts of one batch are asked for together, joined by newlines. An answer with as many lines
/// gives the translations, line by line. After any other answer the texts are asked for one
/// by one, as Lingva is. A text alone is asked for as Lingva is.
pub proof fn law_google_reads_lines(texts: Seq<Seq<char>>, answers: Seq<Seq<char>>)
    requires
        0 < texts.len() <= usize::MAX,
        batch::batches(texts).len() == 1,
    ensures
        texts.len() == 1 ==> provider::gtx_progress(texts, answers) == provider::lingva_progress(
            texts,
            answers,
        ),
        texts.len() > 1 && answers.len() == 0 ==> provider::gtx_progress(texts, answers)
            == provider::Progress::Ask(text::join_lines(texts)),
        texts.len() > 1 && answers.len() > 0 && search::lines(answers[0]).len() == texts.len()
            ==> provider::gtx_progress(texts, answers) == provider::Progress::Done(
            search::lines(answers[0]),
            1,
        ),
        texts.len() > 1 && answers.len() > 0 && search::lines(answers[0]).len() != texts.len()
            ==> provider::gtx_progress(texts, answers) == counted_from(
            provider::lingva_progress(texts, answers.skip(1)),
            1,
        ),
{
    let all = batch::batches(texts);
    batch::law_batches(texts);
    assert(all[0] == batch::run(0, all[0].len() as int));
    assert(all.skip(1) =~= Seq::empty());
    assert(batch::dealt(all.skip(1), all[0].len() as int, texts.len() as int));
    let first = batch::select(texts, all[0]);
    assert(first =~= texts);
    let none = Seq::<Seq<char>>::empty();
    provider::lemma_one_batch_sound(first, answers, 0);
    match provider::one_batch(first, answers, 0) {
        provider::Progress::Ask(_) => {},
        provider::Progress::Done(translations, used) => {
            assert(translations + none =~= translations);
            assert(provider::batch_by_batch(texts, all.skip(1), answers, used)
                == provider::Progress::Done(none, used));
        },
    }
    if texts.len() > 1 && answers.len() > 0 {
        lemma_one_by_one_later(texts, answers, 1, 0);
    }
}

/// Lingva works text by text: the first text takes one answer for each of its chunks, and
/// these one after the other are its translation. The others take the answers that are left.
pub proof fn law_lingva_goes_text_by_text(
    first: Seq<char>,
    others: Seq<Seq<char>>,
    answers: Seq<Seq<char>>,
)
    ensures
        ({
            let texts = seq![first] + others;
            let n = split::long_text_chunks(first, 3500).len() as int;
            if answers.len() < n {
                provider::lingva_progress(texts, answers) == provider::Progress::Ask(
                    split::long_text_chunks(first, 3500)[answers.len() as int],
                )
            } else {
                provider::lingva_progress(texts, answers) == match provider::lingva_progress(
                    others,
                    answers.skip(n),
                ) {
                    provider::Progress::Ask(chunk) => provider::Progress::Ask(chunk),
                    provider::Progress::Done(translations, more) => provider::Progress::Done(
                        seq![text::concat(answers.take(n))] + translations,
                        n + more,
                    ),
                }
            }
        }),
        provider::lingva_progress(Seq::empty(), answers) == provider::Progress::Done(
            Seq::empty(),
            0,
        ),
{
    let texts = seq![first] + others;
    let n = split::long_text_chunks(first, 3500).len() as int;
    assert(texts[0] == first);
    assert(texts.skip(1) =~= others);
    if answers.len() >= n {
        lemma_one_by_one_later(others, answers, n, 0);
        assert(answers.subrange(0, n) =~= answers.take(n));
    }
}

} // verus!

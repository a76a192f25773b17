//! What holds of cutting a long text, stated of the sentences and lines that it consists of.
use vstd::prelude::*;
use crate::split;
use crate::text;

verus! {

proof fn lemma_piece_blank_end(s: Seq<char>, blanks: Seq<char>)
    requires
        text::blank(blanks),
    ensures
        split::piece(s + blanks) == split::piece(s),
{
    let (before, behind) = text::lemma_trim_parts(s);
    let more = behind + blanks;
    assert forall|k: int| 0 <= k < more.len() implies text::white_space(#[trigger] more[k]) by {
        if k < behind.len() {
            assert(text::white_space(behind[k]));
        } else {
            assert(text::white_space(blanks[k - behind.len()]));
        }
    }
    text::law_trim_leaves_the_text(before, text::trim(s), more);
    assert(s + blanks =~= before + text::trim(s) + more);
}

proof fn lemma_piece_blank_start(blanks: Seq<char>, s: Seq<char>)
    requires
        text::blank(blanks),
    ensures
        split::piece(blanks + s) == split::piece(s),
{
    let (before, behind) = text::lemma_trim_parts(s);
    let more = blanks + before;
    assert forall|k: int| 0 <= k < more.len() implies text::white_space(#[trigger] more[k]) by {
        if k < blanks.len() {
            assert(text::white_space(blanks[k]));
        } else {
            assert(text::white_space(before[k - blanks.len()]));
        }
    }
    text::law_trim_leaves_the_text(more, text::trim(s), behind);
    assert(blanks + s =~= more + text::trim(s) + behind);
}

proof fn lemma_piece_empty()
    ensures
        split::piece(Seq::empty()) == Seq::<Seq<char>>::empty(),
{
    let none = Seq::<char>::empty();
    text::law_trim_leaves_the_text(none, none, none);
    assert(none + none + none =~= none);
}

proof fn lemma_newlines(s: Seq<char>, i: int)
    requires
        0 <= i <= s.len(),
    ensures
        i <= split::newlines_end(s, i) <= s.len(),
        forall|k: int| i <= k < split::newlines_end(s, i) ==> #[trigger] s[k] == '\n',
        split::newlines_end(s, i) < s.len() ==> s[split::newlines_end(s, i)] != '\n',
    decreases s.len() - i,
{
    if i < s.len() && s[i] == '\n' {
        lemma_newlines(s, i + 1);
    }
}

proof fn lemma_newlines_reach(s: Seq<char>, i: int, to: int)
    requires
        0 <= i <= to <= s.len(),
        forall|k: int| i <= k < to ==> #[trigger] s[k] == '\n',
    ensures
        split::newlines_end(s, i) == split::newlines_end(s, to),
    decreases to - i,
{
    if i < to {
        lemma_newlines_reach(s, i + 1, to);
    }
}

proof fn lemma_blanks(s: Seq<char>, i: int)
    requires
        0 <= i <= s.len(),
    ensures
        i <= split::blanks_end(s, i) <= s.len(),
        forall|k: int|
            i <= k < split::blanks_end(s, i) ==> text::white_space(#[trigger] s[k]) && s[k] != '\n',
        split::blanks_end(s, i) < s.len() ==> s[split::blanks_end(s, i)] == '\n'
            || !text::white_space(s[split::blanks_end(s, i)]),
    decreases s.len() - i,
{
    if i < s.len() && text::white_space(s[i]) && s[i] != '\n' {
        lemma_blanks(s, i + 1);
    }
}

proof fn lemma_blanks_reach(s: Seq<char>, i: int, to: int)
    requires
        0 <= i <= to <= s.len(),
        forall|k: int| i <= k < to ==> text::white_space(#[trigger] s[k]) && s[k] != '\n',
        to < s.len() ==> s[to] == '\n' || !text::white_space(s[to]),
    ensures
        split::blanks_end(s, i) == to,
    decreases to - i,
{
    if i < to {
        lemma_blanks_reach(s, i + 1, to);
    }
}

/// Behind a text `a`, the pieces of `b` are cut as they are on their own.
proof fn lemma_pieces_shift(a: Seq<char>, b: Seq<char>, start: int, i: int)
    requires
        0 <= start <= i <= b.len(),
    ensures
        split::pieces_from(a + b, a.len() + start, a.len() + i) == split::pieces_from(b, start, i),
    decreases b.len() - i,
{
    let whole = a + b;
    let off = a.len() as int;
    if i < b.len() {
        let j = split::resume(b, i);
        split::lemma_resume(b, i);
        lemma_newlines(b, i + 1);
        lemma_blanks(b, i + 1);
        assert(whole[off + i] == b[i]);
        if i + 1 < b.len() {
            assert(whole[off + i + 1] == b[i + 1]);
        }
        assert forall|k: int| 0 <= k < b.len() implies whole[off + k] == #[trigger] b[k] by {}
        let newlines = split::newlines_end(b, i + 1);
        let blanks = split::blanks_end(b, i + 1);
        assert forall|k: int| off + i + 1 <= k < off + newlines implies #[trigger] whole[k]
            == '\n' by {
            assert(b[k - off] == '\n');
        }
        lemma_newlines_reach(whole, off + i + 1, off + newlines);
        assert forall|k: int| off + i + 1 <= k < off + blanks implies text::white_space(
            #[trigger] whole[k],
        ) && whole[k] != '\n' by {
            assert(text::white_space(b[k - off]) && b[k - off] != '\n');
        }
        lemma_blanks_reach(whole, off + i + 1, off + blanks);
        assert(split::resume(whole, off + i) == off + j);
        assert(split::cuts(whole, off + i) == split::cuts(b, i));
        if split::cuts(b, i) {
            lemma_pieces_shift(a, b, j, j);
            assert(whole.subrange(off + start, off + j) =~= b.subrange(start, j));
        } else {
            lemma_pieces_shift(a, b, start, j);
        }
    } else {
        assert(whole.subrange(off + start, whole.len() as int) =~= b.subrange(
            start,
            b.len() as int,
        ));
    }
}

/// White space before a piece does not count.
proof fn lemma_pieces_later(s: Seq<char>, start: int, later: int, i: int)
    requires
        0 <= start <= later <= i <= s.len(),
        text::blank(s.subrange(start, later)),
    ensures
        split::pieces_from(s, start, i) == split::pieces_from(s, later, i),
    decreases s.len() - i,
{
    let blanks = s.subrange(start, later);
    if i < s.len() {
        let j = split::resume(s, i);
        split::lemma_resume(s, i);
        if split::cuts(s, i) {
            assert(s.subrange(start, j) =~= blanks + s.subrange(later, j));
            lemma_piece_blank_start(blanks, s.subrange(later, j));
        } else {
            lemma_pieces_later(s, start, later, j);
        }
    } else {
        assert(s.subrange(start, s.len() as int) =~= blanks + s.subrange(later, s.len() as int));
        lemma_piece_blank_start(blanks, s.subrange(later, s.len() as int));
    }
}

/// White space at the start of a text does not count, up to a newline and behind the
/// newlines.
proof fn lemma_pieces_skip(b: Seq<char>)
    ensures
        split::pieces(b) == split::pieces_from(
            b,
            split::newlines_end(b, 0),
            split::newlines_end(b, 0),
        ),
        split::pieces(b) == split::pieces_from(
            b,
            split::blanks_end(b, 0),
            split::blanks_end(b, 0),
        ),
{
    let n = split::newlines_end(b, 0);
    lemma_newlines(b, 0);
    if n > 0 {
        let front = b.subrange(0, n);
        assert(b[0] == '\n');
        assert(split::resume(b, 0) == n);
        assert forall|k: int| 0 <= k < front.len() implies text::white_space(#[trigger] front[k]) by {
            assert(b[k] == '\n');
        }
        lemma_piece_blank_start(front, Seq::empty());
        assert(front + Seq::<char>::empty() =~= front);
        lemma_piece_empty();
        assert(split::piece(front) + split::pieces_from(b, n, n) =~= split::pieces_from(b, n, n));
    }
    let m = split::blanks_end(b, 0);
    lemma_blanks(b, 0);
    lemma_pieces_walk(b, 0, 0, m);
    let front = b.subrange(0, m);
    assert forall|k: int| 0 <= k < front.len() implies text::white_space(#[trigger] front[k]) by {
        assert(text::white_space(b[k]));
    }
    lemma_pieces_later(b, 0, m, m);
}

proof fn lemma_pieces_walk(s: Seq<char>, start: int, i: int, to: int)
    requires
        0 <= start <= i <= to <= s.len(),
        forall|k: int| i <= k < to ==> !#[trigger] split::cuts(s, k),
    ensures
        split::pieces_from(s, start, i) == split::pieces_from(s, start, to),
    decreases to - i,
{
    if i < to {
        assert(!split::cuts(s, i));
        assert(split::resume(s, i) == i + 1);
        lemma_pieces_walk(s, start, i + 1, to);
    }
}

proof fn lemma_pieces_newline(a: Seq<char>, b: Seq<char>, start: int, i: int)
    requires
        0 <= start <= i <= a.len(),
    ensures
        split::pieces_from(a.push('\n') + b, start, i) == split::pieces_from(a, start, i)
            + split::pieces(b),
    decreases a.len() - i,
{
    let whole = a.push('\n') + b;
    let end = a.len() as int;
    assert forall|k: int| 0 <= k < end implies whole[k] == #[trigger] a[k] by {}
    assert(whole[end] == '\n');
    if i < end {
        let j = split::resume(a, i);
        split::lemma_resume(a, i);
        lemma_newlines(a, i + 1);
        lemma_blanks(a, i + 1);
        let newlines = split::newlines_end(a, i + 1);
        let blanks = split::blanks_end(a, i + 1);
        assert forall|k: int| i + 1 <= k < newlines implies #[trigger] whole[k] == '\n' by {
            assert(a[k] == '\n');
        }
        assert forall|k: int| i + 1 <= k < blanks implies text::white_space(#[trigger] whole[k])
            && whole[k] != '\n' by {
            assert(text::white_space(a[k]) && a[k] != '\n');
        }
        lemma_newlines_reach(whole, i + 1, newlines);
        if blanks < end {
            assert(whole[blanks] == a[blanks]);
        }
        lemma_blanks_reach(whole, i + 1, blanks);
        assert(split::cuts(whole, i) == split::cuts(a, i));
        if a[i] == '\n' && newlines == end {
            lemma_newline_end(a, b, start);
            lemma_newlines_reach(whole, end, end);
            assert(split::newlines_end(whole, end) == split::newlines_end(whole, end + 1));
            assert(split::resume(whole, i) == split::newlines_end(whole, end + 1));
            lemma_piece_empty();
            assert(a.subrange(end, end) =~= Seq::empty());
            assert(split::pieces_from(a, end, end) =~= Seq::empty());
            assert(split::piece(a.subrange(start, end)) + Seq::<Seq<char>>::empty() =~= split::piece(
                a.subrange(start, end),
            ));
        } else {
            assert(split::resume(whole, i) == j) by {
                if a[i] == '\n' {
                    assert(whole[newlines] == a[newlines]);
                }
            }
            if split::cuts(a, i) {
                lemma_pieces_newline(a, b, j, j);
                assert(whole.subrange(start, j) =~= a.subrange(start, j));
                assert(split::pieces_from(whole, start, i) =~= split::pieces_from(a, start, i)
                    + split::pieces(b));
            } else {
                lemma_pieces_newline(a, b, start, j);
            }
        }
    } else {
        lemma_newline_end(a, b, start);
    }
}

/// A piece that reaches up to a newline ends there.
proof fn lemma_newline_end(a: Seq<char>, b: Seq<char>, start: int)
    requires
        0 <= start <= a.len(),
    ensures
        ({
            let whole = a.push('\n') + b;
            let j = split::newlines_end(whole, a.len() as int + 1);
            &&& split::piece(whole.subrange(start, j)) + split::pieces_from(whole, j, j)
                == split::piece(a.subrange(start, a.len() as int)) + split::pieces(b)
            &&& split::pieces_from(whole, start, a.len() as int) == split::piece(
                a.subrange(start, a.len() as int),
            ) + split::pieces(b)
        }),
{
    let whole = a.push('\n') + b;
    let end = a.len() as int;
    let n = split::newlines_end(b, 0);
    lemma_newlines(b, 0);
    assert(whole[end] == '\n');
    assert forall|k: int| end + 1 <= k < end + 1 + n implies #[trigger] whole[k] == '\n' by {
        assert(b[k - end - 1] == '\n');
    }
    lemma_newlines_reach(whole, end + 1, end + 1 + n);
    if n < b.len() {
        assert(whole[end + 1 + n] == b[n]);
    }
    let j = end + 1 + n;
    assert(split::newlines_end(whole, end + 1) == j);
    let extra = whole.subrange(end, j);
    assert forall|k: int| 0 <= k < extra.len() implies text::white_space(#[trigger] extra[k]) by {
        assert(whole[end + k] == '\n');
    }
    lemma_piece_blank_end(a.subrange(start, end), extra);
    assert(whole.subrange(start, j) =~= a.subrange(start, end) + extra);
    lemma_pieces_shift(a.push('\n'), b, n, n);
    lemma_pieces_skip(b);
    assert(split::resume(whole, end) == j);
}

/// A newline parts a text: the sentences and lines before it are followed by those behind
/// it.
pub proof fn law_newlines_part_a_text(a: Seq<char>, b: Seq<char>)
    ensures
        split::pieces(a.push('\n') + b) == split::pieces(a) + split::pieces(b),
{
    lemma_pieces_newline(a, b, 0, 0);
}

proof fn lemma_pieces_sentence(
    a: Seq<char>,
    mark: char,
    blank: char,
    b: Seq<char>,
    start: int,
    i: int,
)
    requires
        0 <= start <= i <= a.len(),
        mark == '.' || mark == '!' || mark == '?',
        text::white_space(blank),
        blank != '\n',
    ensures
        split::pieces_from(a.push(mark).push(blank) + b, start, i) == split::pieces_from(
            a.push(mark),
            start,
            i,
        ) + split::pieces(b),
    decreases a.len() - i,
{
    let first = a.push(mark);
    let whole = first.push(blank) + b;
    let end = a.len() as int;
    assert forall|k: int| 0 <= k <= end implies whole[k] == #[trigger] first[k] by {}
    assert(first[end] == mark && whole[end + 1] == blank);
    if i < end {
        let j = split::resume(first, i);
        split::lemma_resume(first, i);
        lemma_newlines(first, i + 1);
        lemma_blanks(first, i + 1);
        let newlines = split::newlines_end(first, i + 1);
        let blanks = split::blanks_end(first, i + 1);
        assert(newlines <= end) by {
            if newlines > end {
                assert(first[end] == '\n');
            }
        }
        assert(blanks <= end) by {
            if blanks > end {
                assert(text::white_space(first[end]));
            }
        }
        assert forall|k: int| i + 1 <= k < newlines implies #[trigger] whole[k] == '\n' by {
            assert(first[k] == '\n');
        }
        assert forall|k: int| i + 1 <= k < blanks implies text::white_space(#[trigger] whole[k])
            && whole[k] != '\n' by {
            assert(text::white_space(first[k]) && first[k] != '\n');
        }
        lemma_newlines_reach(whole, i + 1, newlines);
        assert(whole[newlines] == first[newlines]);
        assert(whole[blanks] == first[blanks]);
        lemma_blanks_reach(whole, i + 1, blanks);
        assert(whole[i + 1] == first[i + 1]);
        assert(split::cuts(whole, i) == split::cuts(first, i));
        assert(split::resume(whole, i) == j);
        if split::cuts(first, i) {
            lemma_pieces_sentence(a, mark, blank, b, j, j);
            assert(whole.subrange(start, j) =~= first.subrange(start, j));
            assert(split::pieces_from(whole, start, i) =~= split::pieces_from(first, start, i)
                + split::pieces(b));
        } else {
            lemma_pieces_sentence(a, mark, blank, b, start, j);
        }
    } else {
        let m = split::blanks_end(b, 0);
        lemma_blanks(b, 0);
        let j = end + 2 + m;
        assert forall|k: int| end + 1 <= k < j implies text::white_space(#[trigger] whole[k])
            && whole[k] != '\n' by {
            if k > end + 1 {
                assert(text::white_space(b[k - end - 2]) && b[k - end - 2] != '\n');
            }
        }
        if m < b.len() {
            assert(whole[j] == b[m]);
        }
        lemma_blanks_reach(whole, end + 1, j);
        assert(split::resume(whole, end) == j);
        let extra = whole.subrange(end + 1, j);
        assert forall|k: int| 0 <= k < extra.len() implies text::white_space(#[trigger] extra[k]) by {
            assert(text::white_space(whole[end + 1 + k]));
        }
        let sentence = first.subrange(start, end + 1);
        lemma_piece_blank_end(sentence, extra);
        assert(whole.subrange(start, j) =~= sentence + extra);
        lemma_pieces_shift(first.push(blank), b, m, m);
        lemma_pieces_skip(b);
        lemma_blanks(first, end + 1);
        assert(split::resume(first, end) == end + 1);
        lemma_piece_empty();
        assert(first.subrange(end + 1, end + 1) =~= Seq::empty());
        assert(split::pieces_from(first, end + 1, end + 1) =~= Seq::empty());
        assert(split::pieces_from(first, start, end) =~= split::piece(sentence));
    }
}

/// A full stop, an exclamation mark or a question mark before white space ends a sentence:
/// what is up to it is followed by what is behind the white space.
pub proof fn law_sentences_part_a_text(a: Seq<char>, mark: char, blank: char, b: Seq<char>)
    requires
        mark == '.' || mark == '!' || mark == '?',
        text::white_space(blank),
    ensures
        split::pieces(a.push(mark).push(blank) + b) == split::pieces(a.push(mark)) + split::pieces(
            b,
        ),
{
    if blank == '\n' {
        law_newlines_part_a_text(a.push(mark), b);
    } else {
        lemma_pieces_sentence(a, mark, blank, b, 0, 0);
    }
}

/// A text that holds no newline and no end of a sentence but at its own end is one piece,
/// without the white space around it. White space alone is none.
pub proof fn law_one_sentence_is_one_piece(s: Seq<char>)
    requires
        forall|k: int| 0 <= k < s.len() - 1 ==> #[trigger] s[k] != '\n',
        forall|k: int|
            0 <= k < s.len() - 1 && (s[k] == '.' || s[k] == '!' || s[k] == '?')
                ==> !text::white_space(#[trigger] s[k + 1]),
    ensures
        split::pieces(s) == if text::trim(s).len() == 0 {
            Seq::empty()
        } else {
            seq![text::trim(s)]
        },
{
    if s.len() > 0 {
        let last = s.len() - 1;
        assert forall|k: int| 0 <= k < last implies !#[trigger] split::cuts(s, k) by {
            if split::ends_sentence(s, k) {
                assert(!text::white_space(s[k + 1]));
            }
            assert(s[k] != '\n');
        }
        lemma_pieces_walk(s, 0, 0, last);
        split::lemma_resume(s, last);
        lemma_piece_empty();
        assert(s.subrange(0, s.len() as int) =~= s);
        assert(s.subrange(s.len() as int, s.len() as int) =~= Seq::empty());
        assert(split::pieces_from(s, s.len() as int, s.len() as int) =~= Seq::empty());
        assert(split::piece(s) + Seq::<Seq<char>>::empty() =~= split::piece(s));
        assert(split::pieces_from(s, 0, s.len() as int) == split::piece(s));
        assert(split::pieces_from(s, 0, last) =~= split::piece(s));
    } else {
        assert(s =~= Seq::empty());
        assert(s.subrange(0, 0) =~= s);
        lemma_piece_empty();
    }
}

/// Texts one after the other, with a space between each two.
pub open spec fn spaced(parts: Seq<Seq<char>>) -> Seq<char>
    decreases parts.len(),
{
    if parts.len() == 0 {
        Seq::empty()
    } else if parts.len() == 1 {
        parts[0]
    } else {
        spaced(parts.drop_last()).push(' ') + parts.last()
    }
}

proof fn lemma_spaced_add(a: Seq<Seq<char>>, b: Seq<Seq<char>>)
    requires
        a.len() > 0,
        b.len() > 0,
    ensures
        spaced(a + b) == spaced(a).push(' ') + spaced(b),
    decreases b.len(),
{
    assert((a + b).drop_last() =~= a + b.drop_last());
    assert((a + b).last() == b.last());
    if b.len() == 1 {
        assert(a + b.drop_last() =~= a);
    } else {
        lemma_spaced_add(a, b.drop_last());
        assert(spaced(a + b) =~= spaced(a).push(' ') + spaced(b));
    }
}

/// Where a chunk starts, if the chunks end behind the given pieces.
pub open spec fn chunk_start(from: int, ends: Seq<int>, c: int) -> int {
    if c == 0 {
        from
    } else {
        ends[c - 1]
    }
}

/// Whether chunk `c` is a run of whole pieces that fits and could not have taken the next.
pub open spec fn takes_run(
    pieces: Seq<Seq<char>>,
    from: int,
    chunks: Seq<Seq<char>>,
    ends: Seq<int>,
    max: int,
    c: int,
) -> bool {
    &&& 0 <= chunk_start(from, ends, c) < ends[c] <= pieces.len()
    &&& chunks[c] == spaced(pieces.subrange(chunk_start(from, ends, c), ends[c]))
    &&& chunks[c].len() <= max
    &&& c + 1 < chunks.len() ==> chunks[c].len() + 1 + pieces[ends[c]].len() > max
}

/// Whether chunks take the pieces from `from` on whole and in order, each chunk as many as
/// fit: chunk `c` ends before piece `ends[c]`.
pub open spec fn takes_whole(
    pieces: Seq<Seq<char>>,
    from: int,
    chunks: Seq<Seq<char>>,
    ends: Seq<int>,
    max: int,
) -> bool {
    &&& ends.len() == chunks.len()
    &&& chunks.len() == 0 ==> from == pieces.len()
    &&& chunks.len() > 0 ==> ends.last() == pieces.len()
    &&& forall|c: int|
        0 <= c < chunks.len() ==> #[trigger] takes_run(pieces, from, chunks, ends, max, c)
}

proof fn lemma_takes_more(
    pieces: Seq<Seq<char>>,
    from: int,
    k: int,
    chunk: Seq<char>,
    later: Seq<Seq<char>>,
    ends: Seq<int>,
    max: int,
)
    requires
        0 <= from < k < pieces.len(),
        chunk == spaced(pieces.subrange(from, k)),
        chunk.len() <= max,
        chunk.len() + 1 + pieces[k].len() > max,
        takes_whole(pieces, k, later, ends, max),
    ensures
        takes_whole(pieces, from, seq![chunk] + later, seq![k] + ends, max),
{
    let chunks = seq![chunk] + later;
    let all = seq![k] + ends;
    assert forall|c: int| 0 <= c < chunks.len() implies #[trigger] takes_run(
        pieces,
        from,
        chunks,
        all,
        max,
        c,
    ) by {
        if c > 0 {
            assert(takes_run(pieces, k, later, ends, max, c - 1));
            assert(chunks[c] == later[c - 1]);
            assert(all[c] == ends[c - 1]);
            assert(chunk_start(from, all, c) == chunk_start(k, ends, c - 1));
        }
    }
    assert(all.last() == ends.last());
}

proof fn lemma_pack_takes(pieces: Seq<Seq<char>>, from: int, k: int, max: int) -> (ends: Seq<int>)
    requires
        0 <= from <= k <= pieces.len(),
        forall|p: int| 0 <= p < pieces.len() ==> 0 < (#[trigger] pieces[p]).len() <= max,
        spaced(pieces.subrange(from, k)).len() <= max,
        from < k ==> spaced(pieces.subrange(from, k)).len() > 0,
    ensures
        takes_whole(
            pieces,
            from,
            split::pack(pieces.skip(k), spaced(pieces.subrange(from, k)), max),
            ends,
            max,
        ),
    decreases pieces.len() - k,
{
    let current = spaced(pieces.subrange(from, k));
    let rest = pieces.skip(k);
    let chunks = split::pack(rest, current, max);
    if k == pieces.len() {
        if from < k {
            assert(chunks =~= seq![current]);
            assert(takes_run(pieces, from, chunks, seq![k], max, 0));
            seq![k]
        } else {
            assert(chunks =~= Seq::empty());
            Seq::empty()
        }
    } else {
        let piece = pieces[k];
        let longer = pieces.subrange(from, k + 1);
        assert(rest[0] == piece);
        assert(rest.skip(1) =~= pieces.skip(k + 1));
        assert(pieces.subrange(k, k + 1) =~= seq![piece]);
        if from == k {
            assert(pieces.subrange(from, k) =~= Seq::empty());
            lemma_pack_takes(pieces, k, k + 1, max)
        } else if current.len() + 1 + piece.len() > max {
            let ends = lemma_pack_takes(pieces, k, k + 1, max);
            lemma_takes_more(
                pieces,
                from,
                k,
                current,
                split::pack(pieces.skip(k + 1), piece, max),
                ends,
                max,
            );
            seq![k] + ends
        } else {
            assert(longer.drop_last() =~= pieces.subrange(from, k));
            assert(spaced(longer) == current.push(' ') + piece);
            lemma_pack_takes(pieces, from, k + 1, max)
        }
    }
}

proof fn lemma_takes_all(
    pieces: Seq<Seq<char>>,
    from: int,
    chunks: Seq<Seq<char>>,
    ends: Seq<int>,
    max: int,
)
    requires
        0 <= from < pieces.len(),
        takes_whole(pieces, from, chunks, ends, max),
    ensures
        spaced(chunks) == spaced(pieces.skip(from)),
    decreases chunks.len(),
{
    let first = chunks[0];
    let k = ends[0];
    let later = chunks.skip(1);
    let behind = ends.skip(1);
    assert(chunks =~= seq![first] + later);
    assert(takes_run(pieces, from, chunks, ends, max, 0));
    if chunks.len() == 1 {
        assert(pieces.skip(from) =~= pieces.subrange(from, k));
    } else {
        assert(chunk_start(from, ends, 1) == k);
        assert(takes_run(pieces, from, chunks, ends, max, 1));
        assert(takes_whole(pieces, k, later, behind, max)) by {
            assert forall|c: int| 0 <= c < later.len() implies #[trigger] takes_run(
                pieces,
                k,
                later,
                behind,
                max,
                c,
            ) by {
                assert(takes_run(pieces, from, chunks, ends, max, c + 1));
                assert(later[c] == chunks[c + 1]);
                assert(chunk_start(from, ends, c + 1) == chunk_start(k, behind, c));
            }
            assert(behind.last() == ends.last());
        }
        lemma_takes_all(pieces, k, later, behind, max);
        lemma_spaced_add(seq![first], later);
        lemma_spaced_add(pieces.subrange(from, k), pieces.skip(k));
        assert(pieces.skip(from) =~= pieces.subrange(from, k) + pieces.skip(k));
    }
}

/// No sentence or line that fits a request is cut. If a text is too long but none of its
/// sentences and lines is, each chunk is a run of whole ones with a space between each two,
/// all together are all of them in order, and a chunk ends only where the next one would not
/// have fitted.
pub proof fn law_whole_sentences_stay_whole(s: Seq<char>, max: int)
    requires
        0 < max < s.len(),
        split::pieces(s).len() > 0,
        forall|k: int| 0 <= k < split::pieces(s).len() ==> (#[trigger] split::pieces(s)[k]).len()
            <= max,
    ensures
        exists|ends: Seq<int>| #[trigger]
            takes_whole(split::pieces(s), 0, split::long_text_chunks(s, max), ends, max),
        spaced(split::long_text_chunks(s, max)) == spaced(split::pieces(s)),
{
    let pieces = split::pieces(s);
    split::lemma_pieces_fit(s, 0, 0);
    assert(pieces.subrange(0, 0) =~= Seq::empty());
    assert(pieces.skip(0) =~= pieces);
    let ends = lemma_pack_takes(pieces, 0, 0, max);
    assert(takes_whole(pieces, 0, split::long_text_chunks(s, max), ends, max));
    lemma_takes_all(pieces, 0, split::long_text_chunks(s, max), ends, max);
}

/// A list of sentences and lines that all fit is packed whole, like those of a text.
pub proof fn law_fitting_pieces_are_packed_whole(pieces: Seq<Seq<char>>, max: int)
    requires
        forall|k: int| 0 <= k < pieces.len() ==> 0 < (#[trigger] pieces[k]).len() <= max,
        max > 0,
    ensures
        exists|ends: Seq<int>| #[trigger]
            takes_whole(pieces, 0, split::pack(pieces, Seq::empty(), max), ends, max),
{
    assert(pieces.subrange(0, 0) =~= Seq::empty());
    assert(pieces.skip(0) =~= pieces);
    let ends = lemma_pack_takes(pieces, 0, 0, max);
    assert(takes_whole(pieces, 0, split::pack(pieces, Seq::empty(), max), ends, max));
}

proof fn lemma_pack_oversized(
    a: Seq<Seq<char>>,
    big: Seq<char>,
    b: Seq<Seq<char>>,
    current: Seq<char>,
    max: int,
)
    requires
        max > 0,
        big.len() > max,
    ensures
        split::pack(a.push(big) + b, current, max) == split::pack(a, current, max) + split::windows(
            big,
            max,
        ) + split::pack(b, Seq::empty(), max),
    decreases a.len(),
{
    let all = a.push(big) + b;
    let tail = split::windows(big, max) + split::pack(b, Seq::empty(), max);
    if a.len() == 0 {
        assert(all[0] == big);
        assert(all.skip(1) =~= b);
        assert(split::pack(all, current, max) =~= split::pack(a, current, max) + split::windows(
            big,
            max,
        ) + split::pack(b, Seq::empty(), max));
    } else {
        let piece = a[0];
        let rest = a.skip(1);
        assert(all[0] == piece);
        assert(all.skip(1) =~= rest.push(big) + b);
        lemma_pack_oversized(rest, big, b, Seq::empty(), max);
        lemma_pack_oversized(rest, big, b, piece, max);
        lemma_pack_oversized(rest, big, b, current.push(' ') + piece, max);
        assert(split::pack(all, current, max) =~= split::pack(a, current, max) + split::windows(
            big,
            max,
        ) + split::pack(b, Seq::empty(), max));
    }
}

/// A sentence or line that does not fit stands alone: the chunks before it are those of what
/// is before it, the chunks behind it are those of what is behind it, and it is itself cut
/// every so many characters.
pub proof fn law_oversized_sentence_stands_alone(
    s: Seq<char>,
    max: int,
    a: Seq<Seq<char>>,
    big: Seq<char>,
    b: Seq<Seq<char>>,
)
    requires
        0 < max < s.len(),
        split::pieces(s) == a.push(big) + b,
        big.len() > max,
    ensures
        split::long_text_chunks(s, max) == split::pack(a, Seq::empty(), max) + split::windows(
            big,
            max,
        ) + split::pack(b, Seq::empty(), max),
        split::pack(a.push(big) + b, Seq::empty(), max) == split::pack(a, Seq::empty(), max)
            + split::windows(big, max) + split::pack(b, Seq::empty(), max),
{
    lemma_pack_oversized(a, big, b, Seq::empty(), max);
}

/// Cutting by length loses nothing: the cuts one after the other are the text. All but the
/// last have the full length, and the last has what is left.
pub proof fn law_cuts_have_full_length(s: Seq<char>, max: int)
    requires
        max > 0,
    ensures
        text::concat(split::windows(s, max)) == s,
        forall|k: int|
            0 <= k < split::windows(s, max).len() - 1 ==> (#[trigger] split::windows(
                s,
                max,
            )[k]).len() == max,
        s.len() > 0 ==> split::windows(s, max).len() > 0 && 0 < split::windows(s, max).last().len()
            <= max,
        s.len() == 0 ==> split::windows(s, max).len() == 0,
    decreases s.len(),
{
    if s.len() == 0 {
        assert(text::concat(split::windows(s, max)) =~= s);
    } else if s.len() <= max {
        text::lemma_concat_one(s);
    } else {
        let head = seq![s.take(max)];
        let tail = split::windows(s.skip(max), max);
        law_cuts_have_full_length(s.skip(max), max);
        text::lemma_concat_add(head, tail);
        text::lemma_concat_one(s.take(max));
        assert(s.take(max) + s.skip(max) =~= s);
        assert(split::windows(s, max) == head + tail);
        assert forall|k: int| 0 <= k < (head + tail).len() - 1 implies (#[trigger] (head
            + tail)[k]).len() == max by {
            if k > 0 {
                assert((head + tail)[k] == tail[k - 1]);
            }
        }
        assert((head + tail).last() == tail.last());
    }
}

/// A text that fits is one chunk, with the white space around it. White space that does not
/// fit is cut by length.
pub proof fn law_text_that_fits_is_one_chunk(s: Seq<char>, max: int)
    requires
        max > 0,
    ensures
        s.len() <= max ==> split::long_text_chunks(s, max) == seq![s],
        s.len() > max && text::blank(s) ==> split::long_text_chunks(s, max) == split::windows(
            s,
            max,
        ),
{
    if s.len() > max && text::blank(s) {
        lemma_pieces_blank(s, 0, 0);
        let none = Seq::<Seq<char>>::empty();
        assert(seq![s].skip(1) =~= none);
        assert(split::pack(none, Seq::empty(), max) =~= none);
        assert(split::pack(seq![s], Seq::empty(), max) =~= split::windows(s, max));
    }
}

proof fn lemma_pieces_blank(s: Seq<char>, start: int, i: int)
    requires
        text::blank(s),
        0 <= start <= i <= s.len(),
    ensures
        split::pieces_from(s, start, i).len() == 0,
    decreases s.len() - i,
{
    let none = Seq::<char>::empty();
    lemma_piece_empty();
    if i < s.len() {
        let j = split::resume(s, i);
        split::lemma_resume(s, i);
        let part = s.subrange(start, j);
        assert(text::blank(part)) by {
            assert forall|k: int| 0 <= k < part.len() implies text::white_space(
                #[trigger] part[k],
            ) by {
                assert(text::white_space(s[start + k]));
            }
        }
        lemma_piece_blank_start(part, none);
        assert(part + none =~= part);
        lemma_pieces_blank(s, j, j);
        lemma_pieces_blank(s, start, j);
    } else {
        let part = s.subrange(start, s.len() as int);
        assert(text::blank(part)) by {
            assert forall|k: int| 0 <= k < part.len() implies text::white_space(
                #[trigger] part[k],
            ) by {
                assert(text::white_space(s[start + k]));
            }
        }
        lemma_piece_blank_start(part, none);
        assert(part + none =~= part);
    }
}

} // verus!

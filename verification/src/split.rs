//! Cutting a long text into chunks that fit one request.
use vstd::prelude::*;
use vstd::string::{StrSliceExecFns, StringExecFns};
use crate::text;

verus! {

/// The first position from `i` on that holds no newline.
pub open spec fn newlines_end(s: Seq<char>, i: int) -> int
    decreases s.len() - i,
{
    if 0 <= i < s.len() && s[i] == '\n' {
        newlines_end(s, i + 1)
    } else {
        i
    }
}

/// The first position from `i` on that holds no white space other than a newline.
pub open spec fn blanks_end(s: Seq<char>, i: int) -> int
    decreases s.len() - i,
{
    if 0 <= i < s.len() && text::white_space(s[i]) && s[i] != '\n' {
        blanks_end(s, i + 1)
    } else {
        i
    }
}

/// Whether a sentence ends with the character at `i`: a full stop, an
/// exclamation mark or a question mark before white space or the end.
pub open spec fn ends_sentence(s: Seq<char>, i: int) -> bool {
    &&& s[i] == '.' || s[i] == '!' || s[i] == '?'
    &&& i + 1 >= s.len() || text::white_space(s[i + 1])
}

/// Whether the text may be cut behind the character at `i`.
pub open spec fn cuts(s: Seq<char>, i: int) -> bool {
    s[i] == '\n' || ends_sentence(s, i)
}

/// Where the reading goes on behind the character at `i`. A cut takes the
/// newlines, or the blanks, that follow with it.
pub open spec fn resume(s: Seq<char>, i: int) -> int {
    if s[i] == '\n' {
        newlines_end(s, i + 1)
    } else if ends_sentence(s, i) {
        blanks_end(s, i + 1)
    } else {
        i + 1
    }
}

/// The trimmed text as a list of one, or no text where nothing is left of it.
pub open spec fn piece(s: Seq<char>) -> Seq<Seq<char>> {
    if text::trim(s).len() == 0 {
        Seq::empty()
    } else {
        seq![text::trim(s)]
    }
}

pub proof fn lemma_resume(s: Seq<char>, i: int)
    requires
        0 <= i < s.len(),
    ensures
        i < resume(s, i) <= s.len(),
{
    lemma_newlines_end(s, i + 1);
    lemma_blanks_end(s, i + 1);
}

proof fn lemma_newlines_end(s: Seq<char>, i: int)
    requires
        0 <= i <= s.len(),
    ensures
        i <= newlines_end(s, i) <= s.len(),
    decreases s.len() - i,
{
    if i < s.len() && s[i] == '\n' {
        lemma_newlines_end(s, i + 1);
    }
}

proof fn lemma_blanks_end(s: Seq<char>, i: int)
    requires
        0 <= i <= s.len(),
    ensures
        i <= blanks_end(s, i) <= s.len(),
    decreases s.len() - i,
{
    if i < s.len() && text::white_space(s[i]) && s[i] != '\n' {
        lemma_blanks_end(s, i + 1);
    }
}

/// The pieces of the text from `start` on, where no cut lies between `start`
/// and `i`.
pub open spec fn pieces_from(s: Seq<char>, start: int, i: int) -> Seq<Seq<char>>
    decreases s.len() - i,
{
    if 0 <= start <= i < s.len() {
        let j = resume(s, i);
        proof {
            lemma_resume(s, i);
        }
        if cuts(s, i) {
            piece(s.subrange(start, j)) + pieces_from(s, j, j)
        } else {
            pieces_from(s, start, j)
        }
    } else {
        piece(s.subrange(start, s.len() as int))
    }
}

/// The sentences and lines of a text, each trimmed, the empty ones left out.
pub open spec fn pieces(s: Seq<char>) -> Seq<Seq<char>> {
    pieces_from(s, 0, 0)
}

/// A text cut every `max` characters.
pub open spec fn windows(s: Seq<char>, max: int) -> Seq<Seq<char>>
    decreases s.len(),
{
    if s.len() == 0 || max <= 0 {
        Seq::empty()
    } else if s.len() <= max {
        seq![s]
    } else {
        seq![s.take(max)] + windows(s.skip(max), max)
    }
}

/// A text as a list of one, or nothing where it is empty.
pub open spec fn filled(s: Seq<char>) -> Seq<Seq<char>> {
    if s.len() == 0 {
        Seq::empty()
    } else {
        seq![s]
    }
}

/// The pieces packed into chunks, with `current` the chunk that is being
/// filled: a piece joins it behind a space as long as `max` characters are not
/// exceeded. A piece that is longer on its own stands alone, cut every `max`
/// characters.
pub open spec fn pack(pieces: Seq<Seq<char>>, current: Seq<char>, max: int) -> Seq<Seq<char>>
    decreases pieces.len(),
{
    if pieces.len() == 0 {
        filled(current)
    } else {
        let piece = pieces[0];
        let rest = pieces.skip(1);
        if piece.len() > max {
            filled(current) + windows(piece, max) + pack(rest, Seq::empty(), max)
        } else if current.len() == 0 {
            pack(rest, piece, max)
        } else if current.len() + 1 + piece.len() > max {
            seq![current] + pack(rest, piece, max)
        } else {
            pack(rest, current.push(' ') + piece, max)
        }
    }
}

/// The chunks of a text: the text itself where it is short enough, else its
/// pieces packed. White space that alone is too long is cut like one piece.
pub open spec fn long_text_chunks(s: Seq<char>, max: int) -> Seq<Seq<char>> {
    if s.len() <= max {
        seq![s]
    } else if pieces(s).len() == 0 {
        pack(seq![s], Seq::empty(), max)
    } else {
        pack(pieces(s), Seq::empty(), max)
    }
}

/// Adds the text from `from` up to `to`, trimmed, unless nothing is left of it.
fn push_piece(pieces: &mut Vec<String>, chars: &[char], from: usize, to: usize)
    requires
        from <= to <= chars@.len(),
    ensures
        text::views(final(pieces)@) == text::views(old(pieces)@) + piece(
            chars@.subrange(from as int, to as int),
        ),
{
    let (a, b) = text::trim_bounds(chars, from, to);
    if a < b {
        let trimmed = text::text_of(chars, a, b);
        proof {
            text::lemma_views_push(pieces@, trimmed);
        }
        pieces.push(trimmed);
    }
    assert(text::views(pieces@) =~= text::views(old(pieces)@) + piece(
        chars@.subrange(from as int, to as int),
    ));
}

/// Cuts a text behind its sentences and lines.
fn cut_pieces(chars: &[char]) -> (found: Vec<String>)
    ensures
        text::views(found@) == pieces(chars@),
{
    let mut found: Vec<String> = Vec::new();
    let mut start: usize = 0;
    let mut i: usize = 0;
    assert(text::views(found@) + pieces_from(chars@, 0, 0) =~= pieces(chars@));
    while i < chars.len()
        invariant
            start <= i <= chars@.len(),
            text::views(found@) + pieces_from(chars@, start as int, i as int) == pieces(chars@),
        decreases chars@.len() - i,
    {
        let c = chars[i];
        let ghost at = i as int;
        let ghost cut_from = start as int;
        let ghost before = text::views(found@);
        proof {
            lemma_resume(chars@, at);
        }
        if c == '\n' {
            i += 1;
            while i < chars.len() && chars[i] == '\n'
                invariant
                    at < i <= chars@.len(),
                    newlines_end(chars@, i as int) == newlines_end(chars@, at + 1),
                decreases chars@.len() - i,
            {
                i += 1;
            }
            push_piece(&mut found, chars, start, i);
            start = i;
            assert(text::views(found@) + pieces_from(chars@, i as int, i as int) =~= before
                + pieces_from(chars@, cut_from, at));
        } else if (c == '.' || c == '!' || c == '?') && (i + 1 >= chars.len()
            || chars[i + 1].is_whitespace()) {
            i += 1;
            while i < chars.len() && chars[i].is_whitespace() && chars[i] != '\n'
                invariant
                    at < i <= chars@.len(),
                    blanks_end(chars@, i as int) == blanks_end(chars@, at + 1),
                decreases chars@.len() - i,
            {
                i += 1;
            }
            push_piece(&mut found, chars, start, i);
            start = i;
            assert(text::views(found@) + pieces_from(chars@, i as int, i as int) =~= before
                + pieces_from(chars@, cut_from, at));
        } else {
            i += 1;
        }
    }
    push_piece(&mut found, chars, start, i);
    found
}

/// Adds a text, cut every `max` characters.
fn push_windows(chunks: &mut Vec<String>, piece: &str, max: usize)
    requires
        max > 0,
    ensures
        text::views(final(chunks)@) == text::views(old(chunks)@) + windows(piece@, max as int),
{
    let chars = text::chars_of(piece);
    let mut from: usize = 0;
    assert(piece@.skip(0) =~= piece@);
    while from < chars.len()
        invariant
            max > 0,
            from <= chars@.len(),
            chars@ == piece@,
            text::views(chunks@) + windows(piece@.skip(from as int), max as int) =~= text::views(
                old(chunks)@,
            ) + windows(piece@, max as int),
        decreases chars@.len() - from,
    {
        let to: usize = if chars.len() - from <= max {
            chars.len()
        } else {
            from + max
        };
        let window = text::text_of(&chars, from, to);
        proof {
            text::lemma_views_push(chunks@, window);
            let rest = piece@.skip(from as int);
            if rest.len() <= max {
                assert(window@ =~= rest);
                assert(windows(piece@.skip(to as int), max as int) =~= Seq::empty());
            } else {
                assert(window@ =~= rest.take(max as int));
                assert(rest.skip(max as int) =~= piece@.skip(to as int));
            }
        }
        chunks.push(window);
        from = to;
    }
    assert(windows(piece@.skip(from as int), max as int) =~= Seq::empty());
}

/// Adds a text unless it is empty.
fn push_filled(chunks: &mut Vec<String>, chunk: String)
    ensures
        text::views(final(chunks)@) == text::views(old(chunks)@) + filled(chunk@),
{
    if !chunk.as_str().is_empty() {
        proof {
            text::lemma_views_push(chunks@, chunk);
        }
        chunks.push(chunk);
    }
    assert(text::views(chunks@) =~= text::views(old(chunks)@) + filled(chunk@));
}

/// Packs pieces into chunks of at most `max` characters.
fn pack_pieces(pieces: &[String], max: usize) -> (chunks: Vec<String>)
    requires
        max > 0,
    ensures
        text::views(chunks@) == pack(text::views(pieces@), Seq::empty(), max as int),
{
    let ghost all = text::views(pieces@);
    let mut chunks: Vec<String> = Vec::new();
    let mut current = String::new();
    let mut current_len: usize = 0;
    let mut k: usize = 0;
    assert(all.skip(0) =~= all);
    assert(text::views(chunks@) + pack(all, Seq::empty(), max as int) =~= pack(
        all,
        Seq::empty(),
        max as int,
    ));
    while k < pieces.len()
        invariant
            max > 0,
            k <= pieces@.len(),
            all == text::views(pieces@),
            current_len == current@.len(),
            current_len <= max,
            text::views(chunks@) + pack(all.skip(k as int), current@, max as int) == pack(
                all,
                Seq::empty(),
                max as int,
            ),
        decreases pieces@.len() - k,
    {
        let piece = pieces[k].as_str();
        let piece_len = piece.unicode_len();
        let ghost rest = all.skip(k as int);
        let ghost before = text::views(chunks@);
        let ghost filling = current@;
        proof {
            assert(rest[0] == piece@);
            assert(rest.skip(1) =~= all.skip(k + 1));
        }
        if piece_len > max {
            push_filled(&mut chunks, current);
            push_windows(&mut chunks, piece, max);
            current = String::new();
            current_len = 0;
            assert(text::views(chunks@) + pack(all.skip(k + 1), current@, max as int) =~= before
                + pack(rest, filling, max as int));
        } else if current_len == 0 {
            current = piece.to_owned();
            current_len = piece_len;
        } else if max - current_len <= piece_len {
            push_filled(&mut chunks, current);
            current = piece.to_owned();
            current_len = piece_len;
            assert(text::views(chunks@) + pack(all.skip(k + 1), current@, max as int) =~= before
                + pack(rest, filling, max as int));
        } else {
            current.push(' ');
            current.append(piece);
            current_len += 1 + piece_len;
        }
        k += 1;
    }
    assert(all.skip(k as int) =~= Seq::empty());
    push_filled(&mut chunks, current);
    chunks
}

/// Cuts a long text into chunks of at most `max_chars` characters, behind
/// sentences and lines where it can.
pub fn split_long_text(text: &str, max_chars: usize) -> (chunks: Vec<String>)
    requires
        max_chars > 0 || text@.len() == 0,
    ensures
        text::views(chunks@) == long_text_chunks(text@, max_chars as int),
{
    if text.unicode_len() <= max_chars {
        let mut chunks: Vec<String> = Vec::new();
        chunks.push(text.to_owned());
        assert(text::views(chunks@) =~= seq![text@]);
        return chunks;
    }
    let chars = text::chars_of(text);
    let mut found = cut_pieces(&chars);
    if found.len() == 0 {
        found.push(text.to_owned());
        assert(pieces(text@).len() == 0);
        assert(text::views(found@) =~= seq![text@]);
    }
    pack_pieces(&found, max_chars)
}

/// Whether every text has at least one and at most `max` characters.
pub open spec fn fit(texts: Seq<Seq<char>>, max: int) -> bool {
    forall|k: int| 0 <= k < texts.len() ==> 0 < (#[trigger] texts[k]).len() <= max
}

proof fn lemma_fit_add(a: Seq<Seq<char>>, b: Seq<Seq<char>>, max: int)
    requires
        fit(a, max),
        fit(b, max),
    ensures
        fit(a + b, max),
{
    assert forall|k: int| 0 <= k < (a + b).len() implies 0 < (#[trigger] (a + b)[k]).len() <= max by {
        if k < a.len() {
            assert((a + b)[k] == a[k]);
        } else {
            assert((a + b)[k] == b[k - a.len()]);
        }
    }
}

proof fn lemma_windows(s: Seq<char>, max: int)
    requires
        max > 0,
    ensures
        fit(windows(s, max), max),
        text::concat(windows(s, max)) == s,
    decreases s.len(),
{
    if s.len() == 0 {
    } else if s.len() <= max {
        text::lemma_concat_one(s);
    } else {
        lemma_windows(s.skip(max), max);
        lemma_fit_add(seq![s.take(max)], windows(s.skip(max), max), max);
        text::lemma_concat_add(seq![s.take(max)], windows(s.skip(max), max));
        text::lemma_concat_one(s.take(max));
        assert(s.take(max) + s.skip(max) =~= s);
    }
}

proof fn lemma_pack_fits(pieces: Seq<Seq<char>>, current: Seq<char>, max: int)
    requires
        max > 0,
        current.len() <= max,
    ensures
        fit(pack(pieces, current, max), max),
        current.len() > 0 ==> pack(pieces, current, max).len() > 0,
        pieces.len() > 0 && pieces[0].len() > 0 ==> pack(pieces, current, max).len() > 0,
    decreases pieces.len(),
{
    if pieces.len() > 0 {
        let piece = pieces[0];
        let rest = pieces.skip(1);
        if piece.len() > max {
            lemma_windows(piece, max);
            lemma_pack_fits(rest, Seq::empty(), max);
            lemma_fit_add(filled(current), windows(piece, max), max);
            lemma_fit_add(
                filled(current) + windows(piece, max),
                pack(rest, Seq::empty(), max),
                max,
            );
            if windows(piece, max).len() == 0 {
                assert(text::concat(windows(piece, max)) =~= Seq::empty());
            }
        } else if current.len() == 0 {
            lemma_pack_fits(rest, piece, max);
        } else if current.len() + 1 + piece.len() > max {
            lemma_pack_fits(rest, piece, max);
            lemma_fit_add(seq![current], pack(rest, piece, max), max);
        } else {
            lemma_pack_fits(rest, current.push(' ') + piece, max);
        }
    }
}

pub proof fn lemma_pieces_fit(s: Seq<char>, start: int, i: int)
    requires
        0 <= start <= i <= s.len(),
    ensures
        fit(pieces_from(s, start, i), s.len() as int),
    decreases s.len() - i,
{
    if i < s.len() {
        lemma_resume(s, i);
        let j = resume(s, i);
        if cuts(s, i) {
            lemma_trimmed_fits(s, s.subrange(start, j));
            lemma_pieces_fit(s, j, j);
            lemma_fit_add(piece(s.subrange(start, j)), pieces_from(s, j, j), s.len() as int);
        } else {
            lemma_pieces_fit(s, start, j);
        }
    } else {
        lemma_trimmed_fits(s, s.subrange(start, s.len() as int));
    }
}

proof fn lemma_trimmed_fits(s: Seq<char>, part: Seq<char>)
    requires
        part.len() <= s.len(),
    ensures
        fit(piece(part), s.len() as int),
{
    text::lemma_trim_len(part);
    text::lemma_trim_len(text::trim_start(part));
}

/// No chunk is longer than `max` characters, there is at least one, and of a
/// text that is not empty none is empty.
pub proof fn law_chunks_fit(s: Seq<char>, max: int)
    requires
        max > 0,
    ensures
        long_text_chunks(s, max).len() > 0,
        s.len() == 0 ==> long_text_chunks(s, max) == seq![s],
        s.len() > 0 ==> fit(long_text_chunks(s, max), max),
{
    if s.len() > max {
        lemma_pieces_fit(s, 0, 0);
        if pieces(s).len() == 0 {
            lemma_pack_fits(seq![s], Seq::empty(), max);
        } else {
            lemma_pack_fits(pieces(s), Seq::empty(), max);
        }
    }
}

proof fn lemma_pieces_solid(s: Seq<char>, start: int, i: int)
    requires
        0 <= start <= i <= s.len(),
    ensures
        text::solid(text::concat(pieces_from(s, start, i))) == text::solid(
            s.subrange(start, s.len() as int),
        ),
    decreases s.len() - i,
{
    if i < s.len() {
        lemma_resume(s, i);
        let j = resume(s, i);
        if cuts(s, i) {
            let head = s.subrange(start, j);
            let tail = s.subrange(j, s.len() as int);
            lemma_pieces_solid(s, j, j);
            lemma_piece_solid(head);
            text::lemma_concat_add(piece(head), pieces_from(s, j, j));
            text::lemma_solid_add(text::concat(piece(head)), text::concat(pieces_from(s, j, j)));
            text::lemma_solid_add(head, tail);
            assert(head + tail =~= s.subrange(start, s.len() as int));
        } else {
            lemma_pieces_solid(s, start, j);
        }
    } else {
        lemma_piece_solid(s.subrange(start, s.len() as int));
    }
}

proof fn lemma_piece_solid(s: Seq<char>)
    ensures
        text::solid(text::concat(piece(s))) == text::solid(s),
{
    text::law_trim_keeps_solid(s);
    if text::trim(s).len() == 0 {
        assert(text::trim(s) =~= text::concat(piece(s)));
    } else {
        text::lemma_concat_one(text::trim(s));
    }
}

proof fn lemma_pack_solid(pieces: Seq<Seq<char>>, current: Seq<char>, max: int)
    requires
        max > 0,
    ensures
        text::solid(text::concat(pack(pieces, current, max))) == text::solid(current) + text::solid(
            text::concat(pieces),
        ),
    decreases pieces.len(),
{
    lemma_filled_concat(current);
    if pieces.len() == 0 {
        assert(text::solid(text::concat(pieces)) =~= Seq::empty());
    } else {
        let piece = pieces[0];
        let rest = pieces.skip(1);
        assert(pieces =~= seq![piece] + rest);
        text::lemma_concat_add(seq![piece], rest);
        text::lemma_concat_one(piece);
        text::lemma_solid_add(piece, text::concat(rest));
        let whole = text::solid(current) + text::solid(piece) + text::solid(text::concat(rest));
        assert(text::solid(current) + text::solid(text::concat(pieces)) =~= whole);
        if piece.len() > max {
            let tail = pack(rest, Seq::empty(), max);
            lemma_windows(piece, max);
            lemma_pack_solid(rest, Seq::empty(), max);
            text::lemma_concat_add(filled(current) + windows(piece, max), tail);
            text::lemma_concat_add(filled(current), windows(piece, max));
            text::lemma_solid_add(current + piece, text::concat(tail));
            text::lemma_solid_add(current, piece);
            assert(text::solid(Seq::<char>::empty()) =~= Seq::empty());
            assert(text::solid(text::concat(pack(pieces, current, max))) =~= whole);
        } else if current.len() == 0 {
            lemma_pack_solid(rest, piece, max);
            assert(text::solid(current) =~= Seq::empty());
        } else if current.len() + 1 + piece.len() > max {
            let tail = pack(rest, piece, max);
            lemma_pack_solid(rest, piece, max);
            text::lemma_concat_add(seq![current], tail);
            text::lemma_concat_one(current);
            text::lemma_solid_add(current, text::concat(tail));
            assert(text::solid(text::concat(pack(pieces, current, max))) =~= whole);
        } else {
            lemma_pack_solid(rest, current.push(' ') + piece, max);
            assert(current.push(' ') =~= current + seq![' ']);
            text::lemma_solid_add(current, seq![' ']);
            text::lemma_solid_white(' ');
            text::lemma_solid_add(current.push(' '), piece);
            assert(text::solid(text::concat(pack(pieces, current, max))) =~= whole);
        }
    }
}

proof fn lemma_filled_concat(s: Seq<char>)
    ensures
        text::concat(filled(s)) == s,
{
    if s.len() == 0 {
        assert(text::concat(filled(s)) =~= s);
    } else {
        text::lemma_concat_one(s);
    }
}

/// Splitting loses nothing but white space: the chunks one after the other hold
/// the same characters other than white space as the text, in the same order.
pub proof fn law_chunks_keep_solid(s: Seq<char>, max: int)
    requires
        max > 0,
    ensures
        text::solid(text::concat(long_text_chunks(s, max))) == text::solid(s),
{
    let none = Seq::<char>::empty();
    assert(text::solid(none) =~= none);
    if s.len() <= max {
        text::lemma_concat_one(s);
    } else if pieces(s).len() == 0 {
        lemma_pack_solid(seq![s], none, max);
        text::lemma_concat_one(s);
        assert(none + text::solid(s) =~= text::solid(s));
    } else {
        lemma_pack_solid(pieces(s), none, max);
        lemma_pieces_solid(s, 0, 0);
        assert(s.subrange(0, s.len() as int) =~= s);
        assert(none + text::solid(s) =~= text::solid(s));
    }
}

} // verus!

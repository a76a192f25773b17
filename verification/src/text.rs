//! Characters and strings: the character classes and the few operations on
//! text that the other modules are built from.
use vstd::prelude::*;

verus! {

/// `String::push` appends one character.
pub assume_specification[ String::push ](s: &mut String, c: char)
    ensures
        final(s)@ == old(s)@.push(c),
;

/// Whether a character has the Unicode property `White_Space`.
pub open spec fn white_space(c: char) -> bool {
    let n = c as u32;
    ||| 0x9 <= n <= 0xd
    ||| n == 0x20
    ||| n == 0x85
    ||| n == 0xa0
    ||| n == 0x1680
    ||| 0x2000 <= n <= 0x200a
    ||| n == 0x2028
    ||| n == 0x2029
    ||| n == 0x202f
    ||| n == 0x205f
    ||| n == 0x3000
}

/// `char::is_whitespace` tells whether a character has the Unicode property
/// `White_Space`.
pub assume_specification[ char::is_whitespace ](c: char) -> (r: bool)
    ensures
        r == white_space(c),
;

/// Whether a character outside ASCII has the Unicode property `Alphabetic`.
pub uninterp spec fn wide_alphabetic(c: char) -> bool;

/// Whether a character has the Unicode property `Alphabetic`. Within ASCII these are
/// the letters.
pub open spec fn alphabetic(c: char) -> bool {
    if (c as u32) < 128 {
        'a' <= c <= 'z' || 'A' <= c <= 'Z'
    } else {
        wide_alphabetic(c)
    }
}

/// `char::is_alphabetic` tells whether a character has the Unicode property
/// `Alphabetic`.
pub assume_specification[ char::is_alphabetic ](c: char) -> (r: bool)
    ensures
        (c as u32) < 128 ==> r == alphabetic(c),
        (c as u32) >= 128 ==> r == wide_alphabetic(c),
;

/// The text without the white space at its start.
pub open spec fn trim_start(s: Seq<char>) -> Seq<char>
    decreases s.len(),
{
    if s.len() > 0 && white_space(s[0]) {
        trim_start(s.skip(1))
    } else {
        s
    }
}

/// The text without the white space at its end.
pub open spec fn trim_end(s: Seq<char>) -> Seq<char>
    decreases s.len(),
{
    if s.len() > 0 && white_space(s.last()) {
        trim_end(s.drop_last())
    } else {
        s
    }
}

/// The text without the white space at either end.
pub open spec fn trim(s: Seq<char>) -> Seq<char> {
    trim_end(trim_start(s))
}

/// The characters of a text that are not white space, in order.
pub open spec fn solid(s: Seq<char>) -> Seq<char> {
    s.filter(|c: char| !white_space(c))
}

/// What each of a list of strings holds.
pub open spec fn views(strings: Seq<String>) -> Seq<Seq<char>> {
    Seq::new(strings.len(), |i: int| strings[i]@)
}

/// The texts one after the other.
pub open spec fn concat<T>(parts: Seq<Seq<T>>) -> Seq<T>
    decreases parts.len(),
{
    if parts.len() == 0 {
        Seq::empty()
    } else {
        concat(parts.drop_last()) + parts.last()
    }
}

/// The texts one after the other, with a newline between each two.
pub open spec fn join_lines(parts: Seq<Seq<char>>) -> Seq<char>
    decreases parts.len(),
{
    if parts.len() == 0 {
        Seq::empty()
    } else if parts.len() == 1 {
        parts[0]
    } else {
        join_lines(parts.drop_last()).push('\n') + parts.last()
    }
}

pub proof fn lemma_join_lines_push(parts: Seq<Seq<char>>, part: Seq<char>)
    requires
        parts.len() > 0,
    ensures
        join_lines(parts.push(part)) == join_lines(parts).push('\n') + part,
{
    assert(parts.push(part).drop_last() =~= parts);
}

pub proof fn lemma_concat_add<T>(a: Seq<Seq<T>>, b: Seq<Seq<T>>)
    ensures
        concat(a + b) == concat(a) + concat(b),
    decreases b.len(),
{
    if b.len() == 0 {
        assert(a + b =~= a);
    } else {
        assert((a + b).drop_last() =~= a + b.drop_last());
        lemma_concat_add(a, b.drop_last());
    }
}

pub proof fn lemma_concat_one<T>(part: Seq<T>)
    ensures
        concat(seq![part]) == part,
{
    assert(seq![part].drop_last() =~= Seq::<Seq<T>>::empty());
    assert(concat(seq![part].drop_last()) =~= Seq::<T>::empty());
}

/// Where text `k` starts when the texts stand one after the other.
pub open spec fn offset<T>(parts: Seq<Seq<T>>, k: int) -> int {
    concat(parts.take(k)).len() as int
}

pub proof fn lemma_offset<T>(parts: Seq<Seq<T>>, k: int)
    requires
        0 <= k < parts.len(),
    ensures
        0 <= offset(parts, k),
        offset(parts, k + 1) == offset(parts, k) + parts[k].len(),
        offset(parts, k + 1) <= concat(parts).len(),
        concat(parts).subrange(offset(parts, k), offset(parts, k + 1)) == parts[k],
{
    let front = parts.take(k + 1);
    assert(front.drop_last() =~= parts.take(k));
    assert(parts =~= front + parts.skip(k + 1));
    lemma_concat_add(front, parts.skip(k + 1));
    assert(concat(parts).subrange(offset(parts, k), offset(parts, k + 1)) =~= parts[k]);
}

pub proof fn lemma_offset_order<T>(parts: Seq<Seq<T>>, j: int, k: int)
    requires
        0 <= j <= k <= parts.len(),
    ensures
        offset(parts, j) <= offset(parts, k),
    decreases k - j,
{
    if j < k {
        lemma_offset(parts, j);
        lemma_offset_order(parts, j + 1, k);
    }
}

pub proof fn lemma_offset_ends<T>(parts: Seq<Seq<T>>)
    ensures
        offset(parts, 0) == 0,
        offset(parts, parts.len() as int) == concat(parts).len(),
{
    assert(parts.take(0) =~= Seq::empty());
    assert(parts.take(parts.len() as int) =~= parts);
}

pub proof fn lemma_views_push(strings: Seq<String>, s: String)
    ensures
        views(strings.push(s)) == views(strings).push(s@),
{
    assert(views(strings.push(s)) =~= views(strings).push(s@));
}

pub proof fn lemma_solid_add(a: Seq<char>, b: Seq<char>)
    ensures
        solid(a + b) == solid(a) + solid(b),
{
    Seq::filter_distributes_over_add(a, b, |c: char| !white_space(c));
}

pub proof fn lemma_solid_white(c: char)
    requires
        white_space(c),
    ensures
        solid(seq![c]) == Seq::<char>::empty(),
{
    reveal_with_fuel(Seq::filter, 2);
    assert(seq![c].drop_last() =~= Seq::<char>::empty());
    assert(solid(seq![c]) =~= Seq::<char>::empty());
}

pub proof fn lemma_solid_trim_start(s: Seq<char>)
    ensures
        solid(trim_start(s)) == solid(s),
    decreases s.len(),
{
    if s.len() > 0 && white_space(s[0]) {
        lemma_solid_trim_start(s.skip(1));
        assert(s =~= seq![s[0]] + s.skip(1));
        lemma_solid_add(seq![s[0]], s.skip(1));
        lemma_solid_white(s[0]);
        assert(solid(s) =~= solid(s.skip(1)));
    }
}

pub proof fn lemma_solid_trim_end(s: Seq<char>)
    ensures
        solid(trim_end(s)) == solid(s),
    decreases s.len(),
{
    if s.len() > 0 && white_space(s.last()) {
        lemma_solid_trim_end(s.drop_last());
        assert(s =~= s.drop_last() + seq![s.last()]);
        lemma_solid_add(s.drop_last(), seq![s.last()]);
        lemma_solid_white(s.last());
        assert(solid(s) =~= solid(s.drop_last()));
    }
}

/// Trimming takes away white space and nothing else.
pub proof fn law_trim_keeps_solid(s: Seq<char>)
    ensures
        solid(trim(s)) == solid(s),
{
    lemma_solid_trim_start(s);
    lemma_solid_trim_end(trim_start(s));
}

pub proof fn lemma_trim_len(s: Seq<char>)
    ensures
        trim_start(s).len() <= s.len(),
        trim_end(s).len() <= s.len(),
    decreases s.len(),
{
    if s.len() > 0 {
        if white_space(s[0]) {
            lemma_trim_len(s.skip(1));
        }
        if white_space(s.last()) {
            lemma_trim_len(s.drop_last());
        }
    }
}

/// Where the text from `from` up to `to` starts and ends once it is trimmed.
pub fn trim_bounds(chars: &[char], from: usize, to: usize) -> (bounds: (usize, usize))
    requires
        from <= to <= chars@.len(),
    ensures
        from <= bounds.0 <= bounds.1 <= to,
        chars@.subrange(bounds.0 as int, bounds.1 as int) == trim(
            chars@.subrange(from as int, to as int),
        ),
{
    let mut a: usize = from;
    while a < to && chars[a].is_whitespace()
        invariant
            from <= a <= to <= chars@.len(),
            trim_start(chars@.subrange(a as int, to as int)) == trim_start(
                chars@.subrange(from as int, to as int),
            ),
        decreases to - a,
    {
        assert(chars@.subrange(a as int, to as int).skip(1) =~= chars@.subrange(
            a + 1,
            to as int,
        ));
        a += 1;
    }
    let mut b: usize = to;
    let ghost inner = chars@.subrange(a as int, to as int);
    while a < b && chars[b - 1].is_whitespace()
        invariant
            from <= a <= b <= to <= chars@.len(),
            trim_end(chars@.subrange(a as int, b as int)) == trim_end(inner),
        decreases b - a,
    {
        assert(chars@.subrange(a as int, b as int).drop_last() =~= chars@.subrange(
            a as int,
            b - 1,
        ));
        b -= 1;
    }
    (a, b)
}

/// Whether a text is worth a request: without the white space around it, it has at
/// least two bytes and some letter.
pub open spec fn translatable(s: Seq<char>) -> bool {
    &&& vstd::utf8::encode_utf8(trim(s)).len() >= 2
    &&& exists|k: int| 0 <= k < trim(s).len() && alphabetic(#[trigger] trim(s)[k])
}

/// Tests whether a text is worth a request.
pub fn looks_translatable(text: &str) -> (worth: bool)
    ensures
        worth == translatable(text@),
{
    let chars = chars_of(text);
    let (a, b) = trim_bounds(&chars, 0, chars.len());
    assert(chars@.subrange(0, chars@.len() as int) =~= chars@);
    let trimmed = text_of(&chars, a, b);
    assert(trimmed@ == trim(text@));
    if trimmed.as_str().as_bytes().len() < 2 {
        return false;
    }
    let mut i: usize = a;
    while i < b
        invariant
            a <= i <= b <= chars@.len(),
            trim(text@) == chars@.subrange(a as int, b as int),
            vstd::utf8::encode_utf8(trim(text@)).len() >= 2,
            forall|k: int| 0 <= k < i - a ==> !alphabetic(#[trigger] trim(text@)[k]),
        decreases b - i,
    {
        assert(trim(text@)[i - a] == chars@[i as int]);
        if chars[i].is_alphabetic() {
            return true;
        }
        i += 1;
    }
    false
}

/// The characters of a text, in order.
pub fn chars_of(text: &str) -> (chars: Vec<char>)
    ensures
        chars@ == text@,
{
    let mut chars: Vec<char> = Vec::new();
    for c in it: text.chars()
        invariant
            it.seq() == text@,
            chars@ == it.seq().take(it.index() as int),
    {
        chars.push(c);
    }
    chars
}

/// The text made of the characters from `from` up to `to`.
pub fn text_of(chars: &[char], from: usize, to: usize) -> (text: String)
    requires
        from <= to <= chars@.len(),
    ensures
        text@ == chars@.subrange(from as int, to as int),
{
    let mut text = String::new();
    let mut i: usize = from;
    while i < to
        invariant
            from <= i <= to <= chars@.len(),
            text@ == chars@.subrange(from as int, i as int),
        decreases to - i,
    {
        text.push(chars[i]);
        i += 1;
    }
    text
}

/// Whether a text is white space from end to end.
pub open spec fn blank(s: Seq<char>) -> bool {
    forall|k: int| 0 <= k < s.len() ==> white_space(#[trigger] s[k])
}

proof fn lemma_trim_start_blank(blanks: Seq<char>, s: Seq<char>)
    requires
        blank(blanks),
        s.len() > 0 ==> !white_space(s[0]),
    ensures
        trim_start(blanks + s) == s,
    decreases blanks.len(),
{
    if blanks.len() == 0 {
        assert(blanks + s =~= s);
    } else {
        let fewer = blanks.skip(1);
        assert forall|k: int| 0 <= k < fewer.len() implies white_space(#[trigger] fewer[k]) by {
            assert(white_space(blanks[k + 1]));
        }
        lemma_trim_start_blank(fewer, s);
        assert((blanks + s)[0] == blanks[0]);
        assert((blanks + s).skip(1) =~= fewer + s);
    }
}

proof fn lemma_trim_end_blank(s: Seq<char>, blanks: Seq<char>)
    requires
        blank(blanks),
        s.len() > 0 ==> !white_space(s.last()),
    ensures
        trim_end(s + blanks) == s,
    decreases blanks.len(),
{
    if blanks.len() == 0 {
        assert(s + blanks =~= s);
    } else {
        let fewer = blanks.drop_last();
        assert forall|k: int| 0 <= k < fewer.len() implies white_space(#[trigger] fewer[k]) by {
            assert(white_space(blanks[k]));
        }
        lemma_trim_end_blank(s, fewer);
        assert((s + blanks).last() == blanks[blanks.len() - 1]);
        assert((s + blanks).drop_last() =~= s + fewer);
    }
}

/// Trimming takes away all white space before and behind a text that neither starts nor
/// ends with any, and leaves the text itself.
pub proof fn law_trim_leaves_the_text(before: Seq<char>, s: Seq<char>, behind: Seq<char>)
    requires
        blank(before),
        blank(behind),
        s.len() > 0 ==> !white_space(s[0]) && !white_space(s.last()),
    ensures
        trim(before + s + behind) == s,
{
    if s.len() == 0 {
        let all = before + behind;
        assert forall|k: int| 0 <= k < all.len() implies white_space(#[trigger] all[k]) by {
            if k < before.len() {
                assert(white_space(before[k]));
            } else {
                assert(white_space(behind[k - before.len()]));
            }
        }
        lemma_trim_start_blank(all, s);
        assert(before + s + behind =~= all + s);
        assert(trim_end(s) =~= s);
    } else {
        lemma_trim_start_blank(before, s + behind);
        assert(before + s + behind =~= before + (s + behind));
        assert((s + behind)[0] == s[0]);
        lemma_trim_end_blank(s, behind);
    }
}

/// Every text is white space, what trimming leaves of it, and white space again.
pub proof fn lemma_trim_parts(s: Seq<char>) -> (around: (Seq<char>, Seq<char>))
    ensures
        blank(around.0),
        blank(around.1),
        s == around.0 + trim(s) + around.1,
        trim(s).len() > 0 ==> !white_space(trim(s)[0]) && !white_space(trim(s).last()),
{
    let before = lemma_trim_start_parts(s);
    let inner = trim_start(s);
    let behind = lemma_trim_end_parts(inner);
    assert(s =~= before + trim(s) + behind);
    (before, behind)
}

proof fn lemma_trim_start_parts(s: Seq<char>) -> (before: Seq<char>)
    ensures
        blank(before),
        s == before + trim_start(s),
        trim_start(s).len() > 0 ==> !white_space(trim_start(s)[0]),
    decreases s.len(),
{
    if s.len() > 0 && white_space(s[0]) {
        let fewer = lemma_trim_start_parts(s.skip(1));
        let before = seq![s[0]] + fewer;
        assert forall|k: int| 0 <= k < before.len() implies white_space(#[trigger] before[k]) by {
            if k > 0 {
                assert(white_space(fewer[k - 1]));
            }
        }
        assert(s =~= seq![s[0]] + s.skip(1));
        assert(before + trim_start(s) =~= seq![s[0]] + (fewer + trim_start(s.skip(1))));
        before
    } else {
        assert(s =~= Seq::<char>::empty() + s);
        Seq::empty()
    }
}

proof fn lemma_trim_end_parts(s: Seq<char>) -> (behind: Seq<char>)
    ensures
        blank(behind),
        s == trim_end(s) + behind,
        trim_end(s).len() > 0 ==> !white_space(trim_end(s).last()) && trim_end(s)[0] == s[0],
    decreases s.len(),
{
    if s.len() > 0 && white_space(s.last()) {
        let fewer = lemma_trim_end_parts(s.drop_last());
        let behind = fewer.push(s.last());
        assert forall|k: int| 0 <= k < behind.len() implies white_space(#[trigger] behind[k]) by {
            if k < fewer.len() {
                assert(white_space(fewer[k]));
            }
        }
        assert(s =~= s.drop_last().push(s.last()));
        assert(trim_end(s) + behind =~= (trim_end(s.drop_last()) + fewer).push(s.last()));
        behind
    } else {
        assert(s =~= s + Seq::<char>::empty());
        Seq::empty()
    }
}

proof fn lemma_bytes_at_least(s: Seq<char>)
    ensures
        vstd::utf8::encode_utf8(s).len() >= s.len(),
        s.len() > 0 && s[0] as u32 >= 128 ==> vstd::utf8::encode_utf8(s).len() >= 2,
        s.len() == 1 && (s[0] as u32) < 128 ==> vstd::utf8::encode_utf8(s).len() == 1,
    decreases s.len(),
{
    if s.len() > 0 {
        lemma_bytes_at_least(s.drop_first());
        if s.len() == 1 {
            assert(s.drop_first() =~= Seq::empty());
            assert(vstd::utf8::encode_utf8(s.drop_first()).len() == 0);
        }
    }
}

/// A text without a letter is not worth a request. One with a letter is, if something else
/// than white space stands with it or the letter is not of ASCII. A letter of ASCII alone is
/// not worth one.
pub proof fn law_letters_are_worth_a_request(s: Seq<char>, k: int)
    ensures
        (forall|j: int| 0 <= j < s.len() ==> !alphabetic(#[trigger] s[j])) ==> !translatable(s),
        0 <= k < s.len() && alphabetic(s[k]) && !white_space(s[k]) && (s[k] as u32 >= 128
            || exists|j: int| 0 <= j < s.len() && j != k && !white_space(#[trigger] s[j]))
            ==> translatable(s),
        0 <= k < s.len() && (s[k] as u32) < 128 && (forall|j: int|
            0 <= j < s.len() && j != k ==> white_space(#[trigger] s[j])) ==> !translatable(s),
{
    let (before, behind) = lemma_trim_parts(s);
    let t = trim(s);
    let off = before.len() as int;
    lemma_bytes_at_least(t);
    assert forall|j: int| 0 <= j < t.len() implies s[off + j] == #[trigger] t[j] by {}
    assert forall|j: int| 0 <= j < s.len() && !white_space(#[trigger] s[j]) implies off <= j < off
        + t.len() by {
        if j < off {
            assert(white_space(before[j]));
        } else if j >= off + t.len() {
            assert(white_space(behind[j - off - t.len()]));
        }
    }
    if 0 <= k < s.len() && alphabetic(s[k]) && !white_space(s[k]) {
        assert(t[k - off] == s[k]);
        assert(alphabetic(t[k - off]));
        if exists|j: int| 0 <= j < s.len() && j != k && !white_space(#[trigger] s[j]) {
            let j = choose|j: int| 0 <= j < s.len() && j != k && !white_space(#[trigger] s[j]);
            assert(off <= j < off + t.len());
            assert(t.len() >= 2);
        } else if s[k] as u32 >= 128 {
            if t.len() == 1 {
                assert(t[0] == s[k]);
            }
        }
    }
    if translatable(s) {
        let m = choose|m: int| 0 <= m < t.len() && alphabetic(#[trigger] t[m]);
        assert(alphabetic(s[off + m]));
        if 0 <= k < s.len() && (s[k] as u32) < 128 && (forall|j: int|
            0 <= j < s.len() && j != k ==> white_space(#[trigger] s[j])) {
            assert(!white_space(t[0]));
            assert(!white_space(s[off]));
            assert(off == k);
            assert(!white_space(t.last()));
            assert(!white_space(s[off + t.len() - 1]));
            assert(t.len() == 1);
        }
    }
}

/// Joining is done piece by piece: a newline stands between what two lists give.
pub proof fn law_join_lines_add(a: Seq<Seq<char>>, b: Seq<Seq<char>>)
    requires
        a.len() > 0,
        b.len() > 0,
    ensures
        join_lines(a + b) == join_lines(a) + seq!['\n'] + join_lines(b),
        a.len() == 1 ==> join_lines(a) == a[0],
    decreases b.len(),
{
    assert((a + b).drop_last() =~= a + b.drop_last());
    assert((a + b).last() == b.last());
    if b.len() == 1 {
        assert(a + b.drop_last() =~= a);
        assert(join_lines(a).push('\n') + b.last() =~= join_lines(a) + seq!['\n'] + b[0]);
    } else {
        law_join_lines_add(a, b.drop_last());
        assert(join_lines(a + b) =~= join_lines(a) + seq!['\n'] + join_lines(b));
    }
}

} // verus!

//! Finding and replacing one text within another, and cutting a text into lines.
use vstd::prelude::*;
use crate::text;

verus! {

/// Whether `pattern` stands in `s` at position `i`.
pub open spec fn occurs_at<T>(s: Seq<T>, i: int, pattern: Seq<T>) -> bool {
    &&& 0 <= i
    &&& i + pattern.len() <= s.len()
    &&& s.subrange(i, i + pattern.len()) == pattern
}

/// Whether `pattern` stands in `s` somewhere.
pub open spec fn contains<T>(s: Seq<T>, pattern: Seq<T>) -> bool {
    exists|i: int| occurs_at(s, i, pattern)
}

/// The text from `i` on with every occurrence of `pattern` replaced. Each
/// occurrence is looked for behind the one before.
pub open spec fn replaced_from<T>(s: Seq<T>, i: int, pattern: Seq<T>, by: Seq<T>) -> Seq<T>
    decreases s.len() - i,
{
    if i < 0 || i >= s.len() || pattern.len() == 0 {
        Seq::empty()
    } else if occurs_at(s, i, pattern) {
        by + replaced_from(s, i + pattern.len(), pattern, by)
    } else {
        seq![s[i]] + replaced_from(s, i + 1, pattern, by)
    }
}

/// The text with every occurrence of a pattern replaced, from the left and
/// without overlaps.
pub open spec fn replaced<T>(s: Seq<T>, pattern: Seq<T>, by: Seq<T>) -> Seq<T> {
    replaced_from(s, 0, pattern, by)
}

/// Tests whether `pattern` stands in `s` at position `i`.
pub fn is_at(s: &[char], i: usize, pattern: &[char]) -> (found: bool)
    requires
        i <= s@.len(),
    ensures
        found == occurs_at(s@, i as int, pattern@),
{
    if pattern.len() > s.len() - i {
        return false;
    }
    let len = s.len();
    let mut k: usize = 0;
    while k < pattern.len()
        invariant
            len == s@.len(),
            k <= pattern@.len(),
            i + pattern@.len() <= s@.len(),
            forall|j: int| 0 <= j < k ==> s@[i + j] == #[trigger] pattern@[j],
        decreases pattern@.len() - k,
    {
        if s[i + k] != pattern[k] {
            assert(s@.subrange(i as int, i + pattern@.len())[k as int] != pattern@[k as int]);
            return false;
        }
        k += 1;
    }
    assert(s@.subrange(i as int, i + pattern@.len()) =~= pattern@);
    true
}

/// Tests whether `pattern` stands in `s` somewhere.
pub fn has(s: &[char], pattern: &[char]) -> (found: bool)
    ensures
        found == contains(s@, pattern@),
{
    let mut i: usize = 0;
    loop
        invariant
            i <= s@.len(),
            forall|j: int| 0 <= j < i ==> !occurs_at(s@, j, pattern@),
        decreases s@.len() - i,
    {
        if is_at(s, i, pattern) {
            return true;
        }
        if i == s.len() {
            return false;
        }
        i += 1;
    }
}

/// The lines of a text: what stands between its newlines. A text without a
/// newline is one line.
pub open spec fn lines(s: Seq<char>) -> Seq<Seq<char>>
    decreases s.len(),
{
    if s.len() == 0 {
        seq![s]
    } else {
        let before = lines(s.drop_last());
        if s.last() == '\n' {
            before.push(Seq::empty())
        } else {
            before.drop_last().push(before.last().push(s.last()))
        }
    }
}

proof fn lemma_lines_some(s: Seq<char>)
    ensures
        lines(s).len() > 0,
    decreases s.len(),
{
    if s.len() > 0 {
        lemma_lines_some(s.drop_last());
    }
}

/// Cuts a text into its lines.
pub fn split_lines(s: &str) -> (found: Vec<String>)
    ensures
        text::views(found@) == lines(s@),
        found@.len() > 0,
{
    let chars = text::chars_of(s);
    let mut found: Vec<String> = Vec::new();
    let mut line = String::new();
    let mut i: usize = 0;
    assert(s@.take(0) =~= line@);
    assert(text::views(found@).push(line@) =~= seq![line@]);
    while i < chars.len()
        invariant
            i <= chars@.len(),
            chars@ == s@,
            text::views(found@).push(line@) == lines(s@.take(i as int)),
        decreases chars@.len() - i,
    {
        let ghost before = text::views(found@);
        let ghost unfinished = line@;
        assert(s@.take(i + 1).drop_last() =~= s@.take(i as int));
        assert(before.push(unfinished).drop_last() =~= before);
        if chars[i] == '\n' {
            proof {
                text::lemma_views_push(found@, line);
            }
            found.push(line);
            line = String::new();
        } else {
            line.push(chars[i]);
        }
        i += 1;
        assert(text::views(found@).push(line@) =~= lines(s@.take(i as int)));
    }
    proof {
        assert(s@.take(i as int) =~= s@);
        text::lemma_views_push(found@, line);
    }
    found.push(line);
    found
}

/// Whether no text holds a newline.
pub open spec fn single_lines(parts: Seq<Seq<char>>) -> bool {
    forall|k: int, j: int|
        0 <= k < parts.len() && 0 <= j < parts[k].len() ==> #[trigger] parts[k][j] != '\n'
}

proof fn lemma_lines_add(s: Seq<char>, t: Seq<char>)
    requires
        forall|j: int| 0 <= j < t.len() ==> #[trigger] t[j] != '\n',
    ensures
        lines(s + t) == lines(s).drop_last().push(lines(s).last() + t),
    decreases t.len(),
{
    lemma_lines_some(s);
    if t.len() == 0 {
        assert(s + t =~= s);
        assert(lines(s).last() + t =~= lines(s).last());
        assert(lines(s) =~= lines(s).drop_last().push(lines(s).last()));
    } else {
        let shorter = t.drop_last();
        lemma_lines_add(s, shorter);
        assert((s + t).drop_last() =~= s + shorter);
        assert((s + t).last() == t.last());
        let before = lines(s).drop_last().push(lines(s).last() + shorter);
        assert(before.drop_last() =~= lines(s).drop_last());
        assert((lines(s).last() + shorter).push(t.last()) =~= lines(s).last() + t);
    }
}

/// Texts that hold no newline come back when they are joined by newlines and
/// cut into lines again.
pub proof fn law_joined_lines_come_back(parts: Seq<Seq<char>>)
    requires
        parts.len() > 0,
        single_lines(parts),
    ensures
        lines(text::join_lines(parts)) == parts,
    decreases parts.len(),
{
    let none = Seq::<char>::empty();
    if parts.len() == 1 {
        assert forall|j: int| 0 <= j < parts[0].len() implies #[trigger] parts[0][j] != '\n' by {}
        lemma_lines_add(none, parts[0]);
        assert(none + parts[0] =~= parts[0]);
        assert(lines(none) =~= seq![none]);
        assert(lines(parts[0]) =~= parts);
    } else {
        let front = parts.drop_last();
        assert forall|k: int, j: int|
            0 <= k < front.len() && 0 <= j < front[k].len() implies #[trigger] front[k][j] != '\n' by {
            assert(parts[k][j] != '\n');
        }
        law_joined_lines_come_back(front);
        let cut = text::join_lines(front).push('\n');
        assert(cut.drop_last() =~= text::join_lines(front));
        assert(lines(cut) == front.push(none));
        assert forall|j: int| 0 <= j < parts.last().len() implies #[trigger] parts.last()[j] != '\n' by {
            assert(parts[parts.len() - 1][j] != '\n');
        }
        lemma_lines_add(cut, parts.last());
        assert(front.push(none).drop_last() =~= front);
        assert(none + parts.last() =~= parts.last());
        assert(front.push(parts.last()) =~= parts);
    }
}

/// The lines of a text, joined by newlines, are the text.
pub proof fn law_lines_join(s: Seq<char>)
    ensures
        text::join_lines(lines(s)) == s,
    decreases s.len(),
{
    if s.len() > 0 {
        let shorter = s.drop_last();
        let before = lines(shorter);
        lemma_lines_some(shorter);
        law_lines_join(shorter);
        if s.last() == '\n' {
            text::lemma_join_lines_push(before, Seq::empty());
            assert(shorter.push('\n') + Seq::<char>::empty() =~= s);
        } else if before.len() == 1 {
            assert(lines(s) =~= seq![before[0].push(s.last())]);
            assert(before[0].push(s.last()) =~= s);
        } else {
            assert(lines(s).drop_last() =~= before.drop_last());
            assert(text::join_lines(before.drop_last()).push('\n') + before.last().push(s.last())
                =~= shorter.push(s.last()));
            assert(shorter.push(s.last()) =~= s);
        }
    }
}

/// Cutting into lines is done newline by newline: the lines before a newline are followed by
/// those behind it. A text without a newline is one line.
pub proof fn law_lines_part_at_newlines(a: Seq<char>, b: Seq<char>)
    ensures
        lines(a.push('\n') + b) == lines(a) + lines(b),
        (forall|j: int| 0 <= j < b.len() ==> #[trigger] b[j] != '\n') ==> lines(b) == seq![b],
    decreases b.len(),
{
    let whole = a.push('\n') + b;
    lemma_lines_some(a);
    lemma_lines_some(b);
    if b.len() == 0 {
        assert(whole =~= a.push('\n'));
        assert(a.push('\n').drop_last() =~= a);
        assert(b =~= Seq::empty());
        assert(lines(b) =~= seq![b]);
        assert(lines(a.push('\n')) =~= lines(a) + lines(b));
    } else {
        let shorter = b.drop_last();
        law_lines_part_at_newlines(a, shorter);
        lemma_lines_some(shorter);
        assert(whole.drop_last() =~= a.push('\n') + shorter);
        assert(whole.last() == b.last());
        assert(lines(whole) =~= lines(a) + lines(b));
        if forall|j: int| 0 <= j < b.len() ==> #[trigger] b[j] != '\n' {
            assert forall|j: int| 0 <= j < shorter.len() implies #[trigger] shorter[j] != '\n' by {
                assert(b[j] != '\n');
            }
            assert(b[b.len() - 1] != '\n');
            assert(seq![shorter].drop_last() =~= Seq::empty());
            assert(seq![shorter].last().push(b.last()) =~= b);
            assert(lines(b) =~= seq![b]);
        }
    }
}

} // verus!

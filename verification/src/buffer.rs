//! A buffer as lines and as one text: joining, splitting, and where each line
//! starts in the joined text. Lengths and offsets count characters.

use vstd::prelude::*;

verus! {

/// The line separator of a joined text.
pub const NEWLINE: char = '\n';

/// The characters of each line.
pub open spec fn line_views(lines: Seq<String>) -> Seq<Seq<char>> {
    lines.map_values(|l: String| l@)
}

/// The lines as one text, with one newline between neighbours.
pub open spec fn join_lines(lines: Seq<Seq<char>>) -> Seq<char>
    decreases lines.len(),
{
    if lines.len() == 0 {
        Seq::empty()
    } else if lines.len() == 1 {
        lines[0]
    } else {
        join_lines(lines.drop_last()).push(NEWLINE) + lines.last()
    }
}

/// The text cut at every newline. A text without newline is one line, and the
/// empty text is one empty line.
pub open spec fn split_lines(text: Seq<char>) -> Seq<Seq<char>>
    decreases text.len(),
{
    if text.len() == 0 {
        seq![Seq::empty()]
    } else {
        let init = split_lines(text.drop_last());
        if text.last() == NEWLINE {
            init.push(Seq::empty())
        } else {
            init.update(init.len() - 1, init.last().push(text.last()))
        }
    }
}

/// The offset in the joined text at which line `k` starts: the lengths of the
/// lines before it, and one separator for each.
pub open spec fn line_start(lines: Seq<Seq<char>>, k: int) -> int
    decreases k,
{
    if k <= 0 {
        0
    } else {
        line_start(lines, k - 1) + lines[k - 1].len() + 1
    }
}

/// Whether no line holds a newline.
pub open spec fn single_lines(lines: Seq<Seq<char>>) -> bool {
    forall|k: int, i: int|
        0 <= k < lines.len() && 0 <= i < lines[k].len() ==> #[trigger] lines[k][i] != NEWLINE
}

/// Cutting a text always gives at least one line.
pub proof fn lemma_split_nonempty(text: Seq<char>)
    ensures
        split_lines(text).len() >= 1,
    decreases text.len(),
{
    if text.len() > 0 {
        lemma_split_nonempty(text.drop_last());
    }
}

/// Characters without a newline, put behind a text, lengthen its last line.
pub proof fn lemma_split_extend(text: Seq<char>, tail: Seq<char>)
    requires
        forall|i: int| 0 <= i < tail.len() ==> tail[i] != NEWLINE,
    ensures
        split_lines(text).len() >= 1,
        split_lines(text + tail) == split_lines(text).update(
            split_lines(text).len() - 1,
            split_lines(text).last() + tail,
        ),
    decreases tail.len(),
{
    lemma_split_nonempty(text);
    let lines = split_lines(text);
    if tail.len() == 0 {
        assert(text + tail == text);
        assert(lines.last() + tail == lines.last());
        assert(lines.update(lines.len() - 1, lines.last()) =~= lines);
    } else {
        let shorter = tail.drop_last();
        lemma_split_extend(text, shorter);
        assert((text + tail).drop_last() == text + shorter);
        assert((text + tail).last() == tail.last());
        assert((lines.last() + shorter).push(tail.last()) == lines.last() + tail);
        assert(split_lines(text + tail) =~= lines.update(lines.len() - 1, lines.last() + tail));
    }
}

/// Joining lines that hold no newline and cutting the text again gives the
/// lines back, provided there is at least one line.
pub proof fn lemma_split_join(lines: Seq<Seq<char>>)
    requires
        lines.len() >= 1,
        single_lines(lines),
    ensures
        split_lines(join_lines(lines)) == lines,
    decreases lines.len(),
{
    let last = lines.last();
    assert forall|i: int| 0 <= i < last.len() implies last[i] != NEWLINE by {
        assert(lines[lines.len() - 1][i] != NEWLINE);
    }
    if lines.len() == 1 {
        let nothing = Seq::<char>::empty();
        lemma_split_extend(nothing, last);
        assert(nothing + last == last);
        assert(split_lines(nothing) =~= seq![nothing]);
        assert(split_lines(last) =~= lines);
    } else {
        let init = lines.drop_last();
        assert(single_lines(init)) by {
            assert forall|k: int, i: int|
                0 <= k < init.len() && 0 <= i < init[k].len() implies #[trigger] init[k][i]
                != NEWLINE by {
                assert(lines[k][i] != NEWLINE);
            }
        }
        lemma_split_join(init);
        let head = join_lines(init).push(NEWLINE);
        assert(head.drop_last() == join_lines(init));
        assert(split_lines(head) == init.push(Seq::<char>::empty()));
        lemma_split_extend(head, last);
        assert(Seq::<char>::empty() + last == last);
        assert(split_lines(head + last) =~= lines);
    }
}

/// The joined text of the first `k + 1` lines ends where line `k` ends.
pub proof fn lemma_join_len(lines: Seq<Seq<char>>, k: int)
    requires
        0 <= k < lines.len(),
    ensures
        join_lines(lines.take(k + 1)).len() == line_start(lines, k) + lines[k].len(),
    decreases k,
{
    assert(lines.take(k + 1).drop_last() == lines.take(k));
    assert(lines.take(k + 1).last() == lines[k]);
    if k > 0 {
        lemma_join_len(lines, k - 1);
    }
}

/// The joined text of the first `k` lines is no longer than that of all.
pub proof fn lemma_join_prefix_len(lines: Seq<Seq<char>>, k: int)
    requires
        0 <= k <= lines.len(),
    ensures
        join_lines(lines.take(k)).len() <= join_lines(lines).len(),
    decreases lines.len(),
{
    if k == lines.len() {
        assert(lines.take(k) == lines);
    } else {
        assert(lines.drop_last().take(k) == lines.take(k));
        lemma_join_prefix_len(lines.drop_last(), k);
        if lines.len() == 1 {
            assert(lines.take(0).len() == 0);
        }
    }
}

/// A later line starts behind the end of an earlier one.
pub proof fn lemma_line_start_rises(lines: Seq<Seq<char>>, a: int, b: int)
    requires
        0 <= a < b,
    ensures
        line_start(lines, a) + lines[a].len() < line_start(lines, b),
    decreases b,
{
    if a + 1 < b {
        lemma_line_start_rises(lines, a, b - 1);
    }
}

/// A line starts at or after the start of the text, and a place within it
/// lies within the joined text.
pub proof fn lemma_line_within_text(lines: Seq<Seq<char>>, k: int)
    requires
        0 <= k < lines.len(),
    ensures
        0 <= line_start(lines, k),
        line_start(lines, k) + lines[k].len() <= join_lines(lines).len(),
{
    lemma_join_len(lines, k);
    lemma_join_prefix_len(lines, k + 1);
}

/// The characters of `s`, in order.
pub fn chars_of(s: &str) -> (chars: Vec<char>)
    ensures
        chars@ == s@,
{
    let mut chars: Vec<char> = Vec::new();
    for c in iter: s.chars()
        invariant
            iter.seq() == s@,
            chars@ == s@.take(iter.index() as int),
    {
        chars.push(c);
        assert(chars@ =~= s@.take(iter.index() + 1));
    }
    assert(s@.take(s@.len() as int) == s@);
    chars
}

/// Puts the characters `src[from..to]` behind `dst`.
pub fn append_chars(dst: &mut Vec<char>, src: &Vec<char>, from: usize, to: usize)
    requires
        from <= to <= src@.len(),
    ensures
        final(dst)@ == old(dst)@ + src@.subrange(from as int, to as int),
{
    let mut i: usize = from;
    while i < to
        invariant
            from <= i <= to <= src@.len(),
            dst@ == old(dst)@ + src@.subrange(from as int, i as int),
        decreases to - i,
    {
        dst.push(src[i]);
        assert(dst@ =~= old(dst)@ + src@.subrange(from as int, i + 1));
        i += 1;
    }
}

/// A buffer joined into one text, with the place and length of each line.
pub struct JoinedBuffer {
    /// The joined text.
    pub text: Vec<char>,
    /// For each line, the offset in `text` at which it starts.
    pub starts: Vec<usize>,
    /// For each line, its length.
    pub lens: Vec<usize>,
    /// The lines that were joined.
    pub lines: Ghost<Seq<Seq<char>>>,
}

/// Whether `starts` and `lens` note line `k` of `lines` rightly, inside a text
/// of `text_len` characters.
pub open spec fn line_noted(
    starts: Seq<usize>,
    lens: Seq<usize>,
    text_len: nat,
    lines: Seq<Seq<char>>,
    k: int,
) -> bool {
    &&& starts[k] == line_start(lines, k)
    &&& lens[k] == lines[k].len()
    &&& line_start(lines, k) + lines[k].len() <= text_len
}

impl JoinedBuffer {
    /// Whether the text and the notes belong to the lines that were joined.
    pub open spec fn wf(&self) -> bool {
        self.describes(self.lines@)
    }

    /// Whether this is the joined form of `lines`.
    pub open spec fn describes(&self, lines: Seq<Seq<char>>) -> bool {
        &&& self.text@ == join_lines(lines)
        &&& self.starts@.len() == lines.len()
        &&& self.lens@.len() == lines.len()
        &&& forall|k: int|
            0 <= k < lines.len() ==> #[trigger] line_noted(
                self.starts@,
                self.lens@,
                self.text@.len(),
                lines,
                k,
            )
    }
}

/// Joins the lines with one newline between neighbours and notes where each
/// line starts.
pub fn join_buffer(lines: &[String]) -> (joined: JoinedBuffer)
    ensures
        joined.wf(),
        joined.lines@ == line_views(lines@),
{
    let ghost views = line_views(lines@);
    let mut text: Vec<char> = Vec::new();
    let mut starts: Vec<usize> = Vec::new();
    let mut lens: Vec<usize> = Vec::new();
    let mut k: usize = 0;
    while k < lines.len()
        invariant
            views == line_views(lines@),
            k <= lines@.len(),
            text@ == join_lines(views.take(k as int)),
            starts@.len() == k,
            lens@.len() == k,
            k > 0 ==> text@.len() + 1 == line_start(views, k as int),
            forall|i: int|
                0 <= i < k ==> #[trigger] line_noted(starts@, lens@, text@.len(), views, i),
        decreases lines@.len() - k,
    {
        let ghost old_starts = starts@;
        let ghost old_lens = lens@;
        let ghost old_len = text@.len();
        if k > 0 {
            text.push(NEWLINE);
        }
        let line = chars_of(lines[k].as_str());
        assert(line@ == views[k as int]);
        assert(text@.len() == line_start(views, k as int));
        starts.push(text.len());
        lens.push(line.len());
        append_chars(&mut text, &line, 0, line.len());
        proof {
            assert(line_start(views, k + 1) == line_start(views, k as int) + views[k as int].len()
                + 1);
            assert(line@.subrange(0, line@.len() as int) == line@);
            let next = views.take(k + 1);
            assert(next.drop_last() == views.take(k as int));
            assert(next.last() == views[k as int]);
            if k == 0 {
                assert(Seq::<char>::empty() + line@ == line@);
            }
            assert(text@ == join_lines(next));
            assert forall|i: int| 0 <= i < k + 1 implies #[trigger] line_noted(
                starts@,
                lens@,
                text@.len(),
                views,
                i,
            ) by {
                if i < k {
                    assert(line_noted(old_starts, old_lens, old_len, views, i));
                }
            }
        }
        k += 1;
    }
    assert(views.take(k as int) == views);
    JoinedBuffer { text, starts, lens, lines: Ghost(views) }
}

/// Appends one character to a string.
pub assume_specification[ String::push ](s: &mut String, c: char)
    ensures
        final(s)@ == old(s)@.push(c),
;

/// Cuts the text at every newline.
pub fn split_text(text: &Vec<char>) -> (lines: Vec<String>)
    ensures
        line_views(lines@) == split_lines(text@),
{
    let mut done: Vec<String> = Vec::new();
    let mut current: String = String::new();
    let mut i: usize = 0;
    assert(line_views(done@).push(current@) =~= split_lines(text@.take(0)));
    while i < text.len()
        invariant
            i <= text@.len(),
            line_views(done@).push(current@) == split_lines(text@.take(i as int)),
        decreases text@.len() - i,
    {
        let c: char = text[i];
        let ghost before = line_views(done@).push(current@);
        proof {
            assert(text@.take(i + 1).drop_last() == text@.take(i as int));
            assert(text@.take(i + 1).last() == c);
        }
        if c == NEWLINE {
            done.push(current);
            current = String::new();
            assert(line_views(done@).push(current@) =~= before.push(Seq::<char>::empty()));
        } else {
            current.push(c);
            assert(line_views(done@).push(current@) =~= before.update(
                before.len() - 1,
                before.last().push(c),
            ));
        }
        i += 1;
    }
    assert(text@.take(i as int) == text@);
    let ghost before = line_views(done@).push(current@);
    done.push(current);
    assert(line_views(done@) =~= before);
    done
}

} // verus!

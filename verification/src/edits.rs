//! Position-addressed edits and their application to a buffer.

use vstd::prelude::*;
use crate::buffer::{
    append_chars, chars_of, join_buffer, join_lines, lemma_join_len, lemma_line_start_rises,
    lemma_line_within_text, lemma_split_join, line_noted, line_start, line_views, single_lines,
    split_lines, split_text, JoinedBuffer,
};

verus! {

/// A place in a buffer: line and character within the line, both from 0.
#[derive(Clone, Copy, Debug, PartialEq, Eq, Structural)]
pub struct Position {
    pub line: u64,
    pub character: u64,
}

/// The span from `start` up to, not including, `end`.
#[derive(Clone, Copy, Debug, PartialEq, Eq, Structural)]
pub struct Range {
    pub start: Position,
    pub end: Position,
}

impl Position {
    /// Whether this position comes before `other` in the document, or is it.
    pub open spec fn spec_at_or_before(self, other: Position) -> bool {
        self.line < other.line || (self.line == other.line && self.character <= other.character)
    }

    /// Whether this position comes before `other` in the document, or is it.
    pub fn at_or_before(&self, other: &Position) -> (b: bool)
        ensures
            b == self.spec_at_or_before(*other),
    {
        self.line < other.line || (self.line == other.line && self.character <= other.character)
    }
}

impl Range {
    /// Whether the range runs forward: its end does not come before its start.
    pub open spec fn wf(self) -> bool {
        self.start.spec_at_or_before(self.end)
    }

    /// Whether the range runs forward.
    pub fn is_wf(&self) -> (b: bool)
        ensures
            b == self.wf(),
    {
        self.start.at_or_before(&self.end)
    }
}

/// Replace what `range` addresses by `new_text`.
#[derive(Clone, Debug)]
pub struct TextEdit {
    pub range: Range,
    pub new_text: String,
}

/// Why a set of edits could not be applied.
#[derive(Clone, Copy, Debug, PartialEq, Eq, Structural)]
pub enum OffsetError {
    /// A position of some edit lies outside the buffer.
    PositionOutOfBounds,
    /// The edits overlap so that, once the edits behind it were applied, the
    /// span of some edit reached past the end of the text.
    SpliceOutOfBounds,
}

/// An edit in offsets of the joined text.
pub ghost struct SpliceModel {
    pub start: int,
    pub end: int,
    pub text: Seq<char>,
}

/// An edit in offsets of the joined text.
pub struct Splice {
    pub start: usize,
    pub end: usize,
    pub text: Vec<char>,
}

impl View for Splice {
    type V = SpliceModel;

    open spec fn view(&self) -> SpliceModel {
        SpliceModel { start: self.start as int, end: self.end as int, text: self.text@ }
    }
}

/// What each splice says.
pub open spec fn splice_views(splices: Seq<Splice>) -> Seq<SpliceModel> {
    splices.map_values(|s: Splice| s@)
}

/// Whether the position addresses a place of the buffer: an existing line, and
/// a character of it or its end.
pub open spec fn position_in_bounds(lines: Seq<Seq<char>>, p: Position) -> bool {
    p.line < lines.len() && p.character <= lines[p.line as int].len()
}

/// The offset of the position in the joined text.
pub open spec fn offset_of(lines: Seq<Seq<char>>, p: Position) -> int {
    line_start(lines, p.line as int) + p.character
}

/// Whether both ends of every edit address a place of the buffer.
pub open spec fn edits_in_bounds(lines: Seq<Seq<char>>, edits: Seq<TextEdit>) -> bool {
    forall|k: int|
        0 <= k < edits.len() ==> position_in_bounds(lines, (#[trigger] edits[k]).range.start)
            && position_in_bounds(lines, edits[k].range.end)
}

/// The edit in offsets of the joined text of `lines`.
pub open spec fn resolve(lines: Seq<Seq<char>>, edit: TextEdit) -> SpliceModel {
    SpliceModel {
        start: offset_of(lines, edit.range.start),
        end: offset_of(lines, edit.range.end),
        text: edit.new_text@,
    }
}

/// Every edit in offsets of the joined text of `lines`.
pub open spec fn resolve_all(lines: Seq<Seq<char>>, edits: Seq<TextEdit>) -> Seq<SpliceModel> {
    edits.map_values(|e: TextEdit| resolve(lines, e))
}

/// `sorted` with `s` put behind the last splice that starts at or after the
/// start of `s`.
pub open spec fn insert_desc(sorted: Seq<SpliceModel>, s: SpliceModel) -> Seq<SpliceModel>
    decreases sorted.len(),
{
    if sorted.len() == 0 {
        seq![s]
    } else if sorted.last().start >= s.start {
        sorted.push(s)
    } else {
        insert_desc(sorted.drop_last(), s).push(sorted.last())
    }
}

/// The splices by descending start; those with one start keep their order.
pub open spec fn sort_desc(splices: Seq<SpliceModel>) -> Seq<SpliceModel>
    decreases splices.len(),
{
    if splices.len() == 0 {
        Seq::empty()
    } else {
        insert_desc(sort_desc(splices.drop_last()), splices.last())
    }
}

/// Whether the starts never rise from one splice to the next.
pub open spec fn descending(splices: Seq<SpliceModel>) -> bool {
    forall|i: int, j: int|
        0 <= i <= j < splices.len() ==> (#[trigger] splices[i]).start >= (
        #[trigger] splices[j]).start
}

/// Whether both ends of the splice lie within the text.
pub open spec fn fits(text: Seq<char>, s: SpliceModel) -> bool {
    0 <= s.start <= text.len() && 0 <= s.end <= text.len()
}

/// The text with the splice made: what stood before `start`, the new text,
/// what stood from `end` on.
pub open spec fn splice(text: Seq<char>, s: SpliceModel) -> Seq<char> {
    text.subrange(0, s.start) + s.text + text.subrange(s.end, text.len() as int)
}

/// The text after the splices were made one after another, first to last, or
/// `None` if one of them did not fit the text it met.
pub open spec fn splice_all(text: Seq<char>, splices: Seq<SpliceModel>) -> Option<Seq<char>>
    decreases splices.len(),
{
    if splices.len() == 0 {
        Some(text)
    } else {
        match splice_all(text, splices.drop_last()) {
            Some(t) => if fits(t, splices.last()) {
                Some(splice(t, splices.last()))
            } else {
                None
            },
            None => None,
        }
    }
}

/// What applying `edits` to the buffer `lines` gives: the lines are joined,
/// every edit is turned into offsets of that text, the edits are made from the
/// highest start down, and the text is cut into lines again.
pub open spec fn apply_spec(lines: Seq<Seq<char>>, edits: Seq<TextEdit>) -> Result<
    Seq<Seq<char>>,
    OffsetError,
> {
    if !edits_in_bounds(lines, edits) {
        Err(OffsetError::PositionOutOfBounds)
    } else {
        match splice_all(join_lines(lines), sort_desc(resolve_all(lines, edits))) {
            Some(text) => Ok(split_lines(text)),
            None => Err(OffsetError::SpliceOutOfBounds),
        }
    }
}

/// Putting a splice in at `pos` is what `insert_desc` does, when every splice
/// from `pos` on starts below it and the one before `pos` does not.
pub proof fn lemma_insert_at(sorted: Seq<SpliceModel>, s: SpliceModel, pos: int)
    requires
        0 <= pos <= sorted.len(),
        forall|k: int| pos <= k < sorted.len() ==> (#[trigger] sorted[k]).start < s.start,
        pos > 0 ==> sorted[pos - 1].start >= s.start,
    ensures
        insert_desc(sorted, s) == sorted.insert(pos, s),
    decreases sorted.len(),
{
    if sorted.len() == 0 {
        assert(seq![s] =~= sorted.insert(pos, s));
    } else if pos == sorted.len() {
        assert(sorted.push(s) =~= sorted.insert(pos, s));
    } else {
        assert(sorted[sorted.len() - 1].start < s.start);
        lemma_insert_at(sorted.drop_last(), s, pos);
        assert(sorted.drop_last().insert(pos, s).push(sorted.last()) =~= sorted.insert(pos, s));
    }
}

/// Putting a splice into a descending sequence leaves it descending.
pub proof fn lemma_insert_descending(sorted: Seq<SpliceModel>, s: SpliceModel)
    requires
        descending(sorted),
    ensures
        descending(insert_desc(sorted, s)),
        insert_desc(sorted, s).len() == sorted.len() + 1,
        insert_desc(sorted, s).to_multiset() == sorted.to_multiset().insert(s),
    decreases sorted.len(),
{
    broadcast use vstd::seq_lib::group_to_multiset_ensures;

    if sorted.len() == 0 {
        assert(seq![s] =~= sorted.push(s));
    } else if sorted.last().start >= s.start {
        let out = sorted.push(s);
        assert forall|i: int, j: int| 0 <= i <= j < out.len() implies (#[trigger] out[i]).start
            >= (#[trigger] out[j]).start by {
            if j == sorted.len() && i < sorted.len() {
                assert(sorted[i].start >= sorted[sorted.len() - 1].start);
            }
        }
    } else {
        let init = sorted.drop_last();
        assert(descending(init)) by {
            assert forall|i: int, j: int| 0 <= i <= j < init.len() implies (#[trigger] init[i]).start
                >= (#[trigger] init[j]).start by {
                assert(sorted[i].start >= sorted[j].start);
            }
        }
        lemma_insert_descending(init, s);
        let mid = insert_desc(init, s);
        let out = mid.push(sorted.last());
        assert forall|i: int| 0 <= i < mid.len() implies (#[trigger] mid[i]).start
            >= sorted.last().start by {
            assert(mid.to_multiset().count(mid[i]) > 0);
            if mid[i] != s {
                assert(init.to_multiset().count(mid[i]) > 0);
                let w = choose|w: int| 0 <= w < init.len() && init[w] == mid[i];
                assert(sorted[w].start >= sorted[sorted.len() - 1].start);
            }
        }
        assert forall|i: int, j: int| 0 <= i <= j < out.len() implies (#[trigger] out[i]).start
            >= (#[trigger] out[j]).start by {
            if j < mid.len() {
                assert(mid[i].start >= mid[j].start);
            } else if i < mid.len() {
                assert(mid[i].start >= sorted.last().start);
            }
        }
        assert(sorted == init.push(sorted.last()));
        assert(out.to_multiset() =~= sorted.to_multiset().insert(s));
    }
}

/// Sorting rearranges the splices, and leaves them descending by start.
pub proof fn lemma_sort_desc(splices: Seq<SpliceModel>)
    ensures
        descending(sort_desc(splices)),
        sort_desc(splices).len() == splices.len(),
        sort_desc(splices).to_multiset() == splices.to_multiset(),
    decreases splices.len(),
{
    broadcast use vstd::seq_lib::group_to_multiset_ensures;

    if splices.len() > 0 {
        lemma_sort_desc(splices.drop_last());
        lemma_insert_descending(sort_desc(splices.drop_last()), splices.last());
        assert(splices == splices.drop_last().push(splices.last()));
    }
}

/// Once a splice of a prefix fails to fit, the whole sequence fails.
pub proof fn lemma_splice_all_prefix(text: Seq<char>, splices: Seq<SpliceModel>, k: int)
    requires
        0 <= k <= splices.len(),
        splice_all(text, splices.take(k)) is None,
    ensures
        splice_all(text, splices) is None,
    decreases splices.len(),
{
    if k == splices.len() {
        assert(splices.take(k) == splices);
    } else {
        assert(splices.drop_last().take(k) == splices.take(k));
        lemma_splice_all_prefix(text, splices.drop_last(), k);
    }
}

/// The offset of the position in the joined text, or `None` where the
/// position lies outside the buffer.
pub fn offset_in(joined: &JoinedBuffer, p: &Position) -> (r: Option<usize>)
    requires
        joined.wf(),
    ensures
        r is Some <==> position_in_bounds(joined.lines@, *p),
        r matches Some(offset) ==> offset == offset_of(joined.lines@, *p) && offset
            <= joined.text@.len(),
{
    if p.line >= joined.starts.len() as u64 {
        return None;
    }
    let line: usize = p.line as usize;
    assert(line_noted(joined.starts@, joined.lens@, joined.text@.len(), joined.lines@, line as int));
    if p.character > joined.lens[line] as u64 {
        return None;
    }
    let text_len: usize = joined.text.len();
    let offset: usize = joined.starts[line] + p.character as usize;
    assert(offset <= text_len);
    Some(offset)
}

/// The edit in offsets of the joined text, or `None` where one of its
/// positions lies outside the buffer.
pub fn resolve_edit(joined: &JoinedBuffer, edit: &TextEdit) -> (r: Option<Splice>)
    requires
        joined.wf(),
    ensures
        r is Some <==> position_in_bounds(joined.lines@, edit.range.start) && position_in_bounds(
            joined.lines@,
            edit.range.end,
        ),
        r matches Some(s) ==> s@ == resolve(joined.lines@, *edit) && fits(joined.text@, s@),
{
    match offset_in(joined, &edit.range.start) {
        None => None,
        Some(start) => match offset_in(joined, &edit.range.end) {
            None => None,
            Some(end) => Some(Splice { start, end, text: chars_of(edit.new_text.as_str()) }),
        },
    }
}

/// Puts `s` into `sorted` behind the last splice that starts at or after its
/// start.
pub fn insert_splice(sorted: &mut Vec<Splice>, s: Splice)
    ensures
        splice_views(final(sorted)@) == insert_desc(splice_views(old(sorted)@), s@),
{
    let mut pos: usize = sorted.len();
    while pos > 0 && sorted[pos - 1].start < s.start
        invariant
            pos <= sorted@.len(),
            sorted@ == old(sorted)@,
            forall|k: int| pos <= k < sorted@.len() ==> (#[trigger] sorted@[k]).start < s.start,
        decreases pos,
    {
        pos -= 1;
    }
    proof {
        let views = splice_views(sorted@);
        assert forall|k: int| pos <= k < views.len() implies (#[trigger] views[k]).start
            < s@.start by {
            assert(sorted@[k].start < s.start);
        }
        lemma_insert_at(views, s@, pos as int);
    }
    sorted.insert(pos, s);
    assert(splice_views(sorted@) =~= splice_views(old(sorted)@).insert(pos as int, s@));
}

/// Every edit in offsets of the joined text, by descending start, or the
/// error where a position of some edit lies outside the buffer.
pub fn resolve_sorted(joined: &JoinedBuffer, edits: &[TextEdit]) -> (r: Result<
    Vec<Splice>,
    OffsetError,
>)
    requires
        joined.wf(),
    ensures
        r is Ok <==> edits_in_bounds(joined.lines@, edits@),
        r matches Ok(sorted) ==> splice_views(sorted@) == sort_desc(
            resolve_all(joined.lines@, edits@),
        ),
        r matches Err(e) ==> e == OffsetError::PositionOutOfBounds,
{
    let ghost lines = joined.lines@;
    let mut sorted: Vec<Splice> = Vec::new();
    let mut k: usize = 0;
    assert(resolve_all(lines, edits@.take(0)) =~= Seq::empty());
    assert(splice_views(sorted@) =~= Seq::empty());
    while k < edits.len()
        invariant
            joined.wf(),
            lines == joined.lines@,
            k <= edits@.len(),
            edits_in_bounds(lines, edits@.take(k as int)),
            splice_views(sorted@) == sort_desc(resolve_all(lines, edits@.take(k as int))),
        decreases edits@.len() - k,
    {
        match resolve_edit(joined, &edits[k]) {
            None => {
                return Err(OffsetError::PositionOutOfBounds);
            },
            Some(s) => {
                insert_splice(&mut sorted, s);
                proof {
                    let next = edits@.take(k + 1);
                    assert(next.drop_last() == edits@.take(k as int));
                    assert(resolve_all(lines, next).drop_last() =~= resolve_all(
                        lines,
                        edits@.take(k as int),
                    ));
                    assert(resolve_all(lines, next).last() == s@);
                    assert forall|i: int| 0 <= i < next.len() implies position_in_bounds(
                        lines,
                        (#[trigger] next[i]).range.start,
                    ) && position_in_bounds(lines, next[i].range.end) by {
                        if i < k {
                            assert(edits@.take(k as int)[i] == next[i]);
                        }
                    }
                }
            },
        }
        k += 1;
    }
    assert(edits@.take(k as int) == edits@);
    Ok(sorted)
}

/// The text with the splice made.
pub fn apply_splice(text: &Vec<char>, s: &Splice) -> (out: Vec<char>)
    requires
        fits(text@, s@),
    ensures
        out@ == splice(text@, s@),
{
    let mut out: Vec<char> = Vec::new();
    append_chars(&mut out, text, 0, s.start);
    append_chars(&mut out, &s.text, 0, s.text.len());
    append_chars(&mut out, text, s.end, text.len());
    assert(s.text@.subrange(0, s.text@.len() as int) == s.text@);
    assert(out@ =~= splice(text@, s@));
    out
}

/// Applies the edits to the buffer and returns the new lines.
///
/// The lines are joined with one newline between neighbours. Each edit's two
/// positions are turned into offsets of that text, all of them before anything
/// is rewritten. The edits are then made from the highest start offset down,
/// so that an edit never moves the text that a later one addresses, and the
/// result is cut at its newlines.
///
/// Fails, without any effect, when a position lies outside the buffer, or when
/// edits overlap so that one no longer fits the text it meets. Edits within
/// the buffer whose ranges run forward and do not overlap never fail. Ranges
/// are taken as they are given: overlapping edits that still fit, and a range
/// whose end comes before its start, are spliced literally.
#[allow(non_snake_case)]
pub fn apply_TextEdits(lines: &[String], edits: &[TextEdit]) -> (r: Result<
    Vec<String>,
    OffsetError,
>)
    ensures
        match apply_spec(line_views(lines@), edits@) {
            Ok(expected) => r matches Ok(out) && line_views(out@) == expected,
            Err(error) => r matches Err(e) && e == error,
        },
{
    let joined = join_buffer(lines);
    let sorted = match resolve_sorted(&joined, edits) {
        Ok(sorted) => sorted,
        Err(e) => {
            return Err(e);
        },
    };
    let ghost start = joined.text@;
    let ghost splices = splice_views(sorted@);
    let mut text: Vec<char> = joined.text;
    let mut k: usize = 0;
    assert(splices.take(0) =~= Seq::empty());
    while k < sorted.len()
        invariant
            k <= sorted@.len(),
            splices == splice_views(sorted@),
            start == join_lines(line_views(lines@)),
            splices == sort_desc(resolve_all(line_views(lines@), edits@)),
            edits_in_bounds(line_views(lines@), edits@),
            splice_all(start, splices.take(k as int)) == Some(text@),
        decreases sorted@.len() - k,
    {
        let s = &sorted[k];
        proof {
            assert(splices.take(k + 1).drop_last() == splices.take(k as int));
            assert(splices.take(k + 1).last() == s@);
        }
        if s.start > text.len() || s.end > text.len() {
            proof {
                lemma_splice_all_prefix(start, splices, k + 1);
            }
            return Err(OffsetError::SpliceOutOfBounds);
        }
        text = apply_splice(&text, s);
        k += 1;
    }
    assert(splices.take(k as int) == splices);
    Ok(split_text(&text))
}

/// With no edit to make, a buffer of at least one line, none of which holds a
/// newline, comes back as it was.
pub proof fn lemma_no_edits_keep_buffer(lines: Seq<Seq<char>>)
    requires
        lines.len() >= 1,
        single_lines(lines),
    ensures
        apply_spec(lines, Seq::<TextEdit>::empty()) == Ok::<Seq<Seq<char>>, OffsetError>(lines),
{
    let edits = Seq::<TextEdit>::empty();
    assert(resolve_all(lines, edits) =~= Seq::empty());
    lemma_split_join(lines);
}

/// Whether the range runs from the start of the buffer to the end of its last
/// line.
pub open spec fn spans_buffer(lines: Seq<Seq<char>>, range: Range) -> bool {
    &&& lines.len() >= 1
    &&& range.start.line == 0
    &&& range.start.character == 0
    &&& range.end.line == lines.len() - 1
    &&& range.end.character == lines.last().len()
}

/// One edit over the whole buffer replaces it: the new buffer is the edit's
/// text, cut at its newlines.
pub proof fn lemma_whole_edit_replaces(lines: Seq<Seq<char>>, edit: TextEdit)
    requires
        spans_buffer(lines, edit.range),
    ensures
        apply_spec(lines, seq![edit]) == Ok::<Seq<Seq<char>>, OffsetError>(
            split_lines(edit.new_text@),
        ),
{
    let edits = seq![edit];
    let text = join_lines(lines);
    let s = resolve(lines, edit);
    lemma_join_len(lines, lines.len() - 1);
    assert(lines.take(lines.len() as int) == lines);
    assert(s.start == 0);
    assert(s.end == text.len());
    assert(resolve_all(lines, edits) =~= seq![s]);
    let none = Seq::<SpliceModel>::empty();
    assert(seq![s].drop_last() =~= none);
    assert(seq![s].last() == s);
    assert(sort_desc(none) =~= none);
    assert(insert_desc(none, s) =~= seq![s]);
    assert(sort_desc(seq![s]) =~= seq![s]);
    assert(splice_all(text, none) == Some(text));
    assert(fits(text, s));
    assert(splice_all(text, seq![s]) == Some(splice(text, s)));
    assert(splice(text, s) =~= edit.new_text@);
}

/// One edit over the whole buffer whose text is the joined buffer leaves the
/// buffer as it was, provided no line holds a newline.
pub proof fn lemma_whole_edit_with_same_text(lines: Seq<Seq<char>>, edit: TextEdit)
    requires
        spans_buffer(lines, edit.range),
        single_lines(lines),
        edit.new_text@ == join_lines(lines),
    ensures
        apply_spec(lines, seq![edit]) == Ok::<Seq<Seq<char>>, OffsetError>(lines),
{
    lemma_whole_edit_replaces(lines, edit);
    lemma_split_join(lines);
}

/// Whether the splice runs forward and lies within a text of `len` characters.
pub open spec fn ordered(s: SpliceModel, len: int) -> bool {
    0 <= s.start <= s.end <= len
}

/// Whether the two splices address no character in common.
pub open spec fn disjoint(a: SpliceModel, b: SpliceModel) -> bool {
    a.end <= b.start || b.end <= a.start
}

/// Whether every splice runs forward within a text of `len` characters.
pub open spec fn all_ordered(splices: Seq<SpliceModel>, len: int) -> bool {
    forall|i: int| 0 <= i < splices.len() ==> ordered(#[trigger] splices[i], len)
}

/// Whether no two of the splices overlap.
pub open spec fn separate(splices: Seq<SpliceModel>) -> bool {
    forall|i: int, j: int|
        0 <= i < j < splices.len() ==> disjoint(#[trigger] splices[i], #[trigger] splices[j])
}

/// `insert_desc` puts the splice in at some place and moves nothing else.
pub proof fn lemma_insert_somewhere(sorted: Seq<SpliceModel>, s: SpliceModel) -> (pos: int)
    ensures
        0 <= pos <= sorted.len(),
        insert_desc(sorted, s) == sorted.insert(pos, s),
    decreases sorted.len(),
{
    if sorted.len() == 0 {
        assert(seq![s] =~= sorted.insert(0, s));
        0
    } else if sorted.last().start >= s.start {
        assert(sorted.push(s) =~= sorted.insert(sorted.len() as int, s));
        sorted.len() as int
    } else {
        let pos = lemma_insert_somewhere(sorted.drop_last(), s);
        assert(sorted.drop_last().insert(pos, s).push(sorted.last()) =~= sorted.insert(pos, s));
        pos
    }
}

/// Putting in a splice that overlaps none of the others keeps them separate.
pub proof fn lemma_insert_separate(sorted: Seq<SpliceModel>, s: SpliceModel, len: int)
    requires
        separate(sorted),
        all_ordered(sorted, len),
        ordered(s, len),
        forall|i: int| 0 <= i < sorted.len() ==> disjoint(#[trigger] sorted[i], s),
    ensures
        separate(insert_desc(sorted, s)),
        all_ordered(insert_desc(sorted, s), len),
{
    let pos = lemma_insert_somewhere(sorted, s);
    let out = sorted.insert(pos, s);
    assert forall|i: int| 0 <= i < out.len() implies ordered(#[trigger] out[i], len) by {
        if i < pos {
            assert(out[i] == sorted[i]);
        } else if i > pos {
            assert(out[i] == sorted[i - 1]);
        }
    }
    assert forall|i: int, j: int| 0 <= i < j < out.len() implies disjoint(
        #[trigger] out[i],
        #[trigger] out[j],
    ) by {
        let a = if i < pos { i } else { i - 1 };
        let b = if j < pos { j } else { j - 1 };
        if i != pos {
            assert(out[i] == sorted[a]);
        }
        if j != pos {
            assert(out[j] == sorted[b]);
        }
        if i != pos && j != pos {
            assert(disjoint(sorted[a], sorted[b]));
        }
    }
}

/// Sorting splices that do not overlap leaves them separate.
pub proof fn lemma_sort_separate(splices: Seq<SpliceModel>, len: int)
    requires
        separate(splices),
        all_ordered(splices, len),
    ensures
        separate(sort_desc(splices)),
        all_ordered(sort_desc(splices), len),
        descending(sort_desc(splices)),
    decreases splices.len(),
{
    broadcast use vstd::seq_lib::group_to_multiset_ensures;

    lemma_sort_desc(splices);
    if splices.len() > 0 {
        let init = splices.drop_last();
        let last = splices.last();
        assert(separate(init)) by {
            assert forall|i: int, j: int| 0 <= i < j < init.len() implies disjoint(
                #[trigger] init[i],
                #[trigger] init[j],
            ) by {
                assert(disjoint(splices[i], splices[j]));
            }
        }
        assert(all_ordered(init, len)) by {
            assert forall|i: int| 0 <= i < init.len() implies ordered(#[trigger] init[i], len) by {
                assert(ordered(splices[i], len));
            }
        }
        lemma_sort_separate(init, len);
        lemma_sort_desc(init);
        let sorted = sort_desc(init);
        assert forall|i: int| 0 <= i < sorted.len() implies disjoint(#[trigger] sorted[i], last) by {
            assert(sorted.to_multiset().count(sorted[i]) > 0);
            assert(init.to_multiset().count(sorted[i]) > 0);
            let w = choose|w: int| 0 <= w < init.len() && init[w] == sorted[i];
            assert(disjoint(splices[w], splices[splices.len() - 1]));
        }
        assert(ordered(splices[splices.len() - 1], len));
        lemma_insert_separate(sorted, last, len);
    }
}

/// Made from the highest start down, splices that do not overlap always fit:
/// after the first `k`, the text still reaches the end of every later one.
pub proof fn lemma_separate_fit(text: Seq<char>, sorted: Seq<SpliceModel>, k: int)
    requires
        descending(sorted),
        separate(sorted),
        all_ordered(sorted, text.len() as int),
        0 <= k <= sorted.len(),
    ensures
        splice_all(text, sorted.take(k)) matches Some(t) && forall|j: int|
            k <= j < sorted.len() ==> (#[trigger] sorted[j]).end <= t.len(),
    decreases k,
{
    if k == 0 {
        assert(sorted.take(0).len() == 0);
        assert forall|j: int| 0 <= j < sorted.len() implies (#[trigger] sorted[j]).end
            <= text.len() by {
            assert(ordered(sorted[j], text.len() as int));
        }
    } else {
        lemma_separate_fit(text, sorted, k - 1);
        let before = splice_all(text, sorted.take(k - 1))->0;
        let made = sorted[k - 1];
        assert(sorted.take(k).drop_last() == sorted.take(k - 1));
        assert(sorted.take(k).last() == made);
        assert(ordered(made, text.len() as int));
        assert(made.end <= before.len());
        assert(fits(before, made));
        let after = splice(before, made);
        assert(after.len() == before.len() - (made.end - made.start) + made.text.len());
        assert forall|j: int| k <= j < sorted.len() implies (#[trigger] sorted[j]).end
            <= after.len() by {
            assert(disjoint(sorted[k - 1], sorted[j]));
            assert(sorted[k - 1].start >= sorted[j].start);
            assert(ordered(sorted[j], text.len() as int));
            assert(sorted[j].end <= before.len());
        }
    }
}

/// Within the buffer, a position that comes first in the document has the
/// lower offset in the joined text.
pub proof fn lemma_offsets_follow_positions(lines: Seq<Seq<char>>, a: Position, b: Position)
    requires
        position_in_bounds(lines, a),
        position_in_bounds(lines, b),
        a.spec_at_or_before(b),
    ensures
        offset_of(lines, a) <= offset_of(lines, b),
{
    if a.line < b.line {
        lemma_line_start_rises(lines, a.line as int, b.line as int);
    }
}

/// Edits whose positions lie within the buffer, whose ranges run forward and
/// of which no two overlap can always be applied.
pub proof fn lemma_separate_edits_apply(lines: Seq<Seq<char>>, edits: Seq<TextEdit>)
    requires
        edits_in_bounds(lines, edits),
        separate(resolve_all(lines, edits)),
        forall|k: int| 0 <= k < edits.len() ==> (#[trigger] edits[k]).range.wf(),
    ensures
        apply_spec(lines, edits) is Ok,
{
    let text = join_lines(lines);
    let splices = resolve_all(lines, edits);
    assert forall|i: int| 0 <= i < splices.len() implies ordered(
        #[trigger] splices[i],
        text.len() as int,
    ) by {
        let e = edits[i];
        assert(position_in_bounds(lines, e.range.start));
        assert(position_in_bounds(lines, e.range.end));
        assert(e.range.wf());
        lemma_offsets_follow_positions(lines, e.range.start, e.range.end);
        lemma_line_within_text(lines, e.range.start.line as int);
        lemma_line_within_text(lines, e.range.end.line as int);
    }
    lemma_sort_separate(splices, text.len() as int);
    let sorted = sort_desc(splices);
    lemma_separate_fit(text, sorted, sorted.len() as int);
    assert(sorted.take(sorted.len() as int) == sorted);
}

} // verus!

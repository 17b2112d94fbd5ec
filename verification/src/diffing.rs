//! The sequence diff that the reconciler is built on.

use vstd::prelude::*;

verus! {

/// One fragment of a diff between two sequences of comparison pairs.
#[derive(Clone, Copy, Debug)]
pub enum DiffStep {
    /// An element that only the left sequence has.
    Left((u64, u8)),
    /// An element of the left sequence matched with an equal one of the right.
    Both((u64, u8), (u64, u8)),
    /// An element that only the right sequence has.
    Right((u64, u8)),
}

/// The diff that `diff::slice` computes for two sequences.
pub uninterp spec fn diff_slice(left: Seq<(u64, u8)>, right: Seq<(u64, u8)>) -> Seq<DiffStep>;

/// The elements of the left sequence that the steps visit, in order.
pub open spec fn left_items(steps: Seq<DiffStep>) -> Seq<(u64, u8)>
    decreases steps.len(),
{
    if steps.len() == 0 {
        Seq::empty()
    } else {
        let init = left_items(steps.drop_last());
        match steps.last() {
            DiffStep::Left(l) => init.push(l),
            DiffStep::Both(l, _) => init.push(l),
            DiffStep::Right(_) => init,
        }
    }
}

/// The elements of the right sequence that the steps visit, in order.
pub open spec fn right_items(steps: Seq<DiffStep>) -> Seq<(u64, u8)>
    decreases steps.len(),
{
    if steps.len() == 0 {
        Seq::empty()
    } else {
        let init = right_items(steps.drop_last());
        match steps.last() {
            DiffStep::Left(_) => init,
            DiffStep::Both(_, r) => init.push(r),
            DiffStep::Right(r) => init.push(r),
        }
    }
}

/// Whether every matched pair of the steps holds two equal elements.
pub open spec fn pairs_agree(steps: Seq<DiffStep>) -> bool {
    forall|k: int|
        0 <= k < steps.len() ==> match #[trigger] steps[k] {
            DiffStep::Both(l, r) => l == r,
            _ => true,
        }
}

/// Whether every step is a matched pair.
pub open spec fn all_matched(steps: Seq<DiffStep>) -> bool {
    forall|k: int| 0 <= k < steps.len() ==> #[trigger] steps[k] is Both
}

/// Whether the steps are an edit script from `left` to `right`: walking them
/// visits each sequence once, in order, and pairs only equal elements.
pub open spec fn is_edit_script(
    steps: Seq<DiffStep>,
    left: Seq<(u64, u8)>,
    right: Seq<(u64, u8)>,
) -> bool {
    &&& left_items(steps) == left
    &&& right_items(steps) == right
    &&& pairs_agree(steps)
}

/// Whether `diff::slice` can build its table for inputs of these lengths.
pub open spec fn diffable(left_len: nat, right_len: nat) -> bool {
    (left_len + 1) * (right_len + 1) <= usize::MAX
}

/// Whether a diff of inputs of these lengths can be asked for.
pub fn can_diff(left_len: usize, right_len: usize) -> (b: bool)
    ensures
        b == diffable(left_len as nat, right_len as nat),
{
    if left_len == usize::MAX || right_len == usize::MAX {
        assert((left_len + 1) * (right_len + 1) > usize::MAX) by (nonlinear_arith)
            requires
                left_len == usize::MAX || right_len == usize::MAX,
                left_len >= 0,
                right_len >= 0,
        ;
        return false;
    }
    let rows: usize = left_len + 1;
    let columns: usize = right_len + 1;
    let most: usize = usize::MAX / columns;
    assert((rows <= most) == (rows * columns <= usize::MAX)) by (nonlinear_arith)
        requires
            columns > 0,
            rows >= 0,
            most == usize::MAX / columns,
    ;
    rows <= most
}

/// Calls `diff::slice` on the two sequences and copies each fragment out.
/// The lengths must leave room for the table that the diff fills, which has
/// one cell for each pair of places in the two inputs.
///
/// Trusted: the result is the crate's diff of the two inputs; it is an edit
/// script from `left` to `right` (every element of either input appears once,
/// in order, and `Both` pairs elements that compare equal); and on equal inputs
/// every fragment is `Both`, since the common prefix is matched in full before
/// anything else is looked at.
#[verifier::external_body]
pub(crate) fn diff_pairs(left: &Vec<(u64, u8)>, right: &Vec<(u64, u8)>) -> (steps: Vec<DiffStep>)
    requires
        diffable(left@.len(), right@.len()),
    ensures
        steps@ == diff_slice(left@, right@),
        is_edit_script(steps@, left@, right@),
        left@ == right@ ==> all_matched(steps@),
{
    let mut steps = Vec::new();
    for fragment in diff::slice(left.as_slice(), right.as_slice()) {
        steps.push(
            match fragment {
                diff::Result::Left(l) => DiffStep::Left(*l),
                diff::Result::Both(l, r) => DiffStep::Both(*l, *r),
                diff::Result::Right(r) => DiffStep::Right(*r),
            },
        );
    }
    steps
}

} // verus!

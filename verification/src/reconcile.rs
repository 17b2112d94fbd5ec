//! The delta between two sign overlays of one file.

use vstd::prelude::*;
use crate::annotation::{CommandModel, ReconciliationCommand, Sign};
use crate::diffing::{
    all_matched, can_diff, diff_pairs, diff_slice, diffable, is_edit_script, left_items,
    pairs_agree, right_items, DiffStep,
};

verus! {

/// The comparison pairs of a sequence of signs.
pub open spec fn sign_keys(signs: Seq<Sign>) -> Seq<(u64, u8)> {
    signs.map_values(|s: Sign| s.key())
}

/// What each command of a batch says.
pub open spec fn command_views(commands: Seq<ReconciliationCommand>) -> Seq<CommandModel> {
    commands.map_values(|c: ReconciliationCommand| c@)
}

/// One command placing each sign, in the signs' order.
pub open spec fn additions(signs: Seq<Sign>, file: Seq<char>) -> Seq<CommandModel> {
    Seq::new(signs.len(), |k: int| CommandModel::Add(signs[k], file))
}

/// One command removing each sign, in the signs' order.
pub open spec fn removals(signs: Seq<Sign>, file: Seq<char>) -> Seq<CommandModel> {
    Seq::new(signs.len(), |k: int| CommandModel::Remove(signs[k], file))
}

/// The batch that a walk over the diff steps emits: a removal for each element
/// that only `previous` has, carrying the sign of `previous` at that place, an
/// addition for each that only `current` has, carrying the sign of `current`,
/// nothing for a matched pair; in the order of the steps.
pub open spec fn commands_of(
    steps: Seq<DiffStep>,
    previous: Seq<Sign>,
    current: Seq<Sign>,
    file: Seq<char>,
) -> Seq<CommandModel>
    decreases steps.len(),
{
    if steps.len() == 0 {
        Seq::empty()
    } else {
        let init = steps.drop_last();
        let batch = commands_of(init, previous, current, file);
        match steps.last() {
            DiffStep::Left(_) => batch.push(
                CommandModel::Remove(previous[left_items(init).len() as int], file),
            ),
            DiffStep::Right(_) => batch.push(
                CommandModel::Add(current[right_items(init).len() as int], file),
            ),
            DiffStep::Both(_, _) => batch,
        }
    }
}

/// The batch that turns `previous` into `current`: the walk over the diff of
/// their comparison pairs.
pub open spec fn reconcile_spec(
    previous: Seq<Sign>,
    current: Seq<Sign>,
    file: Seq<char>,
) -> Seq<CommandModel> {
    commands_of(diff_slice(sign_keys(previous), sign_keys(current)), previous, current, file)
}

/// A prefix of the steps visits no more of either sequence than all of them.
pub proof fn lemma_prefix_visits(steps: Seq<DiffStep>, k: int)
    requires
        0 <= k <= steps.len(),
    ensures
        left_items(steps.take(k)).len() <= left_items(steps).len(),
        right_items(steps.take(k)).len() <= right_items(steps).len(),
    decreases steps.len(),
{
    if k == steps.len() {
        assert(steps.take(k) == steps);
    } else {
        assert(steps.drop_last().take(k) == steps.take(k));
        lemma_prefix_visits(steps.drop_last(), k);
    }
}

/// Steps that are all matched pairs emit no command, whatever the signs are.
pub proof fn lemma_matched_emit_nothing(
    steps: Seq<DiffStep>,
    previous: Seq<Sign>,
    current: Seq<Sign>,
    file: Seq<char>,
)
    requires
        all_matched(steps),
    ensures
        commands_of(steps, previous, current, file) == Seq::<CommandModel>::empty(),
    decreases steps.len(),
{
    if steps.len() > 0 {
        assert(steps[steps.len() - 1] is Both);
        assert(all_matched(steps.drop_last())) by {
            assert forall|k: int| 0 <= k < steps.drop_last().len() implies #[trigger] steps.drop_last()[k] is Both by {
                assert(steps[k] is Both);
            }
        }
        lemma_matched_emit_nothing(steps.drop_last(), previous, current, file);
    }
}

/// Steps that visit nothing on the left emit one addition for each element
/// that they visit on the right, in order, and nothing else.
pub proof fn lemma_right_only_emits_additions(
    steps: Seq<DiffStep>,
    previous: Seq<Sign>,
    current: Seq<Sign>,
    file: Seq<char>,
)
    requires
        left_items(steps).len() == 0,
        right_items(steps).len() <= current.len(),
    ensures
        commands_of(steps, previous, current, file) == additions(
            current.take(right_items(steps).len() as int),
            file,
        ),
    decreases steps.len(),
{
    if steps.len() == 0 {
        assert(commands_of(steps, previous, current, file) =~= additions(current.take(0), file));
    } else {
        let init = steps.drop_last();
        lemma_right_only_emits_additions(init, previous, current, file);
        let n = right_items(init).len() as int;
        assert(commands_of(steps, previous, current, file) =~= additions(
            current.take(n + 1),
            file,
        ));
    }
}

/// Steps that visit nothing on the right emit one removal for each element
/// that they visit on the left, in order, and nothing else.
pub proof fn lemma_left_only_emits_removals(
    steps: Seq<DiffStep>,
    previous: Seq<Sign>,
    current: Seq<Sign>,
    file: Seq<char>,
)
    requires
        right_items(steps).len() == 0,
        left_items(steps).len() <= previous.len(),
    ensures
        commands_of(steps, previous, current, file) == removals(
            previous.take(left_items(steps).len() as int),
            file,
        ),
    decreases steps.len(),
{
    if steps.len() == 0 {
        assert(commands_of(steps, previous, current, file) =~= removals(previous.take(0), file));
    } else {
        let init = steps.drop_last();
        lemma_left_only_emits_removals(init, previous, current, file);
        let n = left_items(init).len() as int;
        assert(commands_of(steps, previous, current, file) =~= removals(
            previous.take(n + 1),
            file,
        ));
    }
}

/// The overlay that the walk over the steps leaves: the signs of `previous`
/// under matched pairs stay, those that only `previous` has go, and those that
/// only `current` has come in where the walk meets them.
pub open spec fn patched(steps: Seq<DiffStep>, previous: Seq<Sign>, current: Seq<Sign>) -> Seq<
    Sign,
>
    decreases steps.len(),
{
    if steps.len() == 0 {
        Seq::empty()
    } else {
        let init = steps.drop_last();
        let overlay = patched(init, previous, current);
        match steps.last() {
            DiffStep::Left(_) => overlay,
            DiffStep::Both(_, _) => overlay.push(previous[left_items(init).len() as int]),
            DiffStep::Right(_) => overlay.push(current[right_items(init).len() as int]),
        }
    }
}

/// Steps whose visits are the first signs of either overlay, and which pair
/// only equal elements, leave an overlay that marks what they visited on the
/// right.
pub proof fn lemma_patched_marks(steps: Seq<DiffStep>, previous: Seq<Sign>, current: Seq<Sign>)
    requires
        left_items(steps).len() <= previous.len(),
        right_items(steps).len() <= current.len(),
        left_items(steps) == sign_keys(previous).take(left_items(steps).len() as int),
        right_items(steps) == sign_keys(current).take(right_items(steps).len() as int),
        pairs_agree(steps),
    ensures
        sign_keys(patched(steps, previous, current)) == right_items(steps),
    decreases steps.len(),
{
    if steps.len() == 0 {
        assert(sign_keys(patched(steps, previous, current)) =~= right_items(steps));
    } else {
        let init = steps.drop_last();
        let n = left_items(init).len() as int;
        let m = right_items(init).len() as int;
        assert(left_items(init) =~= sign_keys(previous).take(n)) by {
            assert(left_items(init) =~= left_items(steps).take(n));
        }
        assert(right_items(init) =~= sign_keys(current).take(m)) by {
            assert(right_items(init) =~= right_items(steps).take(m));
        }
        assert(pairs_agree(init)) by {
            assert forall|k: int| 0 <= k < init.len() implies match #[trigger] init[k] {
                DiffStep::Both(l, r) => l == r,
                _ => true,
            } by {
                assert(init[k] == steps[k]);
            }
        }
        lemma_patched_marks(init, previous, current);
        let overlay = patched(init, previous, current);
        match steps.last() {
            DiffStep::Left(_) => {},
            DiffStep::Both(l, r) => {
                assert(steps[steps.len() - 1] == DiffStep::Both(l, r));
                assert(left_items(steps)[n] == l);
                assert(sign_keys(previous)[n] == previous[n].key());
                assert(sign_keys(overlay.push(previous[n])) =~= sign_keys(overlay).push(
                    previous[n].key(),
                ));
            },
            DiffStep::Right(r) => {
                assert(right_items(steps)[m] == r);
                assert(sign_keys(current)[m] == current[m].key());
                assert(sign_keys(overlay.push(current[m])) =~= sign_keys(overlay).push(
                    current[m].key(),
                ));
            },
        }
    }
}

/// The walk over an edit script from the pairs of `previous` to those of
/// `current` leaves an overlay that marks exactly what `current` marks: the
/// removals and additions that it emits turn the one into the other.
pub proof fn lemma_batch_turns_previous_into_current(
    steps: Seq<DiffStep>,
    previous: Seq<Sign>,
    current: Seq<Sign>,
)
    requires
        is_edit_script(steps, sign_keys(previous), sign_keys(current)),
    ensures
        sign_keys(patched(steps, previous, current)) == sign_keys(current),
{
    assert(sign_keys(previous).take(previous.len() as int) == sign_keys(previous));
    assert(sign_keys(current).take(current.len() as int) == sign_keys(current));
    lemma_patched_marks(steps, previous, current);
}

/// The comparison pairs of `signs`, in order.
pub fn keys_of(signs: &[Sign]) -> (keys: Vec<(u64, u8)>)
    ensures
        keys@ == sign_keys(signs@),
{
    let mut keys: Vec<(u64, u8)> = Vec::new();
    let mut k: usize = 0;
    while k < signs.len()
        invariant
            k <= signs@.len(),
            keys@ == sign_keys(signs@.take(k as int)),
        decreases signs@.len() - k,
    {
        keys.push(signs[k].exec_key());
        assert(keys@ =~= sign_keys(signs@.take(k + 1)));
        k += 1;
    }
    assert(signs@.take(k as int) == signs@);
    keys
}

/// Walks the steps of a diff between the comparison pairs of `previous` and
/// `current` and emits the batch for `filename`.
pub fn commands_for_steps(
    steps: &Vec<DiffStep>,
    previous: &[Sign],
    current: &[Sign],
    filename: &str,
) -> (out: Vec<ReconciliationCommand>)
    requires
        left_items(steps@).len() <= previous@.len(),
        right_items(steps@).len() <= current@.len(),
    ensures
        command_views(out@) == commands_of(steps@, previous@, current@, filename@),
{
    let mut out: Vec<ReconciliationCommand> = Vec::new();
    let mut i: usize = 0;
    let mut j: usize = 0;
    let mut k: usize = 0;
    let previous_len: usize = previous.len();
    let current_len: usize = current.len();
    assert(command_views(out@) =~= commands_of(
        steps@.take(0),
        previous@,
        current@,
        filename@,
    ));
    while k < steps.len()
        invariant
            k <= steps@.len(),
            previous_len == previous@.len(),
            current_len == current@.len(),
            left_items(steps@).len() <= previous@.len(),
            right_items(steps@).len() <= current@.len(),
            i == left_items(steps@.take(k as int)).len(),
            j == right_items(steps@.take(k as int)).len(),
            command_views(out@) == commands_of(
                steps@.take(k as int),
                previous@,
                current@,
                filename@,
            ),
        decreases steps@.len() - k,
    {
        proof {
            assert(steps@.take(k + 1).drop_last() == steps@.take(k as int));
            assert(steps@.take(k + 1).last() == steps@[k as int]);
            lemma_prefix_visits(steps@, k + 1);
        }
        let ghost before = out@;
        match steps[k] {
            DiffStep::Left(_) => {
                let command = ReconciliationCommand::RemoveAnnotation {
                    sign: previous[i],
                    file: filename.to_owned(),
                };
                out.push(command);
                assert(command_views(out@) =~= command_views(before).push(command@));
                i += 1;
            },
            DiffStep::Right(_) => {
                let command = ReconciliationCommand::AddAnnotation {
                    sign: current[j],
                    file: filename.to_owned(),
                };
                out.push(command);
                assert(command_views(out@) =~= command_views(before).push(command@));
                j += 1;
            },
            DiffStep::Both(_, _) => {
                assert(left_items(steps@.take(k + 1)).len() == i + 1);
                assert(right_items(steps@.take(k + 1)).len() == j + 1);
                i += 1;
                j += 1;
            },
        }
        k += 1;
    }
    assert(steps@.take(k as int) == steps@);
    out
}

/// The batch of commands that turns the overlay `previous` of `filename` into
/// `current`. Signs are compared by line and severity. A sign that only
/// `previous` has is removed, one that only `current` has is added, and what
/// both have is left alone; the commands come in the order in which the diff
/// visits the two overlays.
///
/// The diff behind the batch is an edit script from the one overlay to the
/// other. Equal overlays give an empty batch; an empty `previous` gives one
/// addition per sign of `current`, in order; an empty `current` gives one
/// removal per sign of `previous`, in order.
pub fn reconcile(previous: &[Sign], current: &[Sign], filename: &str) -> (out: Vec<
    ReconciliationCommand,
>)
    requires
        diffable(previous@.len(), current@.len()),
    ensures
        command_views(out@) == reconcile_spec(previous@, current@, filename@),
        is_edit_script(
            diff_slice(sign_keys(previous@), sign_keys(current@)),
            sign_keys(previous@),
            sign_keys(current@),
        ),
        sign_keys(previous@) == sign_keys(current@) ==> out@.len() == 0,
        previous@.len() == 0 ==> command_views(out@) == additions(current@, filename@),
        current@.len() == 0 ==> command_views(out@) == removals(previous@, filename@),
{
    let left = keys_of(previous);
    let right = keys_of(current);
    let steps = diff_pairs(&left, &right);
    let out = commands_for_steps(&steps, previous, current, filename);
    proof {
        if sign_keys(previous@) == sign_keys(current@) {
            lemma_matched_emit_nothing(steps@, previous@, current@, filename@);
            assert(command_views(out@).len() == out@.len());
        }
        if previous@.len() == 0 {
            lemma_right_only_emits_additions(steps@, previous@, current@, filename@);
            assert(current@.take(current@.len() as int) == current@);
        }
        if current@.len() == 0 {
            lemma_left_only_emits_removals(steps@, previous@, current@, filename@);
            assert(previous@.take(previous@.len() as int) == previous@);
        }
    }
    out
}

/// The batch that turns `previous` into `current`, or `None` where the two
/// overlays are too long for a diff to be asked for.
pub fn try_reconcile(previous: &[Sign], current: &[Sign], filename: &str) -> (out: Option<
    Vec<ReconciliationCommand>,
>)
    ensures
        out is Some == diffable(previous@.len(), current@.len()),
        out matches Some(batch) ==> command_views(batch@) == reconcile_spec(
            previous@,
            current@,
            filename@,
        ),
{
    if can_diff(previous.len(), current.len()) {
        Some(reconcile(previous, current, filename))
    } else {
        None
    }
}

} // verus!

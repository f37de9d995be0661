//! Fitting the recorded ownership onto a freshly computed list of hunks.

use vstd::prelude::*;
use crate::donors::{
    any_selector, application_order, biggest, borrow_all, find_with_path, first_with_path,
    has_selector, order_for_merge, overlapping, overlaps, owners, ref_models, size_key,
};
use crate::foreign::{distinct_count, line_views};
use crate::merge::{clamp_stack, clamp_to_applied, merged};
use crate::model::{AssignmentModel, HunkAssignment, StackId, copy_vec, models};
use crate::split::{
    body_lines, changed_lines, drawn_for, ids_needed, new_to, split_avoiding, split_lines,
    split_record,
};

verus! {

/// What becomes of ownership where several earlier records of more than one
/// stack bear on one hunk.
#[derive(Debug, Clone, Copy, PartialEq, Eq, Structural)]
pub enum MultipleOverlapping {
    /// Nobody owns the hunk.
    SetNone,
    /// The owner of the record with the most lines owns the hunk.
    SetMostLines,
}

/// The receiver after it has taken over from each donor in turn.
pub open spec fn merge_all(
    receiver: AssignmentModel,
    donors: Seq<AssignmentModel>,
    applied: Seq<StackId>,
    update_unassigned: bool,
) -> AssignmentModel
    decreases donors.len(),
{
    if donors.len() == 0 {
        receiver
    } else {
        merged(
            merge_all(receiver, donors.drop_last(), applied, update_unassigned),
            donors.last(),
            applied,
            update_unassigned,
        )
    }
}

/// The record with its owner held against the workspace.
pub open spec fn clamped(record: AssignmentModel, applied: Seq<StackId>) -> AssignmentModel {
    AssignmentModel { stack_id: clamp_stack(record.stack_id, applied), ..record }
}

/// A line of a cut hunk after it has taken over from the donors that
/// intersect it, the broadest first.
pub open spec fn settled_piece(
    piece: AssignmentModel,
    donors: Seq<AssignmentModel>,
    applied: Seq<StackId>,
    update_unassigned: bool,
) -> AssignmentModel {
    clamped(
        merge_all(piece, application_order(overlaps(donors, piece)), applied, update_unassigned),
        applied,
    )
}

/// Every line of a cut hunk, settled by itself.
pub open spec fn settled_pieces(
    pieces: Seq<AssignmentModel>,
    donors: Seq<AssignmentModel>,
    applied: Seq<StackId>,
    update_unassigned: bool,
) -> Seq<AssignmentModel> {
    Seq::new(
        pieces.len(),
        |i: int| settled_piece(pieces[i], donors, applied, update_unassigned),
    )
}

/// More than one stack is named among the records.
pub open spec fn owners_differ(donors: Seq<AssignmentModel>) -> bool {
    owners(donors).to_set().len() > 1
}

/// A hunk that stays whole, after it has taken over from what bears on it.
///
/// Without a donor it keeps what it has, but for the locks of the first
/// earlier record of its file. With one donor it takes over from that one.
/// With several it takes over from the biggest, and under
/// [`MultipleOverlapping::SetNone`] loses its owner where the donors name
/// more than one stack.
pub open spec fn settled_whole(
    record: AssignmentModel,
    old: Seq<AssignmentModel>,
    donors: Seq<AssignmentModel>,
    applied: Seq<StackId>,
    policy: MultipleOverlapping,
    update_unassigned: bool,
) -> AssignmentModel {
    if donors.len() == 0 {
        match first_with_path(old, record.path) {
            Some(same_file) => AssignmentModel { hunk_locks: same_file.hunk_locks, ..record },
            None => record,
        }
    } else if donors.len() == 1 {
        merged(record, donors[0], applied, update_unassigned)
    } else {
        let taken = merged(record, biggest(donors), applied, update_unassigned);
        if policy == MultipleOverlapping::SetNone && owners_differ(donors) {
            AssignmentModel { stack_id: None, ..taken }
        } else {
            taken
        }
    }
}

/// The hunk has a body and one of its donors tracks single lines, so the
/// hunk is cut into its lines.
pub open spec fn split_path(record: AssignmentModel, donors: Seq<AssignmentModel>) -> bool {
    record.diff is Some && has_selector(donors)
}

/// What one new record becomes, given the lines of its body and the fresh
/// identifiers for its pieces.
pub open spec fn reconciled_record(
    record: AssignmentModel,
    lines: Seq<Seq<u8>>,
    ids: Seq<u128>,
    old: Seq<AssignmentModel>,
    applied: Seq<StackId>,
    policy: MultipleOverlapping,
    update_unassigned: bool,
) -> Seq<AssignmentModel> {
    let donors = overlaps(old, record);
    if split_path(record, donors) {
        settled_pieces(split_record(record, lines, ids), donors, applied, update_unassigned)
    } else {
        seq![settled_whole(record, old, donors, applied, policy, update_unassigned)]
    }
}

/// What the new records become, one after the other, a cut hunk giving its
/// lines in place. `ids[i]` holds the fresh identifiers for the pieces of
/// `new[i]`.
pub open spec fn reconciled(
    new: Seq<AssignmentModel>,
    old: Seq<AssignmentModel>,
    applied: Seq<StackId>,
    policy: MultipleOverlapping,
    update_unassigned: bool,
    ids: Seq<Seq<u128>>,
) -> Seq<AssignmentModel>
    decreases new.len(),
{
    if new.len() == 0 {
        Seq::empty()
    } else {
        reconciled(new.drop_last(), old, applied, policy, update_unassigned, ids.drop_last())
            + reconciled_record(
            new.last(),
            body_lines(new.last()),
            ids.last(),
            old,
            applied,
            policy,
            update_unassigned,
        )
    }
}

/// Each cut hunk has exactly the fresh identifiers that its pieces take up,
/// and a hunk that stays whole has none.
pub open spec fn ids_fit(
    new: Seq<AssignmentModel>,
    old: Seq<AssignmentModel>,
    ids: Seq<Seq<u128>>,
) -> bool {
    &&& ids.len() == new.len()
    &&& forall|i: int|
        0 <= i < new.len() ==> (#[trigger] ids[i]).len() == if split_path(
            new[i],
            overlaps(old, new[i]),
        ) {
            ids_needed(new[i].id, changed_lines(body_lines(new[i])))
        } else {
            0
        }
}

/// The identities that the records have, in order.
pub open spec fn identities(records: Seq<AssignmentModel>) -> Seq<u128>
    decreases records.len(),
{
    if records.len() == 0 {
        Seq::empty()
    } else {
        let before = identities(records.drop_last());
        match records.last().id {
            Some(id) => before.push(id),
            None => before,
        }
    }
}

/// The fresh identifiers are new: none is one of `known`, and no two of
/// them are the same, whether drawn for one hunk or for two.
pub open spec fn fresh_supply(ids: Seq<Seq<u128>>, known: Seq<u128>) -> bool {
    &&& forall|i: int, a: int|
        0 <= i < ids.len() && 0 <= a < ids[i].len() ==> !known.contains(#[trigger] ids[i][a])
    &&& forall|i: int, a: int, j: int, b: int|
        0 <= i < ids.len() && 0 <= a < ids[i].len() && 0 <= j < ids.len() && 0 <= b
            < ids[j].len() && (i != j || a != b) ==> #[trigger] ids[i][a] != #[trigger] ids[j][b]
}

/// `taken` holds every known identifier and every one given out so far.
pub open spec fn covers(taken: Seq<u128>, used: Seq<Seq<u128>>, known: Seq<u128>) -> bool {
    &&& forall|k: int| 0 <= k < known.len() ==> taken.contains(#[trigger] known[k])
    &&& forall|i: int, a: int|
        0 <= i < used.len() && 0 <= a < used[i].len() ==> taken.contains(#[trigger] used[i][a])
}

/// Identifiers that are new to all that is taken keep the supply new.
proof fn lemma_supply_grows(
    used: Seq<Seq<u128>>,
    known: Seq<u128>,
    taken: Seq<u128>,
    drawn: Seq<u128>,
)
    requires
        fresh_supply(used, known),
        covers(taken, used, known),
        new_to(drawn, taken),
    ensures
        fresh_supply(used.push(drawn), known),
        covers(taken + drawn, used.push(drawn), known),
{
    let more = used.push(drawn);
    let all = taken + drawn;
    assert forall|x: u128| taken.contains(x) implies all.contains(x) by {
        let at = choose|at: int| 0 <= at < taken.len() && taken[at] == x;
        assert(all[at] == x);
    }
    assert forall|k: int| 0 <= k < known.len() implies all.contains(#[trigger] known[k]) by {
        assert(taken.contains(known[k]));
    }
    assert forall|i: int, a: int| 0 <= i < more.len() && 0 <= a < more[i].len() implies all.contains(
        #[trigger] more[i][a],
    ) by {
        if i < used.len() {
            assert(more[i] == used[i]);
            assert(taken.contains(used[i][a]));
        } else {
            assert(more[i] == drawn);
            assert(all[taken.len() + a] == drawn[a]);
        }
    }
    assert forall|i: int, a: int| 0 <= i < more.len() && 0 <= a < more[i].len() implies !known.contains(
        #[trigger] more[i][a],
    ) by {
        if i < used.len() {
            assert(more[i] == used[i]);
            assert(!known.contains(used[i][a]));
        } else {
            assert(more[i] == drawn);
            if known.contains(drawn[a]) {
                let at = choose|at: int| 0 <= at < known.len() && known[at] == drawn[a];
                assert(taken.contains(known[at]));
            }
        }
    }
    assert forall|i: int, a: int, j: int, b: int|
        0 <= i < more.len() && 0 <= a < more[i].len() && 0 <= j < more.len() && 0 <= b
            < more[j].len() && (i != j || a != b) implies #[trigger] more[i][a]
        != #[trigger] more[j][b] by {
        if i < used.len() {
            assert(more[i] == used[i]);
            assert(taken.contains(used[i][a]));
        } else {
            assert(more[i] == drawn);
            assert(!taken.contains(drawn[a]));
        }
        if j < used.len() {
            assert(more[j] == used[j]);
            assert(taken.contains(used[j][b]));
        } else {
            assert(more[j] == drawn);
            assert(!taken.contains(drawn[b]));
        }
        if i < used.len() && j < used.len() {
            assert(used[i][a] != used[j][b]);
        }
    }
}

/// Adds the identities that the records have to `into`.
pub fn collect_identities(records: &[HunkAssignment], into: &mut Vec<u128>)
    ensures
        final(into)@ == old(into)@ + identities(models(records@)),
{
    let ghost before = into@;
    let ghost all = models(records@);
    let mut i: usize = 0;
    proof {
        assert(into@ =~= before + identities(all.take(0)));
    }
    while i < records.len()
        invariant
            i <= records.len(),
            all == models(records@),
            into@ == before + identities(all.take(i as int)),
        decreases records.len() - i,
    {
        proof {
            assert(all.take(i + 1).drop_last() =~= all.take(i as int));
            assert(all.take(i + 1).last() == records@[i as int]@);
        }
        match records[i].id {
            Some(id) => {
                into.push(id);
                proof {
                    assert(into@ =~= before + identities(all.take(i + 1)));
                }
            },
            None => {},
        }
        i += 1;
    }
    proof {
        assert(all.take(records.len() as int) =~= all);
    }
}

/// The receiver after it has taken over from each donor in turn.
pub fn merge_from_all(
    receiver: &HunkAssignment,
    donors: &Vec<&HunkAssignment>,
    applied_stack_ids: &[StackId],
    update_unassigned: bool,
) -> (out: HunkAssignment)
    ensures
        out@ == merge_all(receiver@, ref_models(donors@), applied_stack_ids@, update_unassigned),
{
    let ghost all = ref_models(donors@);
    let mut out = receiver.duplicate();
    let mut i: usize = 0;
    while i < donors.len()
        invariant
            i <= donors.len(),
            all == ref_models(donors@),
            out@ == merge_all(receiver@, all.take(i as int), applied_stack_ids@, update_unassigned),
        decreases donors.len() - i,
    {
        proof {
            assert(all.take(i + 1).drop_last() =~= all.take(i as int));
            assert(all.take(i + 1).last() == donors@[i as int]@);
        }
        out.set_from(donors[i], applied_stack_ids, update_unassigned);
        i += 1;
    }
    proof {
        assert(all.take(donors.len() as int) =~= all);
    }
    out
}

/// Settles one line of a cut hunk against the donors of the hunk.
pub fn settle_piece(
    piece: &HunkAssignment,
    donors: &Vec<&HunkAssignment>,
    applied_stack_ids: &[StackId],
    update_unassigned: bool,
) -> (out: HunkAssignment)
    ensures
        out@ == settled_piece(
            piece@,
            ref_models(donors@),
            applied_stack_ids@,
            update_unassigned,
        ),
{
    let mine = overlapping(donors, piece);
    let order = order_for_merge(&mine);
    let mut out = merge_from_all(piece, &order, applied_stack_ids, update_unassigned);
    out.stack_id = clamp_to_applied(out.stack_id, applied_stack_ids);
    out
}

/// Settles every line of a cut hunk against the donors of the hunk.
pub fn settle_pieces(
    pieces: &Vec<HunkAssignment>,
    donors: &Vec<&HunkAssignment>,
    applied_stack_ids: &[StackId],
    update_unassigned: bool,
) -> (out: Vec<HunkAssignment>)
    ensures
        models(out@) == settled_pieces(
            models(pieces@),
            ref_models(donors@),
            applied_stack_ids@,
            update_unassigned,
        ),
{
    let ghost goal = settled_pieces(
        models(pieces@),
        ref_models(donors@),
        applied_stack_ids@,
        update_unassigned,
    );
    let mut out: Vec<HunkAssignment> = Vec::new();
    let mut i: usize = 0;
    while i < pieces.len()
        invariant
            i <= pieces.len(),
            goal == settled_pieces(
                models(pieces@),
                ref_models(donors@),
                applied_stack_ids@,
                update_unassigned,
            ),
            models(out@) == goal.take(i as int),
        decreases pieces.len() - i,
    {
        let ghost before = models(out@);
        let settled = settle_piece(&pieces[i], donors, applied_stack_ids, update_unassigned);
        out.push(settled);
        proof {
            assert(models(pieces@)[i as int] == pieces@[i as int]@);
            assert(models(out@) =~= before.push(settled@));
            assert(goal.take(i + 1) =~= goal.take(i as int).push(goal[i as int]));
        }
        i += 1;
    }
    proof {
        assert(goal.take(pieces.len() as int) =~= goal);
    }
    out
}

/// The donor with the longest new side; of several, the last.
pub fn pick_biggest<'a>(donors: &Vec<&'a HunkAssignment>) -> (best: &'a HunkAssignment)
    requires
        donors@.len() > 0,
    ensures
        best@ == biggest(ref_models(donors@)),
{
    let ghost all = ref_models(donors@);
    let mut best: &'a HunkAssignment = donors[0];
    let mut i: usize = 1;
    proof {
        assert(all.take(1)[0] == donors@[0]@);
    }
    while i < donors.len()
        invariant
            1 <= i <= donors.len(),
            all == ref_models(donors@),
            best@ == biggest(all.take(i as int)),
        decreases donors.len() - i,
    {
        proof {
            assert(all.take(i + 1).drop_last() =~= all.take(i as int));
            assert(all.take(i + 1).last() == donors@[i as int]@);
        }
        let candidate: &'a HunkAssignment = donors[i];
        if !shorter_than(candidate, best) {
            best = candidate;
        }
        i += 1;
    }
    proof {
        assert(all.take(donors.len() as int) =~= all);
    }
    best
}

/// Whether the new side of `a` is shorter than that of `b`, a record of the
/// whole file being shorter than any header.
fn shorter_than(a: &HunkAssignment, b: &HunkAssignment) -> (less: bool)
    ensures
        less == (size_key(a@) < size_key(b@)),
{
    match (a.hunk_header, b.hunk_header) {
        (Some(x), Some(y)) => x.new_lines < y.new_lines,
        (None, Some(_)) => true,
        _ => false,
    }
}

/// The owners that the records name, in order, each as its number.
pub fn collect_owners(donors: &Vec<&HunkAssignment>) -> (out: Vec<u128>)
    ensures
        out@ == owners(ref_models(donors@)),
{
    let ghost all = ref_models(donors@);
    let mut out: Vec<u128> = Vec::new();
    let mut i: usize = 0;
    while i < donors.len()
        invariant
            i <= donors.len(),
            all == ref_models(donors@),
            out@ == owners(all.take(i as int)),
        decreases donors.len() - i,
    {
        proof {
            assert(all.take(i + 1).drop_last() =~= all.take(i as int));
            assert(all.take(i + 1).last() == donors@[i as int]@);
        }
        match donors[i].stack_id {
            Some(stack) => {
                out.push(stack.0);
            },
            None => {},
        }
        i += 1;
    }
    proof {
        assert(all.take(donors.len() as int) =~= all);
    }
    out
}

/// Settles a hunk that stays whole. `donors` are the records of `old` that
/// intersect it.
pub fn settle_whole(
    record: &HunkAssignment,
    old: &[HunkAssignment],
    donors: &Vec<&HunkAssignment>,
    applied_stack_ids: &[StackId],
    multiple_overlapping_resolution: MultipleOverlapping,
    update_unassigned: bool,
) -> (out: HunkAssignment)
    ensures
        out@ == settled_whole(
            record@,
            models(old@),
            ref_models(donors@),
            applied_stack_ids@,
            multiple_overlapping_resolution,
            update_unassigned,
        ),
{
    let mut out = record.duplicate();
    if donors.len() == 0 {
        match find_with_path(old, &record.path) {
            Some(same_file) => {
                out.hunk_locks = copy_vec(&same_file.hunk_locks);
            },
            None => {},
        }
    } else if donors.len() == 1 {
        proof {
            assert(ref_models(donors@)[0] == donors@[0]@);
        }
        out.set_from(donors[0], applied_stack_ids, update_unassigned);
    } else {
        let donor = pick_biggest(donors);
        out.set_from(donor, applied_stack_ids, update_unassigned);
        match multiple_overlapping_resolution {
            MultipleOverlapping::SetNone => {
                let named = collect_owners(donors);
                if distinct_count(&named) > 1 {
                    out.stack_id = None;
                }
            },
            MultipleOverlapping::SetMostLines => {},
        }
    }
    out
}

/// Whether a hunk with these donors is cut into its lines.
pub fn takes_split_path(record: &HunkAssignment, donors: &Vec<&HunkAssignment>) -> (cut: bool)
    ensures
        cut == split_path(record@, ref_models(donors@)),
{
    record.diff.is_some() && any_selector(donors)
}

/// Fits the recorded ownership onto one new record, given the lines of its
/// body and the fresh identifiers for the pieces it may be cut into.
pub fn reconcile_record(
    record: &HunkAssignment,
    lines: &Vec<Vec<u8>>,
    ids: &Vec<u128>,
    old: &[HunkAssignment],
    applied_stack_ids: &[StackId],
    multiple_overlapping_resolution: MultipleOverlapping,
    update_unassigned: bool,
) -> (out: Vec<HunkAssignment>)
    ensures
        models(out@) == reconciled_record(
            record@,
            line_views(lines@),
            ids@,
            models(old@),
            applied_stack_ids@,
            multiple_overlapping_resolution,
            update_unassigned,
        ),
{
    let everyone = borrow_all(old);
    let donors = overlapping(&everyone, record);
    if takes_split_path(record, &donors) {
        let pieces = split_lines(record, lines, ids);
        settle_pieces(&pieces, &donors, applied_stack_ids, update_unassigned)
    } else {
        let whole = settle_whole(
            record,
            old,
            &donors,
            applied_stack_ids,
            multiple_overlapping_resolution,
            update_unassigned,
        );
        let out = vec![whole];
        proof {
            assert(models(out@) =~= seq![whole@]);
        }
        out
    }
}

/// Fits the recorded ownership `old` onto the freshly computed records
/// `new`. The result holds what each new record becomes, in the order of
/// `new`; a hunk that is cut gives its lines in place, in the order of its
/// body. The fresh identities of such lines are drawn at random; none of
/// them is the identity of a record of `new` or `old`, and no two are the
/// same.
pub fn assignments(
    new: &[HunkAssignment],
    old: &[HunkAssignment],
    applied_stack_ids: &[StackId],
    multiple_overlapping_resolution: MultipleOverlapping,
    update_unassigned: bool,
) -> (out: Vec<HunkAssignment>)
    ensures
        exists|ids: Seq<Seq<u128>>|
            ids_fit(models(new@), models(old@), ids) && fresh_supply(
                ids,
                identities(models(new@)) + identities(models(old@)),
            ) && models(out@) == #[trigger] reconciled(
                models(new@),
                models(old@),
                applied_stack_ids@,
                multiple_overlapping_resolution,
                update_unassigned,
                ids,
            ),
{
    let ghost fresh = models(new@);
    let ghost known = identities(models(new@)) + identities(models(old@));
    let ghost mut used: Seq<Seq<u128>> = Seq::empty();
    let mut taken: Vec<u128> = Vec::new();
    collect_identities(new, &mut taken);
    collect_identities(old, &mut taken);
    let everyone = borrow_all(old);
    let mut out: Vec<HunkAssignment> = Vec::new();
    let mut i: usize = 0;
    proof {
        assert(taken@ =~= known);
        assert(models(out@) =~= Seq::<AssignmentModel>::empty());
        assert(fresh.take(0) =~= Seq::<AssignmentModel>::empty());
    }
    while i < new.len()
        invariant
            i <= new.len(),
            fresh == models(new@),
            known == identities(models(new@)) + identities(models(old@)),
            ref_models(everyone@) == models(old@),
            ids_fit(fresh.take(i as int), models(old@), used),
            fresh_supply(used, known),
            covers(taken@, used, known),
            models(out@) == reconciled(
                fresh.take(i as int),
                models(old@),
                applied_stack_ids@,
                multiple_overlapping_resolution,
                update_unassigned,
                used,
            ),
        decreases new.len() - i,
    {
        let record = &new[i];
        let ghost before = models(out@);
        let ghost held = taken@;
        let ghost drawn: Seq<u128>;
        let donors = overlapping(&everyone, record);
        if takes_split_path(record, &donors) {
            let pieces = split_avoiding(record, &mut taken);
            proof {
                drawn = choose|ids: Seq<u128>|
                    drawn_for(record@, ids, held, taken@) && models(pieces@)
                        == #[trigger] split_record(record@, body_lines(record@), ids);
            }
            let mut settled = settle_pieces(
                &pieces,
                &donors,
                applied_stack_ids,
                update_unassigned,
            );
            let ghost added = models(settled@);
            out.append(&mut settled);
            proof {
                assert(models(out@) =~= before + added);
            }
        } else {
            let whole = settle_whole(
                record,
                old,
                &donors,
                applied_stack_ids,
                multiple_overlapping_resolution,
                update_unassigned,
            );
            out.push(whole);
            proof {
                drawn = Seq::empty();
                assert(taken@ =~= held + drawn);
                assert(models(out@) =~= before + seq![whole@]);
            }
        }
        proof {
            let ghost earlier = used;
            lemma_supply_grows(earlier, known, held, drawn);
            used = used.push(drawn);
            assert(fresh[i as int] == record@);
            assert(fresh.take(i + 1).drop_last() =~= fresh.take(i as int));
            assert(fresh.take(i + 1).last() == record@);
            assert(used.drop_last() =~= earlier);
            assert(used.last() == drawn);
            assert(ids_fit(fresh.take(i + 1), models(old@), used)) by {
                assert forall|k: int| 0 <= k < i + 1 implies (#[trigger] used[k]).len() == if split_path(
                    fresh.take(i + 1)[k],
                    overlaps(models(old@), fresh.take(i + 1)[k]),
                ) {
                    ids_needed(
                        fresh.take(i + 1)[k].id,
                        changed_lines(body_lines(fresh.take(i + 1)[k])),
                    )
                } else {
                    0
                } by {
                    if k < i {
                        assert(used[k] == earlier[k]);
                        assert(fresh.take(i + 1)[k] == fresh.take(i as int)[k]);
                    }
                }
            }
        }
        i += 1;
    }
    proof {
        assert(fresh.take(new.len() as int) =~= fresh);
    }
    out
}

} // verus!

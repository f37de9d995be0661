//! What holds of the fitting as a whole, proved from the definitions.

use vstd::prelude::*;
use crate::donors::{
    application_order, biggest, broader_count, donor_key, first_with_path,
    lemma_broader_count_bounds, overlaps, owners, size_key,
};
use crate::merge::{adopted_stack, clamp_stack, merged};
use crate::model::{AssignmentModel, HunkHeader, StackId, records_intersect};
use crate::reconcile::{
    MultipleOverlapping, clamped, merge_all, owners_differ, reconciled, reconciled_record,
    settled_piece, settled_pieces, split_path,
};
use crate::split::{
    added_piece, body_lines, changed_lines, ids_needed, lemma_pieces_len, line_kind, line_pieces,
    line_position, new_advance, old_advance, piece_id, removed_piece, split_record,
};

verus! {

/// Whether two records intersect does not depend on which of them is asked.
pub proof fn lemma_intersect_symmetric(a: AssignmentModel, b: AssignmentModel)
    ensures
        records_intersect(a, b) == records_intersect(b, a),
{
}

/// A record that takes over from a donor whose owner is no stack of the
/// workspace ends without an owner.
pub proof fn lemma_stale_owner_cleared(
    receiver: AssignmentModel,
    donor: AssignmentModel,
    applied: Seq<StackId>,
    update_unassigned: bool,
)
    requires
        donor.stack_id is Some,
        !applied.contains(donor.stack_id->0),
    ensures
        merged(receiver, donor, applied, update_unassigned).stack_id is None,
{
}

/// The record is owned by a stack of the workspace, or by nobody.
pub open spec fn owner_applied(record: AssignmentModel, applied: Seq<StackId>) -> bool {
    match record.stack_id {
        Some(stack) => applied.contains(stack),
        None => true,
    }
}

/// After any merge the owner is a stack of the workspace, or nobody.
pub proof fn lemma_merged_owner_applied(
    receiver: AssignmentModel,
    donor: AssignmentModel,
    applied: Seq<StackId>,
    update_unassigned: bool,
)
    ensures
        owner_applied(merged(receiver, donor, applied, update_unassigned), applied),
{
}

/// No record of the list names the file `path`.
pub open spec fn no_record_of(old: Seq<AssignmentModel>, path: Seq<char>) -> bool {
    forall|k: int| 0 <= k < old.len() ==> (#[trigger] old[k]).path != path
}

/// Every record that intersects `record` is one of `old` and names its file.
pub proof fn lemma_overlaps_are_old(old: Seq<AssignmentModel>, record: AssignmentModel)
    ensures
        overlaps(old, record).len() <= old.len(),
        forall|k: int|
            0 <= k < overlaps(old, record).len() ==> old.contains(
                #[trigger] overlaps(old, record)[k],
            ) && records_intersect(overlaps(old, record)[k], record),
    decreases old.len(),
{
    if old.len() > 0 {
        let before = old.drop_last();
        lemma_overlaps_are_old(before, record);
        assert forall|k: int| 0 <= k < overlaps(old, record).len() implies old.contains(
            #[trigger] overlaps(old, record)[k],
        ) && records_intersect(overlaps(old, record)[k], record) by {
            if k < overlaps(before, record).len() {
                let found = overlaps(before, record)[k];
                assert(before.contains(found));
                let at = choose|at: int| 0 <= at < before.len() && before[at] == found;
                assert(old[at] == found);
            } else {
                assert(old[old.len() - 1] == old.last());
            }
        }
    }
}

/// Where no earlier record names the file, nothing is found for it.
proof fn lemma_nothing_for_other_files(old: Seq<AssignmentModel>, record: AssignmentModel)
    requires
        no_record_of(old, record.path),
    ensures
        overlaps(old, record).len() == 0,
        first_with_path(old, record.path) is None,
    decreases old.len(),
{
    if old.len() > 0 {
        assert(old[old.len() - 1].path != record.path);
        assert(old[0].path != record.path);
        assert(no_record_of(old.drop_last(), record.path)) by {
            assert forall|k: int| 0 <= k < old.drop_last().len() implies (
            #[trigger] old.drop_last()[k]).path != record.path by {
                assert(old.drop_last()[k] == old[k]);
            }
        }
        assert(no_record_of(old.skip(1), record.path)) by {
            assert forall|k: int| 0 <= k < old.skip(1).len() implies (#[trigger] old.skip(
                1,
            )[k]).path != record.path by {
                assert(old.skip(1)[k] == old[k + 1]);
            }
        }
        lemma_nothing_for_other_files(old.drop_last(), record);
        lemma_nothing_for_other_files(old.skip(1), record);
    }
}

/// A new record of a file that no earlier record names comes out as it went
/// in: its owner, its locks and everything else stay.
pub proof fn lemma_unknown_file_passes_through(
    record: AssignmentModel,
    lines: Seq<Seq<u8>>,
    ids: Seq<u128>,
    old: Seq<AssignmentModel>,
    applied: Seq<StackId>,
    policy: MultipleOverlapping,
    update_unassigned: bool,
)
    requires
        no_record_of(old, record.path),
    ensures
        reconciled_record(record, lines, ids, old, applied, policy, update_unassigned)
            == seq![record],
{
    lemma_nothing_for_other_files(old, record);
}

/// A hunk that stays whole and has one donor takes over from that donor:
/// its owner is the donor's, unless the hunk was unowned and
/// `update_unassigned` is off, and is dropped if it is no stack of the
/// workspace; its identity and its claimed lines are the donor's wherever the
/// donor has them.
pub proof fn lemma_single_donor_adopted(
    record: AssignmentModel,
    lines: Seq<Seq<u8>>,
    ids: Seq<u128>,
    old: Seq<AssignmentModel>,
    applied: Seq<StackId>,
    policy: MultipleOverlapping,
    update_unassigned: bool,
)
    requires
        overlaps(old, record).len() == 1,
        !split_path(record, overlaps(old, record)),
    ensures
        ({
            let donor = overlaps(old, record)[0];
            let out = reconciled_record(
                record,
                lines,
                ids,
                old,
                applied,
                policy,
                update_unassigned,
            );
            &&& out == seq![merged(record, donor, applied, update_unassigned)]
            &&& out[0].stack_id == clamp_stack(
                if record.stack_id is Some || update_unassigned {
                    donor.stack_id
                } else {
                    None
                },
                applied,
            )
            &&& donor.id is Some ==> out[0].id == donor.id
            &&& donor.line_nums_added is Some ==> out[0].line_nums_added == donor.line_nums_added
            &&& donor.line_nums_removed is Some ==> out[0].line_nums_removed
                == donor.line_nums_removed
            &&& out[0].hunk_locks == donor.hunk_locks
        }),
{
}

/// The biggest donor is one of the donors, none has a longer new side, and
/// none after it has one as long.
pub proof fn lemma_biggest_is_longest(donors: Seq<AssignmentModel>)
    requires
        donors.len() > 0,
    ensures
        exists|at: int|
            0 <= at < donors.len() && #[trigger] donors[at] == biggest(donors) && (forall|k: int|
                0 <= k < donors.len() ==> size_key(#[trigger] donors[k]) <= size_key(
                    biggest(donors),
                )) && (forall|k: int|
                at < k < donors.len() ==> size_key(#[trigger] donors[k]) < size_key(
                    biggest(donors),
                )),
    decreases donors.len(),
{
    if donors.len() == 1 {
        assert(donors[0] == biggest(donors));
    } else {
        let before = donors.drop_last();
        lemma_biggest_is_longest(before);
        let prev = choose|at: int|
            0 <= at < before.len() && #[trigger] before[at] == biggest(before) && (forall|k: int|
                0 <= k < before.len() ==> size_key(#[trigger] before[k]) <= size_key(
                    biggest(before),
                )) && (forall|k: int|
                at < k < before.len() ==> size_key(#[trigger] before[k]) < size_key(
                    biggest(before),
                ));
        let at = if size_key(donors.last()) >= size_key(biggest(before)) {
            donors.len() - 1
        } else {
            prev
        };
        assert(donors[at] == biggest(donors)) by {
            assert(before[prev] == donors[prev]);
        }
        assert forall|k: int| 0 <= k < donors.len() implies size_key(#[trigger] donors[k])
            <= size_key(biggest(donors)) by {
            if k < before.len() {
                assert(before[k] == donors[k]);
            }
        }
        assert forall|k: int| at < k < donors.len() implies size_key(#[trigger] donors[k])
            < size_key(biggest(donors)) by {
            if k < before.len() {
                assert(before[k] == donors[k]);
            }
        }
    }
}

/// The owner of every owned record is among the owners collected.
pub proof fn lemma_owner_is_collected(records: Seq<AssignmentModel>, at: int)
    requires
        0 <= at < records.len(),
        records[at].stack_id is Some,
    ensures
        owners(records).contains((records[at].stack_id->0).0),
    decreases records.len(),
{
    let before = owners(records.drop_last());
    if at == records.len() - 1 {
        assert(owners(records) == before.push((records[at].stack_id->0).0));
        assert(owners(records)[before.len() as int] == (records[at].stack_id->0).0);
    } else {
        lemma_owner_is_collected(records.drop_last(), at);
        let found = choose|k: int| 0 <= k < before.len() && before[k] == (records[at].stack_id->0).0;
        assert(owners(records)[found] == (records[at].stack_id->0).0);
    }
}

/// Two owned records of different stacks make the owners differ.
pub proof fn lemma_two_owners_differ(records: Seq<AssignmentModel>, a: int, b: int)
    requires
        0 <= a < records.len(),
        0 <= b < records.len(),
        records[a].stack_id is Some,
        records[b].stack_id is Some,
        records[a].stack_id != records[b].stack_id,
    ensures
        owners_differ(records),
{
    let named = owners(records);
    let x = (records[a].stack_id->0).0;
    let y = (records[b].stack_id->0).0;
    lemma_owner_is_collected(records, a);
    lemma_owner_is_collected(records, b);
    vstd::seq_lib::seq_to_set_is_finite(named);
    let all = named.to_set();
    assert(all.contains(x) && all.contains(y) && x != y);
    assert(all.remove(x).contains(y));
    assert(all.remove(x).len() >= 1) by {
        if all.remove(x).len() == 0 {
            assert(all.remove(x) =~= Set::empty());
        }
    }
}

/// Where two donors of a hunk that stays whole are owned by different
/// stacks, the hunk ends unowned under `SetNone`, and under `SetMostLines`
/// it takes over from the donor with the longest new side as from a single
/// donor.
pub proof fn lemma_ambiguous_owner(
    record: AssignmentModel,
    lines: Seq<Seq<u8>>,
    ids: Seq<u128>,
    old: Seq<AssignmentModel>,
    applied: Seq<StackId>,
    update_unassigned: bool,
    a: int,
    b: int,
)
    requires
        !split_path(record, overlaps(old, record)),
        0 <= a < overlaps(old, record).len(),
        0 <= b < overlaps(old, record).len(),
        overlaps(old, record)[a].stack_id is Some,
        overlaps(old, record)[b].stack_id is Some,
        overlaps(old, record)[a].stack_id != overlaps(old, record)[b].stack_id,
    ensures
        ({
            let donors = overlaps(old, record);
            let unowned = reconciled_record(
                record,
                lines,
                ids,
                old,
                applied,
                MultipleOverlapping::SetNone,
                update_unassigned,
            );
            let by_size = reconciled_record(
                record,
                lines,
                ids,
                old,
                applied,
                MultipleOverlapping::SetMostLines,
                update_unassigned,
            );
            let taken = merged(record, biggest(donors), applied, update_unassigned);
            &&& unowned == seq![AssignmentModel { stack_id: None, ..taken }]
            &&& by_size == seq![taken]
            &&& taken.stack_id == clamp_stack(
                adopted_stack(record.stack_id, biggest(donors).stack_id, update_unassigned),
                applied,
            )
        }),
{
    lemma_two_owners_differ(overlaps(old, record), a, b);
}

/// Every piece of a cut hunk is one line of the hunk's file, with the
/// owner and the locks of the hunk, and its identity is the one that falls to
/// its place.
pub proof fn lemma_piece_shape(
    base: AssignmentModel,
    header: HunkHeader,
    lines: Seq<Seq<u8>>,
    ids: Seq<u128>,
    k: int,
)
    requires
        0 <= k < line_pieces(base, header, lines, ids).len(),
    ensures
        ({
            let piece = line_pieces(base, header, lines, ids)[k];
            &&& piece.id == piece_id(base.id, ids, k as nat)
            &&& piece.path == base.path
            &&& piece.path_bytes == base.path_bytes
            &&& piece.stack_id == base.stack_id
            &&& piece.hunk_locks == base.hunk_locks
            &&& piece.diff is None
            &&& piece.hunk_header is Some
            &&& piece.hunk_header->0.is_selector()
            &&& piece.hunk_header->0.specificity() == 1
        }),
    decreases lines.len(),
{
    if lines.len() > 0 {
        let before = line_pieces(base, header, lines.drop_last(), ids);
        if k < before.len() {
            lemma_piece_shape(base, header, lines.drop_last(), ids, k);
        }
    }
}

/// Cutting a hunk hands its identity to the first piece alone. With fresh
/// identifiers that differ from each other and from the hunk's own, every
/// piece has an identity, each but the first of an identified hunk has a
/// fresh one, and no two pieces share one.
pub proof fn lemma_split_identities(
    base: AssignmentModel,
    header: HunkHeader,
    lines: Seq<Seq<u8>>,
    ids: Seq<u128>,
)
    requires
        ids.no_duplicates(),
        base.id is Some ==> !ids.contains(base.id->0),
        ids.len() >= ids_needed(base.id, changed_lines(lines)),
    ensures
        ({
            let pieces = line_pieces(base, header, lines, ids);
            &&& forall|k: int| 0 <= k < pieces.len() ==> (#[trigger] pieces[k]).id is Some
            &&& base.id is Some && pieces.len() > 0 ==> pieces[0].id == base.id
            &&& forall|k: int|
                0 <= k < pieces.len() && (k > 0 || base.id is None) ==> ids.contains(
                    (#[trigger] pieces[k]).id->0,
                ) && pieces[k].id != base.id
            &&& forall|j: int, k: int|
                0 <= j < k < pieces.len() ==> (#[trigger] pieces[j]).id != (#[trigger] pieces[k]).id
        }),
{
    let pieces = line_pieces(base, header, lines, ids);
    lemma_pieces_len(base, header, lines, ids);
    assert forall|k: int| 0 <= k < pieces.len() implies (#[trigger] pieces[k]).id == piece_id(
        base.id,
        ids,
        k as nat,
    ) by {
        lemma_piece_shape(base, header, lines, ids, k);
    }
    assert forall|k: int|
        0 <= k < pieces.len() && (k > 0 || base.id is None) implies ids.contains(
        (#[trigger] pieces[k]).id->0,
    ) && pieces[k].id != base.id by {
        let taken: int = if base.id is Some {
            k - 1
        } else {
            k
        };
        assert(pieces[k].id == Some(ids[taken]));
    }
    assert forall|j: int, k: int| 0 <= j < k < pieces.len() implies (#[trigger] pieces[j]).id != (
    #[trigger] pieces[k]).id by {
        if base.id is Some {
            assert(pieces[k].id == Some(ids[k - 1]));
            if j > 0 {
                assert(pieces[j].id == Some(ids[j - 1]));
            }
        } else {
            assert(pieces[k].id == Some(ids[k]));
            assert(pieces[j].id == Some(ids[j]));
        }
    }
}

/// Whatever one new record becomes is owned by a stack of the workspace or
/// by nobody, provided that the record itself is where nothing bears on it.
pub proof fn lemma_record_owners_applied(
    record: AssignmentModel,
    lines: Seq<Seq<u8>>,
    ids: Seq<u128>,
    old: Seq<AssignmentModel>,
    applied: Seq<StackId>,
    policy: MultipleOverlapping,
    update_unassigned: bool,
)
    requires
        overlaps(old, record).len() == 0 ==> owner_applied(record, applied),
    ensures
        forall|k: int|
            0 <= k < reconciled_record(
                record,
                lines,
                ids,
                old,
                applied,
                policy,
                update_unassigned,
            ).len() ==> owner_applied(
                #[trigger] reconciled_record(
                    record,
                    lines,
                    ids,
                    old,
                    applied,
                    policy,
                    update_unassigned,
                )[k],
                applied,
            ),
{
}

/// In the result no record is owned by a stack outside the workspace. A new
/// record on which no earlier record bears is handed on as it is, so this
/// holds provided that such records do not name a stack outside the
/// workspace themselves.
pub proof fn lemma_owners_are_applied(
    new: Seq<AssignmentModel>,
    old: Seq<AssignmentModel>,
    applied: Seq<StackId>,
    policy: MultipleOverlapping,
    update_unassigned: bool,
    ids: Seq<Seq<u128>>,
)
    requires
        ids.len() == new.len(),
        forall|i: int|
            0 <= i < new.len() && overlaps(old, #[trigger] new[i]).len() == 0 ==> owner_applied(
                new[i],
                applied,
            ),
    ensures
        forall|k: int|
            0 <= k < reconciled(new, old, applied, policy, update_unassigned, ids).len()
                ==> owner_applied(
                #[trigger] reconciled(new, old, applied, policy, update_unassigned, ids)[k],
                applied,
            ),
    decreases new.len(),
{
    if new.len() > 0 {
        assert forall|i: int|
            0 <= i < new.drop_last().len() && overlaps(old, #[trigger] new.drop_last()[i]).len()
                == 0 implies owner_applied(new.drop_last()[i], applied) by {
            assert(new.drop_last()[i] == new[i]);
        }
        lemma_owners_are_applied(
            new.drop_last(),
            old,
            applied,
            policy,
            update_unassigned,
            ids.drop_last(),
        );
        assert(new.last() == new[new.len() - 1]);
        lemma_record_owners_applied(
            new.last(),
            body_lines(new.last()),
            ids.last(),
            old,
            applied,
            policy,
            update_unassigned,
        );
        let head = reconciled(
            new.drop_last(),
            old,
            applied,
            policy,
            update_unassigned,
            ids.drop_last(),
        );
        let tail = reconciled_record(
            new.last(),
            body_lines(new.last()),
            ids.last(),
            old,
            applied,
            policy,
            update_unassigned,
        );
        let all = reconciled(new, old, applied, policy, update_unassigned, ids);
        assert(all == head + tail);
        assert forall|k: int| 0 <= k < all.len() implies owner_applied(
            #[trigger] all[k],
            applied,
        ) by {
            if k < head.len() {
                assert(all[k] == head[k]);
            } else {
                assert(all[k] == tail[k - head.len()]);
            }
        }
    }
}

/// The record without its identity.
pub open spec fn without_id(record: AssignmentModel) -> AssignmentModel {
    AssignmentModel { id: None, ..record }
}

/// Which fresh identifiers are at hand changes the identities of the pieces
/// of a cut hunk and nothing else.
pub proof fn lemma_pieces_up_to_ids(
    base: AssignmentModel,
    header: HunkHeader,
    lines: Seq<Seq<u8>>,
    ids: Seq<u128>,
    other_ids: Seq<u128>,
)
    ensures
        line_pieces(base, header, lines, ids).len() == line_pieces(
            base,
            header,
            lines,
            other_ids,
        ).len(),
        forall|k: int|
            0 <= k < line_pieces(base, header, lines, ids).len() ==> without_id(
                #[trigger] line_pieces(base, header, lines, ids)[k],
            ) == without_id(line_pieces(base, header, lines, other_ids)[k]),
    decreases lines.len(),
{
    if lines.len() > 0 {
        lemma_pieces_up_to_ids(base, header, lines.drop_last(), ids, other_ids);
    }
}

/// Which records intersect a record does not depend on its identity.
pub proof fn lemma_overlaps_ignore_id(
    old: Seq<AssignmentModel>,
    a: AssignmentModel,
    b: AssignmentModel,
)
    requires
        without_id(a) == without_id(b),
    ensures
        overlaps(old, a) == overlaps(old, b),
    decreases old.len(),
{
    if old.len() > 0 {
        lemma_overlaps_ignore_id(old.drop_last(), a, b);
        assert(a.path == without_id(a).path);
        assert(a.hunk_header == without_id(a).hunk_header);
        assert(b.path == without_id(b).path);
        assert(b.hunk_header == without_id(b).hunk_header);
    }
}

/// Two receivers that differ in identity alone still differ in nothing else
/// after taking over from the same donors.
pub proof fn lemma_merge_all_up_to_id(
    a: AssignmentModel,
    b: AssignmentModel,
    donors: Seq<AssignmentModel>,
    applied: Seq<StackId>,
    update_unassigned: bool,
)
    requires
        without_id(a) == without_id(b),
    ensures
        without_id(merge_all(a, donors, applied, update_unassigned)) == without_id(
            merge_all(b, donors, applied, update_unassigned),
        ),
    decreases donors.len(),
{
    if donors.len() > 0 {
        lemma_merge_all_up_to_id(a, b, donors.drop_last(), applied, update_unassigned);
        let x = merge_all(a, donors.drop_last(), applied, update_unassigned);
        let y = merge_all(b, donors.drop_last(), applied, update_unassigned);
        assert(x.stack_id == without_id(x).stack_id);
        assert(y.stack_id == without_id(y).stack_id);
        assert(x.hunk_header == without_id(x).hunk_header);
        assert(y.hunk_header == without_id(y).hunk_header);
        assert(x.path_bytes == without_id(x).path_bytes);
        assert(y.path_bytes == without_id(y).path_bytes);
        assert(x.line_nums_added == without_id(x).line_nums_added);
        assert(y.line_nums_added == without_id(y).line_nums_added);
        assert(x.line_nums_removed == without_id(x).line_nums_removed);
        assert(y.line_nums_removed == without_id(y).line_nums_removed);
        assert(x.diff == without_id(x).diff);
        assert(y.diff == without_id(y).diff);
    }
}

/// What one new record becomes is the same for any two supplies of fresh
/// identifiers, but for the identities in it.
pub proof fn lemma_record_up_to_ids(
    record: AssignmentModel,
    lines: Seq<Seq<u8>>,
    ids: Seq<u128>,
    other_ids: Seq<u128>,
    old: Seq<AssignmentModel>,
    applied: Seq<StackId>,
    policy: MultipleOverlapping,
    update_unassigned: bool,
)
    ensures
        ({
            let one = reconciled_record(
                record,
                lines,
                ids,
                old,
                applied,
                policy,
                update_unassigned,
            );
            let two = reconciled_record(
                record,
                lines,
                other_ids,
                old,
                applied,
                policy,
                update_unassigned,
            );
            &&& one.len() == two.len()
            &&& forall|k: int|
                0 <= k < one.len() ==> without_id(#[trigger] one[k]) == without_id(two[k])
        }),
{
    let donors = overlaps(old, record);
    if split_path(record, donors) {
        let p = split_record(record, lines, ids);
        let q = split_record(record, lines, other_ids);
        match (record.hunk_header, record.diff) {
            (Some(header), Some(_)) => {
                lemma_pieces_up_to_ids(record, header, lines, ids, other_ids);
            },
            _ => {},
        }
        assert(p.len() == q.len());
        assert forall|k: int| 0 <= k < p.len() implies without_id(
            #[trigger] settled_pieces(p, donors, applied, update_unassigned)[k],
        ) == without_id(settled_pieces(q, donors, applied, update_unassigned)[k]) by {
            assert(without_id(p[k]) == without_id(q[k]));
            lemma_overlaps_ignore_id(donors, p[k], q[k]);
            lemma_merge_all_up_to_id(
                p[k],
                q[k],
                application_order(overlaps(donors, p[k])),
                applied,
                update_unassigned,
            );
            let x = merge_all(
                p[k],
                application_order(overlaps(donors, p[k])),
                applied,
                update_unassigned,
            );
            let y = merge_all(
                q[k],
                application_order(overlaps(donors, q[k])),
                applied,
                update_unassigned,
            );
            assert(x.stack_id == without_id(x).stack_id);
            assert(y.stack_id == without_id(y).stack_id);
            assert(without_id(clamped(x, applied)) == AssignmentModel {
                stack_id: clamp_stack(x.stack_id, applied),
                ..without_id(x)
            });
            assert(without_id(clamped(y, applied)) == AssignmentModel {
                stack_id: clamp_stack(y.stack_id, applied),
                ..without_id(y)
            });
        }
    }
}

/// Fitting the same records twice gives the same result, but for the
/// identities that are drawn afresh: the results have the same length and
/// agree record by record in everything but the identity.
pub proof fn lemma_reconciled_up_to_ids(
    new: Seq<AssignmentModel>,
    old: Seq<AssignmentModel>,
    applied: Seq<StackId>,
    policy: MultipleOverlapping,
    update_unassigned: bool,
    ids: Seq<Seq<u128>>,
    other_ids: Seq<Seq<u128>>,
)
    requires
        ids.len() == new.len(),
        other_ids.len() == new.len(),
    ensures
        ({
            let one = reconciled(new, old, applied, policy, update_unassigned, ids);
            let two = reconciled(new, old, applied, policy, update_unassigned, other_ids);
            &&& one.len() == two.len()
            &&& forall|k: int|
                0 <= k < one.len() ==> without_id(#[trigger] one[k]) == without_id(two[k])
        }),
    decreases new.len(),
{
    if new.len() > 0 {
        lemma_reconciled_up_to_ids(
            new.drop_last(),
            old,
            applied,
            policy,
            update_unassigned,
            ids.drop_last(),
            other_ids.drop_last(),
        );
        lemma_record_up_to_ids(
            new.last(),
            body_lines(new.last()),
            ids.last(),
            other_ids.last(),
            old,
            applied,
            policy,
            update_unassigned,
        );
    }
}

/// `broader_count` stops at the first donor that is not broader than `key`.
pub proof fn lemma_broader_count_is_boundary(order: Seq<AssignmentModel>, key: u32)
    ensures
        forall|k: int|
            0 <= k < broader_count(order, key) ==> donor_key(#[trigger] order[k]) > key,
        broader_count(order, key) < order.len() ==> donor_key(
            order[broader_count(order, key)],
        ) <= key,
    decreases order.len(),
{
    lemma_broader_count_bounds(order, key);
    if order.len() > 0 && donor_key(order[0]) > key {
        let rest = order.skip(1);
        lemma_broader_count_is_boundary(rest, key);
        lemma_broader_count_bounds(rest, key);
        assert forall|k: int| 0 <= k < broader_count(order, key) implies donor_key(
            #[trigger] order[k],
        ) > key by {
            if k > 0 {
                assert(order[k] == rest[k - 1]);
            }
        }
        if broader_count(order, key) < order.len() {
            assert(order[broader_count(order, key)] == rest[broader_count(rest, key)]);
        }
    }
}

/// A line takes over from its donors in the order of their breadth, the
/// broadest first: no donor is followed by a broader one.
pub proof fn lemma_application_order_sorted(donors: Seq<AssignmentModel>)
    ensures
        forall|i: int, j: int|
            0 <= i <= j < application_order(donors).len() ==> donor_key(
                #[trigger] application_order(donors)[i],
            ) >= donor_key(#[trigger] application_order(donors)[j]),
    decreases donors.len(),
{
    if donors.len() > 0 {
        let order = application_order(donors.drop_last());
        let donor = donors.last();
        let key = donor_key(donor);
        let at = broader_count(order, key);
        let next = application_order(donors);
        lemma_application_order_sorted(donors.drop_last());
        lemma_broader_count_bounds(order, key);
        lemma_broader_count_is_boundary(order, key);
        assert(next == order.insert(at, donor));
        assert forall|i: int, j: int| 0 <= i <= j < next.len() implies donor_key(
            #[trigger] next[i],
        ) >= donor_key(#[trigger] next[j]) by {
            let a = if i < at {
                order[i]
            } else if i == at {
                donor
            } else {
                order[i - 1]
            };
            let b = if j < at {
                order[j]
            } else if j == at {
                donor
            } else {
                order[j - 1]
            };
            assert(next[i] == a);
            assert(next[j] == b);
            if j > at && i <= at {
                assert(donor_key(order[at]) >= donor_key(order[j - 1]));
            }
        }
    }
}

/// A line takes over from each of its donors exactly once.
pub proof fn lemma_application_order_permutes(donors: Seq<AssignmentModel>)
    ensures
        application_order(donors).to_multiset() == donors.to_multiset(),
    decreases donors.len(),
{
    if donors.len() == 0 {
        assert(application_order(donors) =~= donors);
    } else {
        let order = application_order(donors.drop_last());
        let donor = donors.last();
        let at = broader_count(order, donor_key(donor));
        lemma_application_order_permutes(donors.drop_last());
        lemma_broader_count_bounds(order, donor_key(donor));
        vstd::seq_lib::to_multiset_insert(order, at, donor);
        vstd::seq_lib::to_multiset_build(donors.drop_last(), donor);
        assert(donors.drop_last().push(donor) =~= donors);
    }
}

/// A line of a cut hunk that has a single donor takes over from it if the
/// two intersect, and is otherwise only held against the workspace.
pub proof fn lemma_piece_with_single_donor(
    piece: AssignmentModel,
    donor: AssignmentModel,
    applied: Seq<StackId>,
    update_unassigned: bool,
)
    ensures
        settled_piece(piece, seq![donor], applied, update_unassigned) == if records_intersect(
            donor,
            piece,
        ) {
            merged(piece, donor, applied, update_unassigned)
        } else {
            clamped(piece, applied)
        },
{
    let donors = seq![donor];
    let none = Seq::<AssignmentModel>::empty();
    assert(donors.drop_last() =~= none);
    assert(donors.last() == donor);
    assert(overlaps(none, piece) =~= none);
    assert(application_order(none) =~= none);
    assert(broader_count(none, donor_key(donor)) == 0);
    let mine = overlaps(donors, piece);
    if records_intersect(donor, piece) {
        assert(mine =~= seq![donor]);
        let order = application_order(mine);
        assert(mine.drop_last() =~= none);
        assert(order =~= seq![donor]);
        assert(order.drop_last() =~= none);
        assert(merge_all(piece, none, applied, update_unassigned) == piece);
        assert(merge_all(piece, order, applied, update_unassigned) == merged(
            piece,
            donor,
            applied,
            update_unassigned,
        ));
    } else {
        assert(mine =~= none);
    }
}

/// The piece of an added line stands, among the pieces, after those of the
/// added and removed lines before it, at the new-side line that the lines
/// before it lead to; the piece of a removed line likewise, on the old side.
pub proof fn lemma_piece_of_line(
    base: AssignmentModel,
    header: HunkHeader,
    lines: Seq<Seq<u8>>,
    ids: Seq<u128>,
    i: int,
)
    requires
        0 <= i < lines.len(),
        line_kind(lines[i]) is Added || line_kind(lines[i]) is Removed,
    ensures
        ({
            let pieces = line_pieces(base, header, lines, ids);
            let before = lines.take(i);
            let at = changed_lines(before) as int;
            &&& 0 <= at < pieces.len()
            &&& line_kind(lines[i]) is Added ==> pieces[at] == added_piece(
                base,
                line_position(header.new_start, new_advance(before)),
                piece_id(base.id, ids, at as nat),
            )
            &&& line_kind(lines[i]) is Removed ==> pieces[at] == removed_piece(
                base,
                line_position(header.old_start, old_advance(before)),
                piece_id(base.id, ids, at as nat),
            )
        }),
    decreases lines.len(),
{
    let shorter = lines.drop_last();
    lemma_pieces_len(base, header, shorter, ids);
    lemma_pieces_len(base, header, lines, ids);
    if i == lines.len() - 1 {
        assert(lines.take(i) =~= shorter);
    } else {
        assert(shorter.take(i) =~= lines.take(i));
        assert(shorter[i] == lines[i]);
        lemma_piece_of_line(base, header, shorter, ids, i);
    }
}

/// Where one of the donors has an identity, the receiver ends with the
/// identity of the last such donor, whatever its own was: an identity that
/// an earlier record held is never replaced by a fresh one.
pub proof fn lemma_identity_from_donor(
    a: AssignmentModel,
    b: AssignmentModel,
    donors: Seq<AssignmentModel>,
    applied: Seq<StackId>,
    update_unassigned: bool,
    at: int,
)
    requires
        0 <= at < donors.len(),
        donors[at].id is Some,
    ensures
        merge_all(a, donors, applied, update_unassigned).id is Some,
        merge_all(a, donors, applied, update_unassigned).id == merge_all(
            b,
            donors,
            applied,
            update_unassigned,
        ).id,
        (forall|k: int| at < k < donors.len() ==> (#[trigger] donors[k]).id is None) ==> merge_all(
            a,
            donors,
            applied,
            update_unassigned,
        ).id == donors[at].id,
    decreases donors.len(),
{
    if at < donors.len() - 1 {
        let shorter = donors.drop_last();
        lemma_identity_from_donor(a, b, shorter, applied, update_unassigned, at);
        if forall|k: int| at < k < donors.len() ==> (#[trigger] donors[k]).id is None {
            assert(donors[donors.len() - 1].id is None);
            assert forall|k: int| at < k < shorter.len() implies (
            #[trigger] shorter[k]).id is None by {
                assert(shorter[k] == donors[k]);
            }
        }
    }
}

/// A new record is never dropped: it gives one record, or one for each
/// added and removed line of its body where it is cut.
pub proof fn lemma_record_count(
    record: AssignmentModel,
    lines: Seq<Seq<u8>>,
    ids: Seq<u128>,
    old: Seq<AssignmentModel>,
    applied: Seq<StackId>,
    policy: MultipleOverlapping,
    update_unassigned: bool,
)
    ensures
        reconciled_record(record, lines, ids, old, applied, policy, update_unassigned).len() == if split_path(
            record,
            overlaps(old, record),
        ) && record.hunk_header is Some && changed_lines(lines) > 0 {
            changed_lines(lines)
        } else {
            1
        },
{
    if record.hunk_header is Some {
        lemma_pieces_len(record, record.hunk_header->0, lines, ids);
    }
}

/// The result holds at least one record for each new record.
pub proof fn lemma_nothing_is_dropped(
    new: Seq<AssignmentModel>,
    old: Seq<AssignmentModel>,
    applied: Seq<StackId>,
    policy: MultipleOverlapping,
    update_unassigned: bool,
    ids: Seq<Seq<u128>>,
)
    requires
        ids.len() == new.len(),
    ensures
        reconciled(new, old, applied, policy, update_unassigned, ids).len() >= new.len(),
    decreases new.len(),
{
    if new.len() > 0 {
        lemma_nothing_is_dropped(
            new.drop_last(),
            old,
            applied,
            policy,
            update_unassigned,
            ids.drop_last(),
        );
        lemma_record_count(
            new.last(),
            body_lines(new.last()),
            ids.last(),
            old,
            applied,
            policy,
            update_unassigned,
        );
    }
}

} // verus!

//! Finding the earlier records that bear on a new one, and ranking them.

use vstd::prelude::*;
use crate::model::{AssignmentModel, HunkAssignment, is_selector_hunk, models, records_intersect, specificity};

verus! {

/// The models of a list of borrowed records, in order.
pub open spec fn ref_models(records: Seq<&HunkAssignment>) -> Seq<AssignmentModel> {
    Seq::new(records.len(), |i: int| records[i]@)
}

/// The records among `old` that intersect `record`, in the order of `old`.
pub open spec fn overlaps(old: Seq<AssignmentModel>, record: AssignmentModel) -> Seq<
    AssignmentModel,
>
    decreases old.len(),
{
    if old.len() == 0 {
        Seq::empty()
    } else {
        let before = overlaps(old.drop_last(), record);
        if records_intersect(old.last(), record) {
            before.push(old.last())
        } else {
            before
        }
    }
}

/// One of the records tracks lines of one side only.
pub open spec fn has_selector(records: Seq<AssignmentModel>) -> bool {
    exists|k: int|
        0 <= k < records.len() && (#[trigger] records[k]).hunk_header is Some
            && records[k].hunk_header->0.is_selector()
}

/// The first of the records that names the file `path`.
pub open spec fn first_with_path(old: Seq<AssignmentModel>, path: Seq<char>) -> Option<
    AssignmentModel,
>
    decreases old.len(),
{
    if old.len() == 0 {
        None
    } else if old[0].path == path {
        Some(old[0])
    } else {
        first_with_path(old.skip(1), path)
    }
}

/// The rank by which the donors of a line are ordered: the breadth of the
/// header, and the greatest rank for a record of the whole file.
pub open spec fn donor_key(record: AssignmentModel) -> u32 {
    match record.hunk_header {
        Some(header) => header.specificity(),
        None => u32::MAX,
    }
}

/// How many records at the front of `order` are broader than `key`.
pub open spec fn broader_count(order: Seq<AssignmentModel>, key: u32) -> int
    decreases order.len(),
{
    if order.len() == 0 || donor_key(order[0]) <= key {
        0
    } else {
        1 + broader_count(order.skip(1), key)
    }
}

/// The donors in the order in which a line takes over from them: the
/// broadest first and the narrowest last, so that the narrowest prevails.
/// Of two donors equally broad the one that comes later in `donors` goes
/// first.
pub open spec fn application_order(donors: Seq<AssignmentModel>) -> Seq<AssignmentModel>
    decreases donors.len(),
{
    if donors.len() == 0 {
        Seq::empty()
    } else {
        let order = application_order(donors.drop_last());
        let donor = donors.last();
        order.insert(broader_count(order, donor_key(donor)), donor)
    }
}

/// The rank by which the donor of a whole hunk is chosen: the length of the
/// new side, with a record of the whole file below every header.
pub open spec fn size_key(record: AssignmentModel) -> int {
    match record.hunk_header {
        Some(header) => header.new_lines as int,
        None => -1,
    }
}

/// The donor with the longest new side; of several, the last.
pub open spec fn biggest(donors: Seq<AssignmentModel>) -> AssignmentModel
    recommends
        donors.len() > 0,
    decreases donors.len(),
{
    if donors.len() <= 1 {
        donors[0]
    } else {
        let best = biggest(donors.drop_last());
        if size_key(donors.last()) >= size_key(best) {
            donors.last()
        } else {
            best
        }
    }
}

/// The owners that the records name, in order, each as its number.
pub open spec fn owners(records: Seq<AssignmentModel>) -> Seq<u128>
    decreases records.len(),
{
    if records.len() == 0 {
        Seq::empty()
    } else {
        let before = owners(records.drop_last());
        match records.last().stack_id {
            Some(stack) => before.push(stack.0),
            None => before,
        }
    }
}

/// `broader_count` never leaves the list.
pub proof fn lemma_broader_count_bounds(order: Seq<AssignmentModel>, key: u32)
    ensures
        0 <= broader_count(order, key) <= order.len(),
    decreases order.len(),
{
    if order.len() > 0 && donor_key(order[0]) > key {
        lemma_broader_count_bounds(order.skip(1), key);
    }
}

/// Borrows every record of a list.
pub fn borrow_all<'a>(records: &'a [HunkAssignment]) -> (out: Vec<&'a HunkAssignment>)
    ensures
        ref_models(out@) == models(records@),
{
    let mut out: Vec<&'a HunkAssignment> = Vec::new();
    let mut i: usize = 0;
    while i < records.len()
        invariant
            i <= records.len(),
            ref_models(out@) == models(records@).take(i as int),
        decreases records.len() - i,
    {
        let ghost before = ref_models(out@);
        out.push(&records[i]);
        proof {
            assert(ref_models(out@) =~= before.push(records@[i as int]@));
            assert(models(records@).take(i + 1) =~= models(records@).take(i as int).push(
                records@[i as int]@,
            ));
        }
        i += 1;
    }
    proof {
        assert(models(records@).take(records.len() as int) =~= models(records@));
    }
    out
}

/// The records among `old` that intersect `record`, in the order of `old`.
pub fn overlapping<'a>(old: &Vec<&'a HunkAssignment>, record: &HunkAssignment) -> (out: Vec<
    &'a HunkAssignment,
>)
    ensures
        ref_models(out@) == overlaps(ref_models(old@), record@),
{
    let ghost all = ref_models(old@);
    let mut out: Vec<&'a HunkAssignment> = Vec::new();
    let mut i: usize = 0;
    while i < old.len()
        invariant
            i <= old.len(),
            all == ref_models(old@),
            ref_models(out@) == overlaps(all.take(i as int), record@),
        decreases old.len() - i,
    {
        proof {
            assert(all.take(i + 1).drop_last() =~= all.take(i as int));
            assert(all.take(i + 1).last() == old@[i as int]@);
        }
        let candidate: &'a HunkAssignment = old[i];
        if candidate.intersects(record) {
            let ghost before = ref_models(out@);
            out.push(candidate);
            proof {
                assert(ref_models(out@) =~= before.push(candidate@));
            }
        }
        i += 1;
    }
    proof {
        assert(all.take(old.len() as int) =~= all);
    }
    out
}

/// Whether one of the records tracks lines of one side only.
pub fn any_selector(records: &Vec<&HunkAssignment>) -> (found: bool)
    ensures
        found == has_selector(ref_models(records@)),
{
    let ghost all = ref_models(records@);
    let mut i: usize = 0;
    while i < records.len()
        invariant
            i <= records.len(),
            all == ref_models(records@),
            forall|k: int|
                0 <= k < i ==> !((#[trigger] all[k]).hunk_header is Some
                    && all[k].hunk_header->0.is_selector()),
        decreases records.len() - i,
    {
        let record: &HunkAssignment = records[i];
        proof {
            assert(all[i as int] == record@);
        }
        match record.hunk_header {
            Some(header) => {
                if is_selector_hunk(header) {
                    return true;
                }
            },
            None => {},
        }
        i += 1;
    }
    false
}

/// The first of the records that names the file `path`.
pub fn find_with_path<'a>(old: &'a [HunkAssignment], path: &String) -> (found: Option<
    &'a HunkAssignment,
>)
    ensures
        match found {
            Some(record) => first_with_path(models(old@), path@) == Some(record@),
            None => first_with_path(models(old@), path@) is None,
        },
{
    let ghost all = models(old@);
    let mut i: usize = 0;
    proof {
        assert(all.skip(0) =~= all);
    }
    while i < old.len()
        invariant
            i <= old.len(),
            all == models(old@),
            first_with_path(all, path@) == first_with_path(all.skip(i as int), path@),
        decreases old.len() - i,
    {
        proof {
            assert(all.skip(i as int)[0] == old@[i as int]@);
            assert(all.skip(i as int).skip(1) =~= all.skip(i + 1));
        }
        if old[i].path == *path {
            return Some(&old[i]);
        }
        i += 1;
    }
    None
}

/// The rank of a donor of a line.
pub fn rank_of(record: &HunkAssignment) -> (key: u32)
    ensures
        key == donor_key(record@),
{
    match record.hunk_header {
        Some(header) => specificity(header),
        None => u32::MAX,
    }
}

/// The donors in the order in which a line takes over from them.
pub fn order_for_merge<'a>(donors: &Vec<&'a HunkAssignment>) -> (order: Vec<&'a HunkAssignment>)
    ensures
        ref_models(order@) == application_order(ref_models(donors@)),
{
    let ghost all = ref_models(donors@);
    let mut order: Vec<&'a HunkAssignment> = Vec::new();
    let mut i: usize = 0;
    proof {
        assert(ref_models(order@) =~= application_order(all.take(0)));
    }
    while i < donors.len()
        invariant
            i <= donors.len(),
            all == ref_models(donors@),
            ref_models(order@) == application_order(all.take(i as int)),
        decreases donors.len() - i,
    {
        let donor: &'a HunkAssignment = donors[i];
        let key = rank_of(donor);
        let ghost ranked = ref_models(order@);
        proof {
            assert(all.take(i + 1).drop_last() =~= all.take(i as int));
            assert(all.take(i + 1).last() == donor@);
        }
        let mut at: usize = 0;
        proof {
            assert(ranked.skip(0) =~= ranked);
        }
        while at < order.len() && rank_of(order[at]) > key
            invariant
                at <= order.len(),
                ranked == ref_models(order@),
                broader_count(ranked, key) == at + broader_count(ranked.skip(at as int), key),
            decreases order.len() - at,
        {
            proof {
                assert(ranked.skip(at as int)[0] == order@[at as int]@);
                assert(ranked.skip(at as int).skip(1) =~= ranked.skip(at + 1));
            }
            at += 1;
        }
        proof {
            if at < order.len() {
                assert(ranked.skip(at as int)[0] == order@[at as int]@);
            }
            assert(broader_count(ranked, key) == at);
        }
        order.insert(at, donor);
        proof {
            assert(ref_models(order@) =~= ranked.insert(at as int, donor@));
        }
        i += 1;
    }
    proof {
        assert(all.take(donors.len() as int) =~= all);
    }
    order
}

} // verus!

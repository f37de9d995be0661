//! The one way in which a record takes over what an earlier record held.

use vstd::prelude::*;
use crate::model::{AssignmentModel, HunkAssignment, StackId, copy_opt_vec, copy_vec};

verus! {

/// Ownership may only name a stack of the workspace: an owner outside
/// `applied` is dropped.
pub open spec fn clamp_stack(stack: Option<StackId>, applied: Seq<StackId>) -> Option<StackId> {
    match stack {
        Some(s) => if applied.contains(s) {
            Some(s)
        } else {
            None
        },
        None => None,
    }
}

/// The owner of a receiver after a merge, before it is held against the
/// workspace: an owned receiver always takes the donor's owner, an unowned
/// one only when `update_unassigned` allows it.
pub open spec fn adopted_stack(
    receiver: Option<StackId>,
    donor: Option<StackId>,
    update_unassigned: bool,
) -> Option<StackId> {
    if receiver is Some || update_unassigned {
        donor
    } else {
        receiver
    }
}

/// The donor's value where it has one, else the receiver's.
pub open spec fn prefer<T>(donor: Option<T>, receiver: Option<T>) -> Option<T> {
    if donor is Some {
        donor
    } else {
        receiver
    }
}

/// The receiver after it has taken over from the donor.
///
/// Locks and path are the donor's. Identity and claimed lines are the
/// donor's where the donor has them. The owner follows [`adopted_stack`] and
/// is then held against `applied`. Header, raw path and diff body stay.
pub open spec fn merged(
    receiver: AssignmentModel,
    donor: AssignmentModel,
    applied: Seq<StackId>,
    update_unassigned: bool,
) -> AssignmentModel {
    AssignmentModel {
        id: prefer(donor.id, receiver.id),
        hunk_header: receiver.hunk_header,
        path: donor.path,
        path_bytes: receiver.path_bytes,
        stack_id: clamp_stack(
            adopted_stack(receiver.stack_id, donor.stack_id, update_unassigned),
            applied,
        ),
        hunk_locks: donor.hunk_locks,
        line_nums_added: prefer(donor.line_nums_added, receiver.line_nums_added),
        line_nums_removed: prefer(donor.line_nums_removed, receiver.line_nums_removed),
        diff: receiver.diff,
    }
}

/// Whether `id` names a stack of the workspace.
pub fn stack_is_applied(applied: &[StackId], id: StackId) -> (found: bool)
    ensures
        found == applied@.contains(id),
{
    let mut i: usize = 0;
    while i < applied.len()
        invariant
            i <= applied.len(),
            forall|k: int| 0 <= k < i ==> applied@[k] != id,
        decreases applied.len() - i,
    {
        if applied[i] == id {
            return true;
        }
        i += 1;
    }
    false
}

/// The owner that survives among the stacks of the workspace.
pub fn clamp_to_applied(stack: Option<StackId>, applied: &[StackId]) -> (out: Option<StackId>)
    ensures
        out == clamp_stack(stack, applied@),
{
    match stack {
        Some(s) => if stack_is_applied(applied, s) {
            Some(s)
        } else {
            None
        },
        None => None,
    }
}

impl HunkAssignment {
    /// Takes over from `other`, as [`merged`] says.
    pub fn set_from(
        &mut self,
        other: &HunkAssignment,
        applied_stack_ids: &[StackId],
        update_unassigned: bool,
    )
        ensures
            final(self)@ == merged(old(self)@, other@, applied_stack_ids@, update_unassigned),
    {
        self.hunk_locks = copy_vec(&other.hunk_locks);
        self.path = other.path.clone();
        if other.id.is_some() {
            self.id = other.id;
        }
        if other.line_nums_added.is_some() {
            self.line_nums_added = copy_opt_vec(&other.line_nums_added);
        }
        if other.line_nums_removed.is_some() {
            self.line_nums_removed = copy_opt_vec(&other.line_nums_removed);
        }
        if self.stack_id.is_some() || update_unassigned {
            self.stack_id = other.stack_id;
        }
        self.stack_id = clamp_to_applied(self.stack_id, applied_stack_ids);
    }
}

} // verus!

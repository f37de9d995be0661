//! The records that ownership is tracked in, and their mathematical models.

use vstd::prelude::*;

verus! {

/// Identifies a stack: an independent line of in-progress work that can own
/// uncommitted changes.
#[derive(Clone, Copy, Debug, PartialEq, Eq, Structural, Hash)]
pub struct StackId(pub u128);

/// The old-side and new-side line ranges of a hunk, in one-based lines.
/// A side whose length is zero is absent.
#[derive(Clone, Copy, Debug, PartialEq, Eq, Structural, Hash)]
pub struct HunkHeader {
    pub old_start: u32,
    pub old_lines: u32,
    pub new_start: u32,
    pub new_lines: u32,
}

/// A dependency of some lines on a commit of a stack. Locks are handed on
/// from record to record and never looked into.
#[derive(Clone, Copy, Debug, PartialEq, Eq, Hash)]
pub struct HunkLock {
    pub target: StackId,
    pub commit_id: [u8; 20],
}

/// One unit of ownership: a hunk, a single line, or a whole file, and the
/// stack that claims it.
#[derive(Clone, Debug, PartialEq, Eq)]
pub struct HunkAssignment {
    /// Stable identity of the record across recomputations of the diff.
    pub id: Option<u128>,
    /// The lines covered; `None` stands for the whole file.
    pub hunk_header: Option<HunkHeader>,
    /// The file, as text.
    pub path: String,
    /// The file, as the raw bytes of its path.
    pub path_bytes: Vec<u8>,
    /// The owner, if any.
    pub stack_id: Option<StackId>,
    /// Dependencies carried along with the record.
    pub hunk_locks: Vec<HunkLock>,
    /// New-side lines that this record claims.
    pub line_nums_added: Option<Vec<usize>>,
    /// Old-side lines that this record claims.
    pub line_nums_removed: Option<Vec<usize>>,
    /// The body of the hunk in unified-diff form, on freshly computed records.
    pub diff: Option<Vec<u8>>,
}

/// What a [`HunkAssignment`] is, with every buffer taken as a sequence.
pub ghost struct AssignmentModel {
    pub id: Option<u128>,
    pub hunk_header: Option<HunkHeader>,
    pub path: Seq<char>,
    pub path_bytes: Seq<u8>,
    pub stack_id: Option<StackId>,
    pub hunk_locks: Seq<HunkLock>,
    pub line_nums_added: Option<Seq<usize>>,
    pub line_nums_removed: Option<Seq<usize>>,
    pub diff: Option<Seq<u8>>,
}

/// The contents of an optional buffer.
pub open spec fn opt_view<T>(v: Option<Vec<T>>) -> Option<Seq<T>> {
    match v {
        Some(items) => Some(items@),
        None => None,
    }
}

impl View for HunkAssignment {
    type V = AssignmentModel;

    open spec fn view(&self) -> AssignmentModel {
        AssignmentModel {
            id: self.id,
            hunk_header: self.hunk_header,
            path: self.path@,
            path_bytes: self.path_bytes@,
            stack_id: self.stack_id,
            hunk_locks: self.hunk_locks@,
            line_nums_added: opt_view(self.line_nums_added),
            line_nums_removed: opt_view(self.line_nums_removed),
            diff: opt_view(self.diff),
        }
    }
}

/// The models of a list of records, in order.
pub open spec fn models(records: Seq<HunkAssignment>) -> Seq<AssignmentModel> {
    Seq::new(records.len(), |i: int| records[i]@)
}

impl HunkHeader {
    /// The old side is absent: nothing was there before.
    pub open spec fn old_is_null(self) -> bool {
        self.old_lines == 0
    }

    /// The new side is absent: nothing is there now.
    pub open spec fn new_is_null(self) -> bool {
        self.new_lines == 0
    }

    /// Exactly one side is absent, so the header stands for lines of one
    /// side only.
    pub open spec fn is_selector(self) -> bool {
        self.old_is_null() != self.new_is_null()
    }

    /// How many lines the header spans: the present side's length, or the
    /// longer of the two.
    pub open spec fn specificity(self) -> u32 {
        if self.old_is_null() {
            self.new_lines
        } else if self.new_is_null() {
            self.old_lines
        } else if self.old_lines >= self.new_lines {
            self.old_lines
        } else {
            self.new_lines
        }
    }
}

/// Two present line ranges share at least one line.
pub open spec fn ranges_overlap(a_start: u32, a_lines: u32, b_start: u32, b_lines: u32) -> bool {
    &&& a_lines > 0
    &&& b_lines > 0
    &&& a_start < b_start + b_lines
    &&& b_start < a_start + a_lines
}

/// Two headers cover a common line. They are compared on the new side where
/// both have one, else on the old side where both have one; headers with no
/// side in common never overlap.
pub open spec fn headers_overlap(a: HunkHeader, b: HunkHeader) -> bool {
    if !a.new_is_null() && !b.new_is_null() {
        ranges_overlap(a.new_start, a.new_lines, b.new_start, b.new_lines)
    } else if !a.old_is_null() && !b.old_is_null() {
        ranges_overlap(a.old_start, a.old_lines, b.old_start, b.old_lines)
    } else {
        false
    }
}

/// An old record applies to a new one: same file, and either one of them
/// covers the whole file or their headers overlap.
pub open spec fn records_intersect(a: AssignmentModel, b: AssignmentModel) -> bool {
    &&& a.path == b.path
    &&& match (a.hunk_header, b.hunk_header) {
        (Some(x), Some(y)) => headers_overlap(x, y),
        _ => true,
    }
}

/// Whether a header stands for lines of one side only.
pub fn is_selector_hunk(header: HunkHeader) -> (b: bool)
    ensures
        b == header.is_selector(),
{
    (header.old_lines == 0) != (header.new_lines == 0)
}

/// How broad a header is; used to order the donors of a line.
pub fn specificity(header: HunkHeader) -> (n: u32)
    ensures
        n == header.specificity(),
{
    if header.old_lines == 0 {
        header.new_lines
    } else if header.new_lines == 0 {
        header.old_lines
    } else if header.old_lines >= header.new_lines {
        header.old_lines
    } else {
        header.new_lines
    }
}

fn ranges_meet(a_start: u32, a_lines: u32, b_start: u32, b_lines: u32) -> (b: bool)
    ensures
        b == ranges_overlap(a_start, a_lines, b_start, b_lines),
{
    a_lines > 0 && b_lines > 0 && (a_start as u64) < b_start as u64 + b_lines as u64 && (
    b_start as u64) < a_start as u64 + a_lines as u64
}

/// Whether two headers cover a common line.
pub fn headers_meet(a: HunkHeader, b: HunkHeader) -> (r: bool)
    ensures
        r == headers_overlap(a, b),
{
    if a.new_lines != 0 && b.new_lines != 0 {
        ranges_meet(a.new_start, a.new_lines, b.new_start, b.new_lines)
    } else if a.old_lines != 0 && b.old_lines != 0 {
        ranges_meet(a.old_start, a.old_lines, b.old_start, b.old_lines)
    } else {
        false
    }
}

/// A copy of a buffer of plain values.
pub fn copy_vec<T: Copy>(items: &Vec<T>) -> (out: Vec<T>)
    ensures
        out@ == items@,
{
    let mut out: Vec<T> = Vec::new();
    let mut i: usize = 0;
    while i < items.len()
        invariant
            i <= items.len(),
            out@ == items@.take(i as int),
        decreases items.len() - i,
    {
        out.push(items[i]);
        proof {
            assert(items@.take(i + 1) =~= items@.take(i as int).push(items@[i as int]));
        }
        i += 1;
    }
    proof {
        assert(items@.take(items.len() as int) =~= items@);
    }
    out
}

/// A copy of an optional buffer of plain values.
pub fn copy_opt_vec<T: Copy>(items: &Option<Vec<T>>) -> (out: Option<Vec<T>>)
    ensures
        opt_view(out) == opt_view(*items),
{
    match items {
        Some(v) => Some(copy_vec(v)),
        None => None,
    }
}

impl HunkAssignment {
    /// A copy of the record, equal to it in every field.
    pub fn duplicate(&self) -> (out: HunkAssignment)
        ensures
            out@ == self@,
    {
        HunkAssignment {
            id: self.id,
            hunk_header: self.hunk_header,
            path: self.path.clone(),
            path_bytes: copy_vec(&self.path_bytes),
            stack_id: self.stack_id,
            hunk_locks: copy_vec(&self.hunk_locks),
            line_nums_added: copy_opt_vec(&self.line_nums_added),
            line_nums_removed: copy_opt_vec(&self.line_nums_removed),
            diff: copy_opt_vec(&self.diff),
        }
    }

    /// Whether the two records name the same file and cover a common line;
    /// a record without a header covers the whole file.
    pub fn intersects(&self, other: &HunkAssignment) -> (b: bool)
        ensures
            b == records_intersect(self@, other@),
    {
        if self.path != other.path {
            return false;
        }
        match (self.hunk_header, other.hunk_header) {
            (Some(x), Some(y)) => headers_meet(x, y),
            _ => true,
        }
    }
}

} // verus!

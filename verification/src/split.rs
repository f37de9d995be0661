//! Cutting a hunk into records of one line each.

use vstd::prelude::*;
use crate::foreign::{diff_lines, fresh_id, line_views, lines_of};
use crate::laws::lemma_split_identities;
use crate::model::{AssignmentModel, HunkAssignment, HunkHeader, copy_vec, models};

verus! {

/// What a line of a hunk body does, going by its first byte.
#[derive(Clone, Copy, Debug, PartialEq, Eq, Structural)]
pub enum LineKind {
    /// `+`: a line of the new side only.
    Added,
    /// `-`: a line of the old side only.
    Removed,
    /// A line of both sides: a space, any other byte without a meaning of
    /// its own, or no byte at all.
    Context,
    /// `@` or `\`: a header or a remark on the last line, no line of
    /// either side.
    Skipped,
}

/// The kind of a line of a hunk body.
pub open spec fn line_kind(line: Seq<u8>) -> LineKind {
    if line.len() == 0 {
        LineKind::Context
    } else if line[0] == 0x2b {
        LineKind::Added
    } else if line[0] == 0x2d {
        LineKind::Removed
    } else if line[0] == 0x40 || line[0] == 0x5c {
        LineKind::Skipped
    } else {
        LineKind::Context
    }
}

/// How many of the lines belong to the old side.
pub open spec fn old_advance(lines: Seq<Seq<u8>>) -> nat
    decreases lines.len(),
{
    if lines.len() == 0 {
        0
    } else {
        old_advance(lines.drop_last()) + match line_kind(lines.last()) {
            LineKind::Removed | LineKind::Context => 1nat,
            _ => 0nat,
        }
    }
}

/// How many of the lines belong to the new side.
pub open spec fn new_advance(lines: Seq<Seq<u8>>) -> nat
    decreases lines.len(),
{
    if lines.len() == 0 {
        0
    } else {
        new_advance(lines.drop_last()) + match line_kind(lines.last()) {
            LineKind::Added | LineKind::Context => 1nat,
            _ => 0nat,
        }
    }
}

/// How many of the lines are added or removed ones.
pub open spec fn changed_lines(lines: Seq<Seq<u8>>) -> nat
    decreases lines.len(),
{
    if lines.len() == 0 {
        0
    } else {
        changed_lines(lines.drop_last()) + match line_kind(lines.last()) {
            LineKind::Added | LineKind::Removed => 1nat,
            _ => 0nat,
        }
    }
}

/// The line number reached from `start` after `advance` lines. Line numbers
/// have the 32 bits of a header field and wrap round beyond them.
pub open spec fn line_position(start: u32, advance: nat) -> u32 {
    ((start as nat + advance) % 0x1_0000_0000) as u32
}

/// The identity of the `k`-th piece of a record. The first piece keeps the
/// record's identity if it has one; the others take the fresh identifiers in
/// turn, as far as they reach.
pub open spec fn piece_id(base_id: Option<u128>, ids: Seq<u128>, k: nat) -> Option<u128> {
    let taken: int = if base_id is Some {
        k - 1
    } else {
        k as int
    };
    if taken < 0 {
        base_id
    } else if taken < ids.len() {
        Some(ids[taken])
    } else {
        None
    }
}

/// How many fresh identifiers the pieces of a record take up.
pub open spec fn ids_needed(base_id: Option<u128>, pieces: nat) -> nat {
    if base_id is Some && pieces > 0 {
        (pieces - 1) as nat
    } else {
        pieces
    }
}

/// The record of one added line at new-side line `position`.
pub open spec fn added_piece(base: AssignmentModel, position: u32, id: Option<u128>)
    -> AssignmentModel {
    AssignmentModel {
        id,
        hunk_header: Some(
            HunkHeader { old_start: 0, old_lines: 0, new_start: position, new_lines: 1 },
        ),
        path: base.path,
        path_bytes: base.path_bytes,
        stack_id: base.stack_id,
        hunk_locks: base.hunk_locks,
        line_nums_added: Some(seq![position as usize]),
        line_nums_removed: Some(Seq::empty()),
        diff: None,
    }
}

/// The record of one removed line at old-side line `position`.
pub open spec fn removed_piece(base: AssignmentModel, position: u32, id: Option<u128>)
    -> AssignmentModel {
    AssignmentModel {
        id,
        hunk_header: Some(
            HunkHeader { old_start: position, old_lines: 1, new_start: 0, new_lines: 0 },
        ),
        path: base.path,
        path_bytes: base.path_bytes,
        stack_id: base.stack_id,
        hunk_locks: base.hunk_locks,
        line_nums_added: Some(Seq::empty()),
        line_nums_removed: Some(seq![position as usize]),
        diff: None,
    }
}

/// One record for each added or removed line of a hunk body, in the order of
/// the lines. Each stands at the line number that the lines before it lead
/// to, counted from the header's start on its side.
pub open spec fn line_pieces(
    base: AssignmentModel,
    header: HunkHeader,
    lines: Seq<Seq<u8>>,
    ids: Seq<u128>,
) -> Seq<AssignmentModel>
    decreases lines.len(),
{
    if lines.len() == 0 {
        Seq::empty()
    } else {
        let before = lines.drop_last();
        let pieces = line_pieces(base, header, before, ids);
        match line_kind(lines.last()) {
            LineKind::Added => pieces.push(
                added_piece(
                    base,
                    line_position(header.new_start, new_advance(before)),
                    piece_id(base.id, ids, pieces.len()),
                ),
            ),
            LineKind::Removed => pieces.push(
                removed_piece(
                    base,
                    line_position(header.old_start, old_advance(before)),
                    piece_id(base.id, ids, pieces.len()),
                ),
            ),
            _ => pieces,
        }
    }
}

/// A record cut into its lines. A record without a header or without a body
/// stays whole, and so does one whose body adds and removes nothing.
pub open spec fn split_record(base: AssignmentModel, lines: Seq<Seq<u8>>, ids: Seq<u128>) -> Seq<
    AssignmentModel,
> {
    match (base.hunk_header, base.diff) {
        (Some(header), Some(_)) => {
            let pieces = line_pieces(base, header, lines, ids);
            if pieces.len() == 0 {
                seq![base]
            } else {
                pieces
            }
        },
        _ => seq![base],
    }
}

/// The lines of a record's body, if it has one.
pub open spec fn body_lines(base: AssignmentModel) -> Seq<Seq<u8>> {
    match base.diff {
        Some(diff) => lines_of(diff),
        None => Seq::empty(),
    }
}

/// There are as many pieces as added and removed lines.
pub proof fn lemma_pieces_len(
    base: AssignmentModel,
    header: HunkHeader,
    lines: Seq<Seq<u8>>,
    ids: Seq<u128>,
)
    ensures
        line_pieces(base, header, lines, ids).len() == changed_lines(lines),
    decreases lines.len(),
{
    if lines.len() > 0 {
        lemma_pieces_len(base, header, lines.drop_last(), ids);
    }
}

/// The kind of a line of a hunk body.
pub fn classify_line(line: &Vec<u8>) -> (kind: LineKind)
    ensures
        kind == line_kind(line@),
{
    if line.len() == 0 {
        LineKind::Context
    } else {
        let first: u8 = line[0];
        if first == 0x2b {
            LineKind::Added
        } else if first == 0x2d {
            LineKind::Removed
        } else if first == 0x40 || first == 0x5c {
            LineKind::Skipped
        } else {
            LineKind::Context
        }
    }
}

/// The next line number, wrapping round after the last one of 32 bits.
fn next_line(position: u32) -> (next: u32)
    ensures
        next as int == (position + 1) % 0x1_0000_0000,
{
    if position == u32::MAX {
        0
    } else {
        position + 1
    }
}

/// How many records the lines of a body give: its added and removed lines.
pub fn count_changed_lines(lines: &Vec<Vec<u8>>) -> (n: usize)
    ensures
        n == changed_lines(line_views(lines@)),
{
    let ghost all = line_views(lines@);
    let mut n: usize = 0;
    let mut i: usize = 0;
    while i < lines.len()
        invariant
            i <= lines.len(),
            all == line_views(lines@),
            n == changed_lines(all.take(i as int)),
            n <= i,
        decreases lines.len() - i,
    {
        proof {
            assert(all.take(i + 1).drop_last() =~= all.take(i as int));
            assert(all.take(i + 1).last() == lines@[i as int]@);
        }
        match classify_line(&lines[i]) {
            LineKind::Added | LineKind::Removed => {
                n += 1;
            },
            _ => {},
        }
        i += 1;
    }
    proof {
        assert(all.take(lines.len() as int) =~= all);
    }
    n
}

/// What one more line adds to the pieces and to the line counts.
proof fn lemma_split_step(
    base: AssignmentModel,
    header: HunkHeader,
    lines: Seq<Seq<u8>>,
    ids: Seq<u128>,
    i: int,
)
    requires
        0 <= i < lines.len(),
    ensures
        old_advance(lines.take(i + 1)) == old_advance(lines.take(i)) + match line_kind(lines[i]) {
            LineKind::Removed | LineKind::Context => 1nat,
            _ => 0nat,
        },
        new_advance(lines.take(i + 1)) == new_advance(lines.take(i)) + match line_kind(lines[i]) {
            LineKind::Added | LineKind::Context => 1nat,
            _ => 0nat,
        },
        changed_lines(lines.take(i + 1)) == changed_lines(lines.take(i)) + match line_kind(
            lines[i],
        ) {
            LineKind::Added | LineKind::Removed => 1nat,
            _ => 0nat,
        },
        line_pieces(base, header, lines.take(i + 1), ids) == match line_kind(lines[i]) {
            LineKind::Added => line_pieces(base, header, lines.take(i), ids).push(
                added_piece(
                    base,
                    line_position(header.new_start, new_advance(lines.take(i))),
                    piece_id(base.id, ids, line_pieces(base, header, lines.take(i), ids).len()),
                ),
            ),
            LineKind::Removed => line_pieces(base, header, lines.take(i), ids).push(
                removed_piece(
                    base,
                    line_position(header.old_start, old_advance(lines.take(i))),
                    piece_id(base.id, ids, line_pieces(base, header, lines.take(i), ids).len()),
                ),
            ),
            _ => line_pieces(base, header, lines.take(i), ids),
        },
{
    assert(lines.take(i + 1).drop_last() =~= lines.take(i));
    assert(lines.take(i + 1).last() == lines[i]);
}

/// One line further on, the line number is the next one.
proof fn lemma_next_position(start: u32, advance: nat)
    ensures
        line_position(start, advance + 1) as int == (line_position(start, advance) + 1)
            % 0x1_0000_0000,
{
}

/// The record of one added line at new-side line `position`.
fn make_added(base: &HunkAssignment, position: u32, id: Option<u128>) -> (piece: HunkAssignment)
    ensures
        piece@ == added_piece(base@, position, id),
{
    let added: Vec<usize> = vec![position as usize];
    proof {
        assert(added@ =~= seq![position as usize]);
    }
    HunkAssignment {
        id,
        hunk_header: Some(
            HunkHeader { old_start: 0, old_lines: 0, new_start: position, new_lines: 1 },
        ),
        path: base.path.clone(),
        path_bytes: copy_vec(&base.path_bytes),
        stack_id: base.stack_id,
        hunk_locks: copy_vec(&base.hunk_locks),
        line_nums_added: Some(added),
        line_nums_removed: Some(Vec::new()),
        diff: None,
    }
}

/// The record of one removed line at old-side line `position`.
fn make_removed(base: &HunkAssignment, position: u32, id: Option<u128>) -> (piece: HunkAssignment)
    ensures
        piece@ == removed_piece(base@, position, id),
{
    let removed: Vec<usize> = vec![position as usize];
    proof {
        assert(removed@ =~= seq![position as usize]);
    }
    HunkAssignment {
        id,
        hunk_header: Some(
            HunkHeader { old_start: position, old_lines: 1, new_start: 0, new_lines: 0 },
        ),
        path: base.path.clone(),
        path_bytes: copy_vec(&base.path_bytes),
        stack_id: base.stack_id,
        hunk_locks: copy_vec(&base.hunk_locks),
        line_nums_added: Some(Vec::new()),
        line_nums_removed: Some(removed),
        diff: None,
    }
}

/// Cuts `base` into one record for each added or removed line among `lines`,
/// the lines of its body. The first piece keeps the identity of `base` if it
/// has one, the others take `ids` in turn.
pub fn split_lines(base: &HunkAssignment, lines: &Vec<Vec<u8>>, ids: &Vec<u128>) -> (out: Vec<
    HunkAssignment,
>)
    ensures
        models(out@) == split_record(base@, line_views(lines@), ids@),
{
    let header = match (base.hunk_header, &base.diff) {
        (Some(header), Some(_)) => header,
        _ => {
            let whole = vec![base.duplicate()];
            proof {
                assert(models(whole@) =~= seq![base@]);
            }
            return whole;
        },
    };
    let ghost all = line_views(lines@);
    let mut old_line: u32 = header.old_start;
    let mut new_line: u32 = header.new_start;
    let mut out: Vec<HunkAssignment> = Vec::new();
    let mut i: usize = 0;
    proof {
        assert(models(out@) =~= line_pieces(base@, header, all.take(0), ids@));
    }
    while i < lines.len()
        invariant
            i <= lines.len(),
            all == line_views(lines@),
            models(out@) == line_pieces(base@, header, all.take(i as int), ids@),
            old_line == line_position(header.old_start, old_advance(all.take(i as int))),
            new_line == line_position(header.new_start, new_advance(all.take(i as int))),
        decreases lines.len() - i,
    {
        proof {
            lemma_split_step(base@, header, all, ids@, i as int);
            lemma_next_position(header.old_start, old_advance(all.take(i as int)));
            lemma_next_position(header.new_start, new_advance(all.take(i as int)));
            assert(all[i as int] == lines@[i as int]@);
        }
        let ghost before = models(out@);
        match classify_line(&lines[i]) {
            LineKind::Added => {
                let piece = make_added(base, new_line, take_id(base.id, ids, out.len()));
                out.push(piece);
                proof {
                    assert(models(out@) =~= before.push(piece@));
                }
                new_line = next_line(new_line);
            },
            LineKind::Removed => {
                let piece = make_removed(base, old_line, take_id(base.id, ids, out.len()));
                out.push(piece);
                proof {
                    assert(models(out@) =~= before.push(piece@));
                }
                old_line = next_line(old_line);
            },
            LineKind::Context => {
                old_line = next_line(old_line);
                new_line = next_line(new_line);
            },
            LineKind::Skipped => {},
        }
        i += 1;
    }
    proof {
        assert(all.take(lines.len() as int) =~= all);
    }
    if out.len() == 0 {
        let whole = vec![base.duplicate()];
        proof {
            assert(models(whole@) =~= seq![base@]);
        }
        whole
    } else {
        out
    }
}

/// The identity of the piece that comes after `made` others.
fn take_id(base_id: Option<u128>, ids: &Vec<u128>, made: usize) -> (id: Option<u128>)
    ensures
        id == piece_id(base_id, ids@, made as nat),
{
    match base_id {
        Some(_) => if made == 0 {
            base_id
        } else if made - 1 < ids.len() {
            Some(ids[made - 1])
        } else {
            None
        },
        None => if made < ids.len() {
            Some(ids[made])
        } else {
            None
        },
    }
}

/// Whether `id` is one of `taken`.
fn is_taken(taken: &Vec<u128>, id: u128) -> (found: bool)
    ensures
        found == taken@.contains(id),
{
    let mut i: usize = 0;
    while i < taken.len()
        invariant
            i <= taken.len(),
            forall|k: int| 0 <= k < i ==> taken@[k] != id,
        decreases taken.len() - i,
    {
        if taken[i] == id {
            return true;
        }
        i += 1;
    }
    false
}

/// A list that holds every number below `count` holds `count` numbers at
/// least.
proof fn lemma_numbers_take_room(taken: Seq<u128>, count: int)
    requires
        0 <= count <= u128::MAX + 1,
        forall|k: u128| k < count ==> taken.contains(k),
    ensures
        count <= taken.len(),
    decreases count,
{
    if count > 0 {
        let top = (count - 1) as u128;
        assert(taken.contains(top));
        let at = choose|at: int| 0 <= at < taken.len() && taken[at] == top;
        let rest = taken.remove(at);
        assert(rest.len() == taken.len() - 1);
        assert forall|k: u128| k < count - 1 implies rest.contains(k) by {
            assert(taken.contains(k));
            let i = choose|i: int| 0 <= i < taken.len() && taken[i] == k;
            assert(i != at);
            if i < at {
                assert(rest[i] == taken[i]);
            } else {
                assert(rest[i - 1] == taken[i]);
            }
        }
        lemma_numbers_take_room(rest, count - 1);
    }
}

/// An identifier that is none of `taken`: a fresh draw, or, should the
/// draw be taken, the least number that is not.
pub fn unused_id(taken: &Vec<u128>) -> (id: u128)
    ensures
        !taken@.contains(id),
{
    let drawn = fresh_id();
    if !is_taken(taken, drawn) {
        return drawn;
    }
    let room = taken.len();
    let mut least: u128 = 0;
    while is_taken(taken, least)
        invariant
            forall|k: u128| k < least ==> taken@.contains(k),
            least <= taken@.len(),
            taken@.len() == room,
        decreases taken@.len() - least,
    {
        proof {
            assert forall|k: u128| k < least + 1 implies taken@.contains(k) by {
                if k == least {
                } else {
                    assert(k < least);
                }
            }
            lemma_numbers_take_room(taken@, least + 1);
        }
        least = least + 1;
    }
    least
}

/// The identifiers `ids` are new to `taken`: they differ from each other and
/// from every one of `taken`.
pub open spec fn new_to(ids: Seq<u128>, taken: Seq<u128>) -> bool {
    &&& ids.no_duplicates()
    &&& forall|k: int| 0 <= k < ids.len() ==> !taken.contains(#[trigger] ids[k])
}

/// As many fresh identifiers as asked for, new to those of `taken`, which
/// they join.
pub fn fresh_ids(count: usize, taken: &mut Vec<u128>) -> (ids: Vec<u128>)
    ensures
        ids@.len() == count,
        new_to(ids@, old(taken)@),
        final(taken)@ == old(taken)@ + ids@,
{
    let ghost before = taken@;
    let mut ids: Vec<u128> = Vec::new();
    let mut i: usize = 0;
    proof {
        assert(taken@ =~= before + ids@);
    }
    while i < count
        invariant
            i <= count,
            ids@.len() == i,
            new_to(ids@, before),
            taken@ == before + ids@,
        decreases count - i,
    {
        let id = unused_id(taken);
        let ghost drawn = ids@;
        proof {
            assert forall|k: int| 0 <= k < drawn.len() implies drawn[k] != id by {
                assert(taken@[before.len() + k] == drawn[k]);
            }
            assert(!before.contains(id)) by {
                if before.contains(id) {
                    let at = choose|at: int| 0 <= at < before.len() && before[at] == id;
                    assert(taken@[at] == id);
                }
            }
        }
        ids.push(id);
        taken.push(id);
        proof {
            assert(taken@ =~= before + ids@);
        }
        i += 1;
    }
    ids
}

/// What holds of the identifiers `ids` drawn to cut `base`, when `before`
/// were taken and `after` are: there are as many as the pieces take up, they
/// are new to `before`, and they have joined it.
pub open spec fn drawn_for(
    base: AssignmentModel,
    ids: Seq<u128>,
    before: Seq<u128>,
    after: Seq<u128>,
) -> bool {
    &&& ids.len() == ids_needed(base.id, changed_lines(body_lines(base)))
    &&& new_to(ids, before)
    &&& after == before + ids
}

/// Cuts a record into one record for each added or removed line of its
/// body. The pieces that need a fresh identity get one that is new to
/// `taken`, and `taken` grows by the identities given out.
pub fn split_avoiding(base: &HunkAssignment, taken: &mut Vec<u128>) -> (out: Vec<HunkAssignment>)
    ensures
        exists|ids: Seq<u128>|
            drawn_for(base@, ids, old(taken)@, final(taken)@) && models(out@)
                == #[trigger] split_record(base@, body_lines(base@), ids),
{
    let ghost before = taken@;
    match &base.diff {
        Some(diff) => {
            let lines = diff_lines(diff.as_slice());
            let pieces = count_changed_lines(&lines);
            let needed = if base.id.is_some() && pieces > 0 {
                pieces - 1
            } else {
                pieces
            };
            let ids = fresh_ids(needed, taken);
            let out = split_lines(base, &lines, &ids);
            proof {
                assert(base@.diff == Some(diff@));
                assert(line_views(lines@) == body_lines(base@));
                assert(drawn_for(base@, ids@, before, taken@));
                assert(models(out@) == split_record(base@, body_lines(base@), ids@));
            }
            out
        },
        None => {
            let ids: Vec<u128> = Vec::new();
            let lines: Vec<Vec<u8>> = Vec::new();
            let out = split_lines(base, &lines, &ids);
            proof {
                assert(line_views(lines@) =~= body_lines(base@));
                assert(changed_lines(body_lines(base@)) == 0);
                assert(taken@ =~= before + ids@);
                assert(drawn_for(base@, ids@, before, taken@));
                assert(models(out@) == split_record(base@, body_lines(base@), ids@));
            }
            out
        },
    }
}

/// The identities of the pieces of a cut record: the first is the record's
/// own if it has one, every later one is there and is not the record's, and
/// no two are the same.
pub open spec fn identities_kept_apart(base: AssignmentModel, pieces: Seq<AssignmentModel>) -> bool {
    &&& base.id is Some && pieces.len() > 0 ==> pieces[0].id == base.id
    &&& forall|k: int|
        0 < k < pieces.len() ==> (#[trigger] pieces[k]).id is Some && pieces[k].id != base.id
    &&& forall|j: int, k: int|
        0 <= j < k < pieces.len() ==> (#[trigger] pieces[j]).id != (#[trigger] pieces[k]).id
}

/// Cuts a record into one record for each added or removed line of its
/// body. The first piece keeps the identity of the record, if it has one;
/// every other piece gets a fresh one, unlike the record's and unlike each
/// other's.
pub fn split_into_line_selections(base: &HunkAssignment) -> (out: Vec<HunkAssignment>)
    ensures
        exists|ids: Seq<u128>|
            ids.len() == ids_needed(base@.id, changed_lines(body_lines(base@))) && new_to(
                ids,
                match base@.id {
                    Some(id) => seq![id],
                    None => Seq::empty(),
                },
            ) && models(out@) == #[trigger] split_record(base@, body_lines(base@), ids),
        identities_kept_apart(base@, models(out@)),
{
    let mut taken: Vec<u128> = Vec::new();
    match base.id {
        Some(id) => {
            taken.push(id);
        },
        None => {},
    }
    let ghost before = taken@;
    proof {
        assert(before =~= match base@.id {
            Some(id) => seq![id],
            None => Seq::empty(),
        });
    }
    let out = split_avoiding(base, &mut taken);
    proof {
        let ids = choose|ids: Seq<u128>|
            drawn_for(base@, ids, before, taken@) && models(out@) == #[trigger] split_record(
                base@,
                body_lines(base@),
                ids,
            );
        assert(models(out@) == split_record(base@, body_lines(base@), ids));
        if base@.id is Some && ids.contains(base@.id->0) {
            let at = choose|at: int| 0 <= at < ids.len() && ids[at] == base@.id->0;
            assert(before[0] == ids[at]);
            assert(before.contains(ids[at]));
        }
        lemma_identities_kept_apart(base@, body_lines(base@), ids);
    }
    out
}

/// Cutting a record with identifiers that differ from each other and from
/// the record's own keeps the identities of the pieces apart.
pub proof fn lemma_identities_kept_apart(
    base: AssignmentModel,
    lines: Seq<Seq<u8>>,
    ids: Seq<u128>,
)
    requires
        ids.no_duplicates(),
        base.id is Some ==> !ids.contains(base.id->0),
        ids.len() >= ids_needed(base.id, changed_lines(lines)),
    ensures
        identities_kept_apart(base, split_record(base, lines, ids)),
{
    match (base.hunk_header, base.diff) {
        (Some(header), Some(_)) => {
            lemma_split_identities(base, header, lines, ids);
        },
        _ => {},
    }
}

} // verus!

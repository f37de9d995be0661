use but_hunk_assignment::merge::{clamp_to_applied, stack_is_applied};
use but_hunk_assignment::model::{
    headers_meet, is_selector_hunk, specificity, HunkAssignment, HunkHeader, HunkLock, StackId,
};

fn header(old_start: u32, old_lines: u32, new_start: u32, new_lines: u32) -> HunkHeader {
    HunkHeader { old_start, old_lines, new_start, new_lines }
}

fn record(path: &str, hunk_header: Option<HunkHeader>) -> HunkAssignment {
    HunkAssignment {
        id: None,
        hunk_header,
        path: path.to_string(),
        path_bytes: path.as_bytes().to_vec(),
        stack_id: None,
        hunk_locks: Vec::new(),
        line_nums_added: None,
        line_nums_removed: None,
        diff: None,
    }
}

fn lock(stack: u128, byte: u8) -> HunkLock {
    HunkLock { target: StackId(stack), commit_id: [byte; 20] }
}

const A: StackId = StackId(0xa);
const B: StackId = StackId(0xb);
const GONE: StackId = StackId(0xdead);

#[test]
fn selector_has_exactly_one_absent_side() {
    assert!(is_selector_hunk(header(0, 0, 4, 1)));
    assert!(is_selector_hunk(header(7, 1, 0, 0)));
    assert!(is_selector_hunk(header(3, 0, 4, 2)));
    assert!(!is_selector_hunk(header(1, 3, 1, 5)));
    assert!(!is_selector_hunk(header(0, 0, 0, 0)));
}

#[test]
fn specificity_is_the_present_or_longer_side() {
    assert_eq!(specificity(header(0, 0, 4, 1)), 1);
    assert_eq!(specificity(header(7, 2, 0, 0)), 2);
    assert_eq!(specificity(header(1, 3, 1, 5)), 5);
    assert_eq!(specificity(header(1, 9, 1, 5)), 9);
    assert_eq!(specificity(header(1, 4, 1, 4)), 4);
    assert_eq!(specificity(header(0, 0, 0, 0)), 0);
}

#[test]
fn headers_meet_on_a_common_side() {
    // new sides [1, 6) and [4, 5)
    assert!(headers_meet(header(1, 3, 1, 5), header(0, 0, 4, 1)));
    // new sides [1, 6) and [6, 7) touch but share no line
    assert!(!headers_meet(header(1, 3, 1, 5), header(0, 0, 6, 1)));
    assert!(headers_meet(header(1, 3, 1, 5), header(0, 0, 5, 1)));
    // old sides [1, 4) and [3, 4), the second has no new side
    assert!(headers_meet(header(1, 3, 1, 5), header(3, 1, 0, 0)));
    assert!(!headers_meet(header(1, 3, 1, 5), header(4, 1, 0, 0)));
    // an added line and a removed line have no side in common
    assert!(!headers_meet(header(0, 0, 4, 1), header(4, 1, 0, 0)));
    // two hunks with both sides are compared on the new side
    assert!(!headers_meet(header(1, 5, 1, 2), header(3, 1, 10, 1)));
    // nothing meets a header without lines
    assert!(!headers_meet(header(0, 0, 0, 0), header(0, 0, 0, 0)));
}

#[test]
fn headers_meet_near_the_last_line_number() {
    let top = header(0, 0, u32::MAX, 1);
    assert!(headers_meet(top, top));
    assert!(headers_meet(header(0, 0, u32::MAX - 1, 2), top));
    assert!(!headers_meet(header(0, 0, u32::MAX - 1, 1), top));
    assert!(headers_meet(header(0, 0, 1, u32::MAX), top));
}

#[test]
fn intersects_needs_the_same_path() {
    let a = record("a.txt", Some(header(1, 3, 1, 5)));
    let b = record("b.txt", Some(header(1, 3, 1, 5)));
    assert!(!a.intersects(&b));
    assert!(a.intersects(&a.clone()));
}

#[test]
fn whole_file_record_intersects_everything_in_the_file() {
    let whole = record("a.txt", None);
    let line = record("a.txt", Some(header(0, 0, 900, 1)));
    let elsewhere = record("b.txt", Some(header(0, 0, 900, 1)));
    assert!(whole.intersects(&line));
    assert!(line.intersects(&whole));
    assert!(whole.intersects(&whole.clone()));
    assert!(!whole.intersects(&elsewhere));
}

#[test]
fn intersects_is_symmetric() {
    let records = vec![
        record("a.txt", None),
        record("a.txt", Some(header(1, 3, 1, 5))),
        record("a.txt", Some(header(0, 0, 4, 1))),
        record("a.txt", Some(header(3, 1, 0, 0))),
        record("a.txt", Some(header(9, 2, 12, 4))),
        record("b.txt", Some(header(1, 3, 1, 5))),
        record("b.txt", None),
    ];
    for x in &records {
        for y in &records {
            assert_eq!(x.intersects(y), y.intersects(x));
        }
    }
}

#[test]
fn duplicate_equals_the_record() {
    let mut r = record("a.txt", Some(header(1, 3, 1, 5)));
    r.id = Some(77);
    r.stack_id = Some(A);
    r.hunk_locks = vec![lock(1, 2), lock(3, 4)];
    r.line_nums_added = Some(vec![4, 5]);
    r.line_nums_removed = Some(vec![]);
    r.diff = Some(b"+x\n".to_vec());
    assert_eq!(r.duplicate(), r);
}

#[test]
fn stack_is_applied_looks_through_the_list() {
    assert!(stack_is_applied(&[A, B], B));
    assert!(stack_is_applied(&[A, B], A));
    assert!(!stack_is_applied(&[A, B], GONE));
    assert!(!stack_is_applied(&[], A));
    assert_eq!(clamp_to_applied(Some(A), &[A]), Some(A));
    assert_eq!(clamp_to_applied(Some(B), &[A]), None);
    assert_eq!(clamp_to_applied(None, &[A]), None);
}

#[test]
fn set_from_always_takes_locks_and_path() {
    let mut receiver = record("new.txt", Some(header(1, 3, 1, 5)));
    receiver.hunk_locks = vec![lock(9, 9)];
    let mut donor = record("old.txt", Some(header(0, 0, 4, 1)));
    donor.hunk_locks = vec![lock(1, 2)];
    receiver.set_from(&donor, &[A], false);
    assert_eq!(receiver.hunk_locks, vec![lock(1, 2)]);
    assert_eq!(receiver.path, "old.txt");
    // header, raw path and body stay
    assert_eq!(receiver.hunk_header, Some(header(1, 3, 1, 5)));
    assert_eq!(receiver.path_bytes, b"new.txt".to_vec());

    let bare = record("old.txt", None);
    receiver.set_from(&bare, &[A], false);
    assert_eq!(receiver.hunk_locks, Vec::new());
}

#[test]
fn set_from_takes_id_and_lines_only_where_the_donor_has_them() {
    let mut receiver = record("a.txt", Some(header(1, 3, 1, 5)));
    receiver.id = Some(1);
    receiver.line_nums_added = Some(vec![4, 5]);
    receiver.line_nums_removed = Some(vec![2]);
    let bare = record("a.txt", None);
    receiver.set_from(&bare, &[], true);
    assert_eq!(receiver.id, Some(1));
    assert_eq!(receiver.line_nums_added, Some(vec![4, 5]));
    assert_eq!(receiver.line_nums_removed, Some(vec![2]));

    let mut donor = record("a.txt", None);
    donor.id = Some(2);
    donor.line_nums_added = Some(vec![7]);
    receiver.set_from(&donor, &[], true);
    assert_eq!(receiver.id, Some(2));
    assert_eq!(receiver.line_nums_added, Some(vec![7]));
    assert_eq!(receiver.line_nums_removed, Some(vec![2]));

    let mut other = record("a.txt", None);
    other.line_nums_removed = Some(vec![]);
    receiver.set_from(&other, &[], true);
    assert_eq!(receiver.id, Some(2));
    assert_eq!(receiver.line_nums_added, Some(vec![7]));
    assert_eq!(receiver.line_nums_removed, Some(vec![]));
}

#[test]
fn set_from_owned_receiver_always_follows_the_donor() {
    let mut donor = record("a.txt", None);
    donor.stack_id = Some(B);
    let mut receiver = record("a.txt", None);
    receiver.stack_id = Some(A);
    receiver.set_from(&donor, &[A, B], false);
    assert_eq!(receiver.stack_id, Some(B));

    // even to become unowned
    let unowned = record("a.txt", None);
    receiver.set_from(&unowned, &[A, B], false);
    assert_eq!(receiver.stack_id, None);
}

#[test]
fn set_from_unowned_receiver_follows_only_when_allowed() {
    let mut donor = record("a.txt", None);
    donor.stack_id = Some(B);
    let mut receiver = record("a.txt", None);
    receiver.set_from(&donor, &[A, B], false);
    assert_eq!(receiver.stack_id, None);
    receiver.set_from(&donor, &[A, B], true);
    assert_eq!(receiver.stack_id, Some(B));
}

#[test]
fn set_from_clears_an_owner_outside_the_workspace() {
    let mut donor = record("a.txt", None);
    donor.stack_id = Some(GONE);
    let mut receiver = record("a.txt", None);
    receiver.stack_id = Some(A);
    receiver.set_from(&donor, &[A, B], false);
    assert_eq!(receiver.stack_id, None);

    let mut receiver = record("a.txt", None);
    receiver.set_from(&donor, &[A, B], true);
    assert_eq!(receiver.stack_id, None);

    // a receiver that keeps its owner is held against the workspace too
    let mut receiver = record("a.txt", None);
    receiver.stack_id = Some(GONE);
    let mut applied_donor = record("a.txt", None);
    applied_donor.stack_id = Some(A);
    receiver.set_from(&applied_donor, &[B], false);
    assert_eq!(receiver.stack_id, None);
}

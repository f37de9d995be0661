use but_hunk_assignment::model::{HunkAssignment, HunkHeader, HunkLock, StackId};
use but_hunk_assignment::split::{
    classify_line, count_changed_lines, fresh_ids, split_avoiding, split_into_line_selections,
    split_lines, unused_id, LineKind,
};

fn header(old_start: u32, old_lines: u32, new_start: u32, new_lines: u32) -> HunkHeader {
    HunkHeader { old_start, old_lines, new_start, new_lines }
}

fn hunk(path: &str, hunk_header: HunkHeader, diff: &str) -> HunkAssignment {
    HunkAssignment {
        id: None,
        hunk_header: Some(hunk_header),
        path: path.to_string(),
        path_bytes: path.as_bytes().to_vec(),
        stack_id: None,
        hunk_locks: Vec::new(),
        line_nums_added: None,
        line_nums_removed: None,
        diff: Some(diff.as_bytes().to_vec()),
    }
}

fn lines(text: &[&str]) -> Vec<Vec<u8>> {
    text.iter().map(|l| l.as_bytes().to_vec()).collect()
}

fn added(base: &HunkAssignment, at: u32, id: Option<u128>) -> HunkAssignment {
    HunkAssignment {
        id,
        hunk_header: Some(header(0, 0, at, 1)),
        path: base.path.clone(),
        path_bytes: base.path_bytes.clone(),
        stack_id: base.stack_id,
        hunk_locks: base.hunk_locks.clone(),
        line_nums_added: Some(vec![at as usize]),
        line_nums_removed: Some(vec![]),
        diff: None,
    }
}

fn removed(base: &HunkAssignment, at: u32, id: Option<u128>) -> HunkAssignment {
    HunkAssignment {
        id,
        hunk_header: Some(header(at, 1, 0, 0)),
        path: base.path.clone(),
        path_bytes: base.path_bytes.clone(),
        stack_id: base.stack_id,
        hunk_locks: base.hunk_locks.clone(),
        line_nums_added: Some(vec![]),
        line_nums_removed: Some(vec![at as usize]),
        diff: None,
    }
}

#[test]
fn classify_line_goes_by_the_first_byte() {
    assert!(matches!(classify_line(&b"+x".to_vec()), LineKind::Added));
    assert!(matches!(classify_line(&b"+".to_vec()), LineKind::Added));
    assert!(matches!(classify_line(&b"-x".to_vec()), LineKind::Removed));
    assert!(matches!(classify_line(&b" x".to_vec()), LineKind::Context));
    assert!(matches!(classify_line(&b"@@ -1 +1 @@".to_vec()), LineKind::Skipped));
    assert!(matches!(
        classify_line(&b"\\ No newline at end of file".to_vec()),
        LineKind::Skipped
    ));
    assert!(matches!(classify_line(&b"".to_vec()), LineKind::Context));
    assert!(matches!(classify_line(&b"x".to_vec()), LineKind::Context));
    assert!(matches!(classify_line(&b"\t+".to_vec()), LineKind::Context));
}

#[test]
fn count_changed_lines_counts_added_and_removed() {
    assert_eq!(count_changed_lines(&lines(&[])), 0);
    assert_eq!(count_changed_lines(&lines(&["@@", " a", "", "x"])), 0);
    assert_eq!(count_changed_lines(&lines(&["", "", "+a"])), 1);
    assert_eq!(count_changed_lines(&lines(&["@@", " a", "+b", "-c", " d", "+e"])), 3);
}

#[test]
fn split_lines_places_each_line_where_the_lines_before_lead() {
    let base = hunk("file.txt", header(10, 4, 20, 5), "ignored");
    let body = lines(&[
        "@@ -10,4 +20,5 @@",
        " keep",
        "-gone one",
        "+came one",
        "+came two",
        "other",
        "",
        "\\ No newline at end of file",
        "-gone two",
        "+came three",
    ]);
    let out = split_lines(&base, &body, &vec![1, 2, 3, 4, 5]);
    assert_eq!(
        out,
        vec![
            removed(&base, 11, Some(1)),
            added(&base, 21, Some(2)),
            added(&base, 22, Some(3)),
            removed(&base, 14, Some(4)),
            added(&base, 25, Some(5)),
        ]
    );
}

#[test]
fn split_lines_keeps_path_owner_and_locks() {
    let mut base = hunk("dir/file.txt", header(1, 0, 1, 2), "");
    base.path_bytes = b"dir/file\xff.txt".to_vec();
    base.stack_id = Some(StackId(9));
    base.hunk_locks = vec![HunkLock { target: StackId(3), commit_id: [7; 20] }];
    base.line_nums_added = Some(vec![1, 2]);
    let out = split_lines(&base, &lines(&["+a", "+b"]), &vec![10, 11]);
    assert_eq!(out.len(), 2);
    for piece in &out {
        assert_eq!(piece.path, "dir/file.txt");
        assert_eq!(piece.path_bytes, b"dir/file\xff.txt".to_vec());
        assert_eq!(piece.stack_id, Some(StackId(9)));
        assert_eq!(piece.hunk_locks, base.hunk_locks);
        assert_eq!(piece.diff, None);
    }
    assert_eq!(out[0].line_nums_added, Some(vec![1]));
    assert_eq!(out[1].line_nums_added, Some(vec![2]));
}

#[test]
fn split_lines_first_piece_keeps_the_identity() {
    let mut base = hunk("file.txt", header(1, 3, 1, 5), "");
    base.id = Some(100);
    let body = lines(&[" a", "+b", "+c", "-d"]);
    let out = split_lines(&base, &body, &vec![7, 8]);
    assert_eq!(out.len(), 3);
    assert_eq!(out[0].id, Some(100));
    assert_eq!(out[1].id, Some(7));
    assert_eq!(out[2].id, Some(8));

    base.id = None;
    let out = split_lines(&base, &body, &vec![7, 8, 9]);
    assert_eq!(out[0].id, Some(7));
    assert_eq!(out[1].id, Some(8));
    assert_eq!(out[2].id, Some(9));
}

#[test]
fn split_lines_identifiers_reach_as_far_as_they_go() {
    let base = hunk("file.txt", header(1, 3, 1, 5), "");
    let out = split_lines(&base, &lines(&["+b", "+c", "+d"]), &vec![7]);
    assert_eq!(out[0].id, Some(7));
    assert_eq!(out[1].id, None);
    assert_eq!(out[2].id, None);
}

#[test]
fn split_lines_without_changes_hands_the_record_back() {
    let mut base = hunk("file.txt", header(1, 3, 1, 3), " a\n b\n c\n");
    base.id = Some(5);
    let out = split_lines(&base, &lines(&["@@ -1,3 +1,3 @@", " a", " b", " c"]), &vec![1, 2]);
    assert_eq!(out, vec![base.clone()]);
    let out = split_lines(&base, &lines(&[]), &vec![]);
    assert_eq!(out, vec![base]);
}

#[test]
fn split_lines_needs_header_and_body() {
    let mut no_header = hunk("file.txt", header(1, 1, 1, 1), "+a\n");
    no_header.hunk_header = None;
    assert_eq!(split_lines(&no_header, &lines(&["+a"]), &vec![1]), vec![no_header.clone()]);

    let mut no_body = hunk("file.txt", header(1, 1, 1, 1), "");
    no_body.diff = None;
    assert_eq!(split_lines(&no_body, &lines(&["+a"]), &vec![1]), vec![no_body.clone()]);
}

#[test]
fn split_lines_wraps_after_the_last_line_number() {
    let base = hunk("file.txt", header(u32::MAX, 1, u32::MAX - 1, 3), "");
    let out = split_lines(&base, &lines(&["+a", "+b", "+c", "-d", "-e"]), &vec![1, 2, 3, 4, 5]);
    assert_eq!(
        out,
        vec![
            added(&base, u32::MAX - 1, Some(1)),
            added(&base, u32::MAX, Some(2)),
            added(&base, 0, Some(3)),
            removed(&base, u32::MAX, Some(4)),
            removed(&base, 0, Some(5)),
        ]
    );
}

#[test]
fn fresh_ids_are_as_many_as_asked_and_differ() {
    let mut taken = vec![1, 2, 3];
    assert_eq!(fresh_ids(0, &mut taken), Vec::<u128>::new());
    assert_eq!(taken, vec![1, 2, 3]);
    let ids = fresh_ids(50, &mut taken);
    assert_eq!(ids.len(), 50);
    for i in 0..ids.len() {
        assert!(![1, 2, 3].contains(&ids[i]));
        for j in 0..i {
            assert_ne!(ids[i], ids[j]);
        }
    }
    // what was given out is taken from then on
    assert_eq!(taken[..3], [1, 2, 3]);
    assert_eq!(taken[3..], ids[..]);
}

#[test]
fn unused_id_is_none_of_the_taken() {
    let taken: Vec<u128> = (0..200).collect();
    for _ in 0..20 {
        assert!(!taken.contains(&unused_id(&taken)));
    }
    assert_ne!(unused_id(&vec![]), unused_id(&vec![]));
}

#[test]
fn split_avoiding_gives_out_new_identities_and_records_them() {
    let mut base = hunk("file.txt", header(1, 0, 1, 3), "+a\n+b\n+c\n");
    base.id = Some(5);
    let mut taken = vec![5, 6];
    let out = split_avoiding(&base, &mut taken);
    assert_eq!(out.len(), 3);
    assert_eq!(out[0].id, Some(5));
    let second = out[1].id.unwrap();
    let third = out[2].id.unwrap();
    assert!(![5, 6].contains(&second));
    assert!(![5, 6, second].contains(&third));
    assert_eq!(taken, vec![5, 6, second, third]);

    // nothing is drawn for a record that stays whole
    let whole = hunk("file.txt", header(1, 1, 1, 1), " a\n");
    let out = split_avoiding(&whole, &mut taken);
    assert_eq!(out, vec![whole]);
    assert_eq!(taken, vec![5, 6, second, third]);
}

#[test]
fn split_into_line_selections_gives_every_piece_its_own_identity() {
    let mut body = String::new();
    for _ in 0..40 {
        body.push_str("+x\n-y\n z\n");
    }
    let mut base = hunk("file.txt", header(1, 80, 1, 80), &body);
    for id in [None, Some(7u128)] {
        base.id = id;
        let out = split_into_line_selections(&base);
        assert_eq!(out.len(), 80);
        for k in 0..out.len() {
            assert!(out[k].id.is_some());
            if k > 0 {
                assert_ne!(out[k].id, id);
            }
            for j in 0..k {
                assert_ne!(out[j].id, out[k].id);
            }
        }
        if id.is_some() {
            assert_eq!(out[0].id, id);
        }
    }
}

#[test]
fn split_into_line_selections_reads_the_body() {
    let base = hunk(
        "file.txt",
        header(1, 3, 1, 5),
        "@@ -1,3 +1,5 @@\n base-1\n base-2\n base-3\n+line-b\n+line-a\n",
    );
    let out = split_into_line_selections(&base);
    assert_eq!(out.len(), 2);
    assert_eq!(out[0], added(&base, 4, out[0].id));
    assert_eq!(out[1], added(&base, 5, out[1].id));
    assert!(out[0].id.is_some());
    assert!(out[1].id.is_some());
    assert_ne!(out[0].id, out[1].id);
}

#[test]
fn split_into_line_selections_takes_terminators_off() {
    // A line that holds nothing but its terminator is empty and counts as
    // context; a body that ends without a terminator ends with a line.
    let base = hunk("file.txt", header(3, 2, 3, 2), " a\r\n\r\n-b\r\n\n+c");
    let out = split_into_line_selections(&base);
    assert_eq!(out.len(), 2);
    assert_eq!(out[0], removed(&base, 5, out[0].id));
    assert_eq!(out[1], added(&base, 6, out[1].id));
}

#[test]
fn split_into_line_selections_counts_an_empty_line_as_context() {
    let base = hunk("f", header(1, 1, 1, 3), "+a\n\n+b\n");
    let out = split_into_line_selections(&base);
    assert_eq!(out.len(), 2);
    assert_eq!(out[0].hunk_header, Some(header(0, 0, 1, 1)));
    assert_eq!(out[1].hunk_header, Some(header(0, 0, 3, 1)));
    assert_eq!(out[1].line_nums_added, Some(vec![3]));
}

#[test]
fn split_into_line_selections_first_piece_reuses_the_identity() {
    let mut base = hunk("file.txt", header(1, 3, 1, 5), " a\n+b\n+c\n");
    base.id = Some(42);
    let out = split_into_line_selections(&base);
    assert_eq!(out.len(), 2);
    assert_eq!(out[0].id, Some(42));
    assert!(out[1].id.is_some());
    assert_ne!(out[1].id, Some(42));
    let reused = out.iter().filter(|p| p.id == Some(42)).count();
    assert_eq!(reused, 1);
}

#[test]
fn split_into_line_selections_falls_back_to_the_record() {
    let base = hunk("file.txt", header(1, 3, 1, 3), "@@ -1,3 +1,3 @@\n a\n b\n c\n");
    assert_eq!(split_into_line_selections(&base), vec![base.clone()]);

    let empty = hunk("file.txt", header(1, 3, 1, 3), "");
    assert_eq!(split_into_line_selections(&empty), vec![empty.clone()]);

    let mut no_body = base.clone();
    no_body.diff = None;
    assert_eq!(split_into_line_selections(&no_body), vec![no_body.clone()]);

    let mut no_header = hunk("file.txt", header(1, 1, 1, 1), "+a\n");
    no_header.hunk_header = None;
    assert_eq!(split_into_line_selections(&no_header), vec![no_header.clone()]);
}

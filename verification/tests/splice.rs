use llm_cleanup::engine::error::CoreError;
use llm_cleanup::engine::splice::splice;

#[test]
fn empty_edits_are_byte_identical() {
    let src = b"hello world";
    let out = splice(src, &[]).unwrap();
    assert_eq!(out, src);
}

#[test]
fn splices_in_order() {
    let src = "a X b Y c".as_bytes();
    let edits = vec![(2..3, "1".to_string()), (6..7, "2".to_string())];
    let out = splice(src, &edits).unwrap();
    assert_eq!(String::from_utf8(out).unwrap(), "a 1 b 2 c");
}

#[test]
fn rejects_overlap() {
    let src = b"abcdef";
    let edits = vec![(1..3, "x".to_string()), (2..4, "y".to_string())];
    assert!(splice(src, &edits).is_err());
}

#[test]
fn splice_sorts_edits_by_start() {
    let src = "a X b Y c".as_bytes();
    let edits = vec![(6..7, "2".to_string()), (2..3, "1".to_string())];
    let out = splice(src, &edits).unwrap();
    assert_eq!(String::from_utf8(out).unwrap(), "a 1 b 2 c");
}

#[test]
fn splice_overlap_error_names_the_edit() {
    let src = b"abcdef";
    let edits = vec![(1..3, "x".to_string()), (2..4, "y".to_string())];
    match splice(src, &edits) {
        Err(CoreError::SelfCheck(m)) => assert_eq!(m, "overlapping edit at byte 2"),
        other => panic!("unexpected result: {other:?}"),
    }
}

#[test]
fn splice_rejects_range_past_end() {
    let src = b"abc";
    let edits = vec![(1..5, "x".to_string())];
    match splice(src, &edits) {
        Err(CoreError::SelfCheck(m)) => assert_eq!(m, "edit range 1..5 out of bounds (source len 3)"),
        other => panic!("unexpected result: {other:?}"),
    }
}

#[test]
fn splice_insertion_and_deletion() {
    let src = b"abcdef";
    let edits = vec![(0..0, "<".to_string()), (2..4, String::new()), (6..6, ">".to_string())];
    let out = splice(src, &edits).unwrap();
    assert_eq!(out, b"<abef>".to_vec());
}

//! Scanner and boundary-store behaviour on concrete spans.

use spanscan::boundary::{BoundaryMessage, BoundaryStore};
use spanscan::scan::{count_newlines, scan_span, ScanError, TrackingLine};

fn msg(head: &[u8], tail: &[u8]) -> BoundaryMessage {
    BoundaryMessage { head: head.to_vec(), tail: tail.to_vec() }
}

#[test]
fn scan_basic_span() {
    let span = b"abc\nde\nfg".to_vec();
    let sc = scan_span(&span).unwrap();
    assert_eq!(sc.head, b"abc".to_vec());
    assert_eq!(sc.lines, vec![b"de".to_vec()]);
    assert_eq!(sc.tail, b"fg".to_vec());
}

#[test]
fn scan_span_without_separator() {
    let span = b"abc".to_vec();
    let sc = scan_span(&span).unwrap();
    assert_eq!(sc.head, b"abc".to_vec());
    assert_eq!(sc.lines.len(), 0);
    assert_eq!(sc.tail, Vec::<u8>::new());
}

#[test]
fn scan_empty_span() {
    let span = Vec::new();
    let sc = scan_span(&span).unwrap();
    assert_eq!(sc.head, Vec::<u8>::new());
    assert_eq!(sc.lines.len(), 0);
    assert_eq!(sc.tail, Vec::<u8>::new());
}

#[test]
fn separator_on_last_byte_leaves_no_tail() {
    let span = b"ab\ncd\n".to_vec();
    let sc = scan_span(&span).unwrap();
    assert_eq!(sc.tail, Vec::<u8>::new());
    assert_eq!(sc.head, b"ab".to_vec());
    assert_eq!(sc.lines, vec![b"cd".to_vec()]);
}

#[test]
fn next_head_after_clean_cut_is_standalone_line() {
    // span 0 ends exactly on a separator, so the next span's head fragment
    // comes out of reconciliation as a complete line of its own
    let mut store = BoundaryStore::new();
    let s0 = scan_span(&b"ab\ncd\n".to_vec()).unwrap();
    let s1 = scan_span(&b"xy\nz".to_vec()).unwrap();
    store.record(0, BoundaryMessage { head: s0.head, tail: s0.tail });
    store.record(1, BoundaryMessage { head: s1.head, tail: s1.tail });
    let recovered = store.finish().unwrap();
    assert_eq!(recovered, vec![b"ab".to_vec(), b"xy".to_vec(), b"z".to_vec()]);
}

#[test]
fn fusing_tail_and_head_restores_cut_line() {
    // "nopqr" is cut into tail "no" / head "pqr"
    let s0 = scan_span(&b"ab\nno".to_vec()).unwrap();
    let s1 = scan_span(&b"pqr\ncd\n".to_vec()).unwrap();
    assert_eq!(s0.tail, b"no".to_vec());
    assert_eq!(s1.head, b"pqr".to_vec());
    let mut store = BoundaryStore::new();
    store.record(0, BoundaryMessage { head: s0.head, tail: s0.tail });
    store.record(1, BoundaryMessage { head: s1.head, tail: s1.tail });
    let recovered = store.finish().unwrap();
    assert_eq!(recovered, vec![b"ab".to_vec(), b"nopqr".to_vec()]);
}

#[test]
fn empty_fusion_candidates_are_dropped() {
    let mut store = BoundaryStore::new();
    store.record(0, msg(b"", b""));
    store.record(1, msg(b"", b""));
    let recovered = store.finish().unwrap();
    assert_eq!(recovered.len(), 0);
}

#[test]
fn records_arrive_in_any_order() {
    let mut store = BoundaryStore::new();
    store.record(2, msg(b"z", b""));
    store.record(0, msg(b"a", b"b"));
    store.record(1, msg(b"c", b"d"));
    let recovered = store.finish().unwrap();
    assert_eq!(
        recovered,
        vec![b"a".to_vec(), b"bc".to_vec(), b"dz".to_vec()]
    );
}

#[test]
fn line_at_limit_is_accepted() {
    let mut span = vec![b'a'; 64];
    span.push(b'\n');
    span.extend_from_slice(b"x\n");
    let sc = scan_span(&span).unwrap();
    assert_eq!(sc.head.len(), 64);
    assert_eq!(sc.lines, vec![b"x".to_vec()]);
}

#[test]
fn oversized_line_is_a_fatal_error_not_a_truncation() {
    // one byte past the limit: the scan reports the violation
    let mut span = vec![b'a'; 65];
    span.push(b'\n');
    let r = scan_span(&span);
    assert_eq!(r.unwrap_err(), ScanError::LineTooLong);

    // also when the oversized line sits in the middle of a span
    let mut span2 = b"ok\n".to_vec();
    span2.extend_from_slice(&vec![b'b'; 65]);
    span2.extend_from_slice(b"\nok\n");
    assert_eq!(scan_span(&span2).unwrap_err(), ScanError::LineTooLong);
}

#[test]
fn oversized_fusion_is_a_fatal_error() {
    let mut store = BoundaryStore::new();
    store.record(0, msg(b"", &vec![b't'; 40]));
    store.record(1, msg(&vec![b'h'; 40], b""));
    assert_eq!(store.finish().unwrap_err(), ScanError::LineTooLong);
}

#[test]
fn tracking_line_accumulates() {
    let mut line = TrackingLine::new();
    line.add(b'h');
    line.add(b'i');
    assert!(!line.is_full());
    assert_eq!(line.bytes(), b"hi".to_vec());

    let mut full = TrackingLine::new();
    let mut i = 0;
    while i < 64 {
        full.add(b'x');
        i += 1;
    }
    assert!(full.is_full());
}

#[test]
fn newline_count() {
    assert_eq!(count_newlines(&b"a\nb\nc".to_vec()), 2);
    assert_eq!(count_newlines(&Vec::new()), 0);
    assert_eq!(count_newlines(&b"\n\n\n".to_vec()), 3);
}

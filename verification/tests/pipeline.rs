//! Whole-pipeline scenarios: exactly-once line counting over span divisions,
//! and aggregation of the scanned plus recovered lines.

use spanscan::boundary::{BoundaryMessage, BoundaryStore};
use spanscan::parse::aggregate_lines;
use spanscan::scan::scan_span;
use spanscan::tally::tally_spans;
use spanscan::tree::Tree;

const FILE: &[u8] = b"A;1.0\nB;2.5\nA;3.0\n";

fn split_at(content: &[u8], cuts: &[usize]) -> Vec<Vec<u8>> {
    let mut spans = Vec::new();
    let mut start = 0;
    for &c in cuts {
        spans.push(content[start..c].to_vec());
        start = c;
    }
    spans.push(content[start..].to_vec());
    spans
}

/// All the lines the division yields: scanned plus recovered.
fn all_lines(spans: &Vec<Vec<u8>>) -> Vec<Vec<u8>> {
    let mut store = BoundaryStore::new();
    let mut lines = Vec::new();
    let mut i = 0;
    for span in spans {
        let sc = scan_span(span).unwrap();
        for l in sc.lines {
            lines.push(l);
        }
        store.record(i, BoundaryMessage { head: sc.head, tail: sc.tail });
        i += 1;
    }
    for l in store.finish().unwrap() {
        lines.push(l);
    }
    lines
}

#[test]
fn exactly_once_for_every_two_span_cut() {
    // every cut that leaves a separator in the first span
    for cut in 6..FILE.len() {
        let spans = split_at(FILE, &[cut]);
        assert_eq!(tally_spans(&spans).unwrap(), 3, "cut at {}", cut);
    }
}

#[test]
fn exactly_once_for_one_span() {
    // span size at least the file size: a single span
    let spans = vec![FILE.to_vec()];
    assert_eq!(tally_spans(&spans).unwrap(), 3);
}

#[test]
fn exactly_once_for_three_spans() {
    let spans = split_at(FILE, &[6, 13]);
    assert_eq!(tally_spans(&spans).unwrap(), 3);
}

#[test]
fn cut_on_line_boundary() {
    // the cut lands exactly after a separator
    let spans = split_at(FILE, &[6]);
    assert_eq!(tally_spans(&spans).unwrap(), 3);
    let spans2 = split_at(FILE, &[12]);
    assert_eq!(tally_spans(&spans2).unwrap(), 3);
}

#[test]
fn worker_counts_agree() {
    // one worker's division against a many-span division of the same bytes
    let one = vec![FILE.to_vec()];
    let many = split_at(FILE, &[6, 12]);
    assert_eq!(tally_spans(&one).unwrap(), tally_spans(&many).unwrap());
    // a worker that only ever claims a zero-byte span changes nothing
    let with_empty_last = split_at(FILE, &[8, 14, FILE.len()]);
    assert_eq!(tally_spans(&with_empty_last).unwrap(), 3);
}

#[test]
fn file_without_trailing_separator_counts_fragment() {
    let content = b"A;1.0\nB;2.5";
    let spans = split_at(content, &[7]);
    // one terminated line plus the trailing unterminated fragment
    assert_eq!(tally_spans(&spans).unwrap(), 2);
}

#[test]
fn two_span_scenario_aggregates_per_key() {
    for cut in 6..FILE.len() {
        let spans = split_at(FILE, &[cut]);
        let lines = all_lines(&spans);
        assert_eq!(lines.len(), 3, "cut at {}", cut);

        let mut tree = Tree::new();
        let dropped = aggregate_lines(&mut tree, &lines);
        assert_eq!(dropped, 0);

        let a = tree.get(&b"A".to_vec()).unwrap();
        assert_eq!(a.count, 2);
        assert_eq!(a.sum, 400);
        assert_eq!(a.min, 100);
        assert_eq!(a.max, 300);

        let b = tree.get(&b"B".to_vec()).unwrap();
        assert_eq!(b.count, 1);
        assert_eq!(b.sum, 250);
        assert_eq!(b.min, 250);
        assert_eq!(b.max, 250);

        assert!(tree.get(&b"C".to_vec()).is_none());
    }
}

#[test]
fn empty_file_yields_zero_lines_and_empty_tree() {
    let spans: Vec<Vec<u8>> = Vec::new();
    assert_eq!(tally_spans(&spans).unwrap(), 0);

    // a worker that claims a span of zero bytes changes nothing
    let one_empty = vec![Vec::new()];
    assert_eq!(tally_spans(&one_empty).unwrap(), 0);

    let mut tree = Tree::new();
    let lines: Vec<Vec<u8>> = Vec::new();
    let dropped = aggregate_lines(&mut tree, &lines);
    assert_eq!(dropped, 0);
    assert_eq!(tree.keys_in_order().len(), 0);
    assert!(tree.get(&b"A".to_vec()).is_none());
}

//! Aggregation tree and row parser behaviour on concrete rows.

use spanscan::parse::{aggregate_lines, parse};
use spanscan::tree::{Node, Tree};

#[test]
fn tree_tracks_count_sum_min_max() {
    let mut tree = Tree::new();
    tree.update(b"oslo".to_vec(), 150);
    tree.update(b"rome".to_vec(), -200);
    tree.update(b"oslo".to_vec(), 50);
    tree.update(b"oslo".to_vec(), 250);

    let oslo = tree.get(&b"oslo".to_vec()).unwrap();
    assert_eq!(oslo.count, 3);
    assert_eq!(oslo.sum, 450);
    assert_eq!(oslo.min, 50);
    assert_eq!(oslo.max, 250);

    let rome = tree.get(&b"rome".to_vec()).unwrap();
    assert_eq!(rome.count, 1);
    assert_eq!(rome.sum, -200);
    assert_eq!(rome.min, -200);
    assert_eq!(rome.max, -200);
}

#[test]
fn update_on_existing_key_creates_no_node() {
    let mut tree = Tree::new();
    tree.update(b"k".to_vec(), 1);
    tree.update(b"k".to_vec(), 2);
    tree.update(b"k".to_vec(), 3);
    assert_eq!(tree.keys_in_order().len(), 1);
}

#[test]
fn insertion_order_does_not_change_aggregates() {
    let rows: Vec<(&[u8], i64)> =
        vec![(b"A", 100), (b"B", 250), (b"A", 300), (b"C", -50), (b"B", 0)];
    let perm1 = [0usize, 1, 2, 3, 4];
    let perm2 = [4usize, 3, 2, 1, 0];
    let perm3 = [2usize, 0, 4, 1, 3];

    let mut trees = Vec::new();
    for perm in [perm1, perm2, perm3] {
        let mut tree = Tree::new();
        for &i in perm.iter() {
            tree.update(rows[i].0.to_vec(), rows[i].1);
        }
        trees.push(tree);
    }
    for key in [b"A".to_vec(), b"B".to_vec(), b"C".to_vec()] {
        let s0 = trees[0].get(&key).unwrap();
        for t in &trees {
            let s = t.get(&key).unwrap();
            assert_eq!(s.count, s0.count);
            assert_eq!(s.sum, s0.sum);
            assert_eq!(s.min, s0.min);
            assert_eq!(s.max, s0.max);
        }
    }
}

#[test]
fn in_order_walk_is_sorted() {
    let mut tree = Tree::new();
    tree.update(b"delta".to_vec(), 1);
    tree.update(b"alpha".to_vec(), 1);
    tree.update(b"echo".to_vec(), 1);
    tree.update(b"bravo".to_vec(), 1);
    tree.update(b"alpha".to_vec(), 2);
    let keys = tree.keys_in_order();
    assert_eq!(
        keys,
        vec![
            b"alpha".to_vec(),
            b"bravo".to_vec(),
            b"delta".to_vec(),
            b"echo".to_vec()
        ]
    );
}

#[test]
fn prefix_keys_stay_distinct() {
    let mut tree = Tree::new();
    tree.update(b"AB".to_vec(), 100);
    tree.update(b"ABC".to_vec(), 200);
    assert_eq!(tree.keys_in_order().len(), 2);
    assert_eq!(tree.get(&b"AB".to_vec()).unwrap().sum, 100);
    assert_eq!(tree.get(&b"ABC".to_vec()).unwrap().sum, 200);
}

#[test]
fn node_statistics() {
    let mut n = Node::new(b"x".to_vec(), 500);
    assert_eq!(n.state.count, 1);
    n.update_state(-100);
    assert_eq!(n.state.count, 2);
    assert_eq!(n.state.sum, 400);
    assert_eq!(n.state.min, -100);
    assert_eq!(n.state.max, 500);
}

#[test]
fn parse_accepts_well_formed_rows() {
    let r = parse(&b"A;1.0".to_vec()).unwrap();
    assert_eq!(r.key, b"A".to_vec());
    assert_eq!(r.value, 100);

    let r = parse(&b"B;2.5".to_vec()).unwrap();
    assert_eq!(r.value, 250);

    let r = parse(&b"X;-3.25".to_vec()).unwrap();
    assert_eq!(r.value, -325);

    let r = parse(&b"Y;42".to_vec()).unwrap();
    assert_eq!(r.value, 4200);

    // only the field between the first and second separator counts
    let r = parse(&b"Z;7.5;rest".to_vec()).unwrap();
    assert_eq!(r.key, b"Z".to_vec());
    assert_eq!(r.value, 750);
}

#[test]
fn parse_rejects_ill_formed_rows() {
    // no field separator
    assert!(parse(&b"A1.0".to_vec()).is_none());
    // empty or non-numeric value field
    assert!(parse(&b"A;".to_vec()).is_none());
    assert!(parse(&b"A;x2".to_vec()).is_none());
    assert!(parse(&b"A;1.2.3".to_vec()).is_none());
    assert!(parse(&b"A;1.234".to_vec()).is_none());
    assert!(parse(&b"A;.5".to_vec()).is_none());
    assert!(parse(&b"A;-".to_vec()).is_none());
    // oversized key: 33 bytes
    let mut long = vec![b'k'; 33];
    long.extend_from_slice(b";1.0");
    assert!(parse(&long).is_none());
    // a 32-byte key is still fine
    let mut ok = vec![b'k'; 32];
    ok.extend_from_slice(b";1.0");
    assert!(parse(&ok).is_some());
    // too many integer digits
    assert!(parse(&b"A;1234567890123456.0".to_vec()).is_none());
}

#[test]
fn rejected_rows_are_counted_not_lost_silently() {
    let lines = vec![
        b"A;1.0".to_vec(),
        b"broken".to_vec(),
        b"B;2.0".to_vec(),
        b"also;bad.value".to_vec(),
    ];
    let mut tree = Tree::new();
    let dropped = aggregate_lines(&mut tree, &lines);
    assert_eq!(dropped, 2);
    assert_eq!(tree.keys_in_order().len(), 2);
}

//! The aggregation tree: an unbalanced binary search tree over byte keys,
//! backed by a flat growable node arena with integer child references.  Its
//! abstract view is a map from keys to per-key running statistics.

use vstd::prelude::*;

use crate::keycmp::{
    key_cmp, key_lt, lemma_key_lt_asym, lemma_key_lt_irrefl, lemma_key_lt_trans, KeyOrder,
};

verus! {

/// Longest accepted key, in bytes.
pub const MAX_KEY_LEN: usize = 32;

/// Largest magnitude of one recorded value (a fixed-point number, see the
/// parser).
pub const VAL_MAX: i64 = 100_000_000_000_000_000;

/// Per-key statistics in the mathematical model.
pub ghost struct Agg {
    pub count: int,
    pub sum: int,
    pub min: int,
    pub max: int,
}

/// Per-key running statistics: how many values arrived, their sum, their
/// minimum and their maximum.
#[derive(Clone, Copy, Debug)]
pub struct State {
    pub count: u64,
    pub sum: i128,
    pub min: i64,
    pub max: i64,
}

impl View for State {
    type V = Agg;

    open spec fn view(&self) -> Agg {
        Agg {
            count: self.count as int,
            sum: self.sum as int,
            min: self.min as int,
            max: self.max as int,
        }
    }
}

/// The statistics after one first value.
pub open spec fn singleton_agg(v: int) -> Agg {
    Agg { count: 1, sum: v, min: v, max: v }
}

/// The statistics after one more value.
pub open spec fn combine_agg(a: Agg, v: int) -> Agg {
    Agg {
        count: a.count + 1,
        sum: a.sum + v,
        min: if v < a.min {
            v
        } else {
            a.min
        },
        max: if v > a.max {
            v
        } else {
            a.max
        },
    }
}

/// Bounds that keep the executable statistics free of overflow: at most `t`
/// values arrived, each of magnitude at most [`VAL_MAX`].
pub open spec fn state_inv(a: Agg, t: int) -> bool {
    &&& 1 <= a.count <= t
    &&& -a.count * VAL_MAX <= a.sum <= a.count * VAL_MAX
    &&& -VAL_MAX <= a.min <= VAL_MAX
    &&& -VAL_MAX <= a.max <= VAL_MAX
}

/// One tree node: a key, its statistics, and optional arena indices of the
/// children.
pub struct Node {
    pub name: Vec<u8>,
    pub state: State,
    pub l_child: Option<usize>,
    pub r_child: Option<usize>,
}

impl Node {
    /// A fresh leaf for a key's first value.
    pub fn new(name: Vec<u8>, value: i64) -> (r: Self)
        ensures
            r.name@ == name@,
            r.state@ == singleton_agg(value as int),
            r.l_child is None,
            r.r_child is None,
    {
        Node {
            name,
            state: State { count: 1, sum: value as i128, min: value, max: value },
            l_child: None,
            r_child: None,
        }
    }

    /// Folds one more value into this node's statistics.
    pub fn update_state(&mut self, num: i64)
        requires
            old(self).state@.count < u64::MAX,
            -VAL_MAX <= num <= VAL_MAX,
            -old(self).state@.count * VAL_MAX <= old(self).state@.sum,
            old(self).state@.sum <= old(self).state@.count * VAL_MAX,
        ensures
            final(self).state@ == combine_agg(old(self).state@, num as int),
            final(self).name == old(self).name,
            final(self).l_child == old(self).l_child,
            final(self).r_child == old(self).r_child,
    {
        self.state.count = self.state.count + 1;
        self.state.sum = self.state.sum + (num as i128);
        if num > self.state.max {
            self.state.max = num;
        }
        if num < self.state.min {
            self.state.min = num;
        }
    }
}

/// Copies a byte vector.
fn clone_bytes(v: &Vec<u8>) -> (r: Vec<u8>)
    ensures
        r@ == v@,
{
    let mut r: Vec<u8> = Vec::new();
    let mut i: usize = 0;
    while i < v.len()
        invariant
            0 <= i <= v@.len(),
            r@ == v@.take(i as int),
        decreases v@.len() - i,
    {
        r.push(v[i]);
        proof {
            assert(v@.take(i + 1) =~= v@.take(i as int).push(v@[i as int]));
        }
        i += 1;
    }
    proof {
        assert(v@.take(v@.len() as int) =~= v@);
    }
    r
}

/// Where the search for key `k`, started at arena index `i`, ends: the index
/// of the node holding `k`, or nothing when the search runs into a missing
/// child.
pub open spec fn found(nodes: Seq<Node>, i: int, k: Seq<u8>) -> Option<int>
    decreases nodes.len() - i,
{
    if !(0 <= i < nodes.len()) {
        None
    } else {
        let n = nodes[i];
        if k == n.name@ {
            Some(i)
        } else if key_lt(k, n.name@) {
            match n.l_child {
                Some(c) => if i < c && c <= nodes.len() {
                    found(nodes, c as int, k)
                } else {
                    None
                },
                None => None,
            }
        } else {
            match n.r_child {
                Some(c) => if i < c && c <= nodes.len() {
                    found(nodes, c as int, k)
                } else {
                    None
                },
                None => None,
            }
        }
    }
}

/// Does the search for `k` started at `i` pass through index `j`?
pub open spec fn on_path(nodes: Seq<Node>, i: int, j: int, k: Seq<u8>) -> bool
    decreases nodes.len() - i,
{
    if !(0 <= i < nodes.len()) {
        false
    } else if i == j {
        true
    } else {
        let n = nodes[i];
        if k == n.name@ {
            false
        } else if key_lt(k, n.name@) {
            match n.l_child {
                Some(c) => i < c && c <= nodes.len() && on_path(nodes, c as int, j, k),
                None => false,
            }
        } else {
            match n.r_child {
                Some(c) => i < c && c <= nodes.len() && on_path(nodes, c as int, j, k),
                None => false,
            }
        }
    }
}

/// Is `k` strictly inside the open key window (`lo`, `hi`)?
pub open spec fn in_window(lo: Option<Seq<u8>>, hi: Option<Seq<u8>>, k: Seq<u8>) -> bool {
    &&& match lo {
        Some(l) => key_lt(l, k),
        None => true,
    }
    &&& match hi {
        Some(h) => key_lt(k, h),
        None => true,
    }
}

/// The search-tree ordering at `i`: the node's key lies strictly inside its
/// window, every key under its left child sits below it, every key under its
/// right child above it.
pub open spec fn subtree_wf(
    nodes: Seq<Node>,
    i: int,
    lo: Option<Seq<u8>>,
    hi: Option<Seq<u8>>,
) -> bool
    decreases nodes.len() - i,
{
    0 <= i < nodes.len() && {
        let n = nodes[i];
        &&& in_window(lo, hi, n.name@)
        &&& match n.l_child {
            Some(c) => i < c && c < nodes.len() && subtree_wf(nodes, c as int, lo, Some(n.name@)),
            None => true,
        }
        &&& match n.r_child {
            Some(c) => i < c && c < nodes.len() && subtree_wf(nodes, c as int, Some(n.name@), hi),
            None => true,
        }
    }
}

/// Do two nodes agree on everything the tree shape depends on?
pub open spec fn same_shape(a: Node, b: Node) -> bool {
    a.name@ == b.name@ && a.l_child == b.l_child && a.r_child == b.r_child
}

/// The search-tree ordering at `i` survives an edit that changes the shape
/// of no node whose key lies inside the window.
proof fn lemma_subtree_frame(
    nodesa: Seq<Node>,
    nodesb: Seq<Node>,
    i: int,
    lo: Option<Seq<u8>>,
    hi: Option<Seq<u8>>,
)
    requires
        subtree_wf(nodesa, i, lo, hi),
        nodesb.len() >= nodesa.len(),
        forall|t: int|
            0 <= t < nodesa.len() ==> (same_shape(nodesb[t], nodesa[t]) || !in_window(
                lo,
                hi,
                (#[trigger] nodesa[t]).name@,
            )),
    ensures
        subtree_wf(nodesb, i, lo, hi),
    decreases nodesa.len() - i,
{
    let n = nodesa[i];
    assert(same_shape(nodesb[i], n));
    match n.l_child {
        Some(c) => {
            assert forall|t: int|
                0 <= t < nodesa.len() implies (same_shape(nodesb[t], nodesa[t]) || !in_window(
                lo,
                Some(n.name@),
                (#[trigger] nodesa[t]).name@,
            )) by {
                if in_window(lo, Some(n.name@), nodesa[t].name@) {
                    match hi {
                        Some(h) => {
                            lemma_key_lt_trans(nodesa[t].name@, n.name@, h);
                        },
                        None => {},
                    }
                    assert(in_window(lo, hi, nodesa[t].name@));
                }
            }
            lemma_subtree_frame(nodesa, nodesb, c as int, lo, Some(n.name@));
        },
        None => {},
    }
    match n.r_child {
        Some(c) => {
            assert forall|t: int|
                0 <= t < nodesa.len() implies (same_shape(nodesb[t], nodesa[t]) || !in_window(
                Some(n.name@),
                hi,
                (#[trigger] nodesa[t]).name@,
            )) by {
                if in_window(Some(n.name@), hi, nodesa[t].name@) {
                    match lo {
                        Some(l) => {
                            lemma_key_lt_trans(l, n.name@, nodesa[t].name@);
                        },
                        None => {},
                    }
                    assert(in_window(lo, hi, nodesa[t].name@));
                }
            }
            lemma_subtree_frame(nodesa, nodesb, c as int, Some(n.name@), hi);
        },
        None => {},
    }
}

/// Arena well-formedness: keys are bounded, children point strictly forward,
/// and every node's key is found by searching from the root.
pub open spec fn nodes_wf(nodes: Seq<Node>) -> bool {
    &&& forall|i: int|
        0 <= i < nodes.len() ==> (#[trigger] nodes[i]).name@.len() <= MAX_KEY_LEN
    &&& forall|i: int|
        0 <= i < nodes.len() ==> match (#[trigger] nodes[i]).l_child {
            Some(c) => i < c && c < nodes.len(),
            None => true,
        }
    &&& forall|i: int|
        0 <= i < nodes.len() ==> match (#[trigger] nodes[i]).r_child {
            Some(c) => i < c && c < nodes.len(),
            None => true,
        }
    &&& forall|i: int|
        0 <= i < nodes.len() ==> found(nodes, 0, (#[trigger] nodes[i]).name@) == Some(i)
}

/// No two arena nodes share a key.
pub open spec fn distinct_names(nodes: Seq<Node>) -> bool {
    forall|i: int, j: int|
        0 <= i < nodes.len() && 0 <= j < nodes.len() && i != j ==> (#[trigger] nodes[i]).name@
            != (#[trigger] nodes[j]).name@
}

/// Does some arena node hold key `k`?
pub open spec fn has_key(nodes: Seq<Node>, k: Seq<u8>) -> bool {
    exists|i: int| 0 <= i < nodes.len() && (#[trigger] nodes[i]).name@ == k
}

/// The statistics of the arena node holding key `k`.
pub open spec fn state_at(nodes: Seq<Node>, k: Seq<u8>) -> Agg {
    (nodes[choose|i: int| 0 <= i < nodes.len() && (#[trigger] nodes[i]).name@ == k]).state@
}

/// The arena as a map from keys to statistics.
pub open spec fn as_map(nodes: Seq<Node>) -> Map<Seq<u8>, Agg> {
    Map::new(|k: Seq<u8>| has_key(nodes, k), |k: Seq<u8>| state_at(nodes, k))
}

/// What one recorded value does to the map: a key's first value opens a
/// singleton entry, a later value is folded into the existing entry.
pub open spec fn spec_update(m: Map<Seq<u8>, Agg>, k: Seq<u8>, v: int) -> Map<Seq<u8>, Agg> {
    if m.dom().contains(k) {
        m.insert(k, combine_agg(m[k], v))
    } else {
        m.insert(k, singleton_agg(v))
    }
}

/// Per-node statistics bounds over the whole arena.
pub open spec fn states_below(nodes: Seq<Node>, t: int) -> bool {
    forall|i: int| 0 <= i < nodes.len() ==> state_inv((#[trigger] nodes[i]).state@, t)
}

proof fn lemma_wf_distinct(nodes: Seq<Node>)
    requires
        nodes_wf(nodes),
    ensures
        distinct_names(nodes),
{
    assert forall|i: int, j: int|
        0 <= i < nodes.len() && 0 <= j < nodes.len() && i != j implies (#[trigger] nodes[i]).name@
        != (#[trigger] nodes[j]).name@ by {
        if nodes[i].name@ == nodes[j].name@ {
            assert(found(nodes, 0, nodes[i].name@) == Some(i));
            assert(found(nodes, 0, nodes[j].name@) == Some(j));
        }
    }
}

proof fn lemma_found_none_absent(nodes: Seq<Node>, k: Seq<u8>)
    requires
        nodes_wf(nodes),
        found(nodes, 0, k) is None,
    ensures
        !has_key(nodes, k),
{
    if has_key(nodes, k) {
        let i = choose|i: int| 0 <= i < nodes.len() && (#[trigger] nodes[i]).name@ == k;
        assert(found(nodes, 0, k) == Some(i));
    }
}

/// Searching in `nodesb` follows the same path the search takes in `nodesa`,
/// as long as the two arenas agree on keys and on the children of every node
/// before the path's end `j`.
proof fn lemma_on_path_found(nodesa: Seq<Node>, nodesb: Seq<Node>, i: int, j: int, k: Seq<u8>)
    requires
        on_path(nodesa, i, j, k),
        nodesb.len() >= nodesa.len(),
        forall|t: int|
            0 <= t < nodesa.len() ==> (#[trigger] nodesb[t]).name@ == nodesa[t].name@,
        forall|t: int|
            0 <= t < nodesa.len() && t != j ==> (#[trigger] nodesb[t]).l_child
                == nodesa[t].l_child && nodesb[t].r_child == nodesa[t].r_child,
    ensures
        found(nodesb, i, k) == found(nodesb, j, k),
    decreases nodesa.len() - i,
{
    if i == j {
    } else {
        let n = nodesa[i];
        if key_lt(k, n.name@) {
            let c = n.l_child->Some_0;
            lemma_on_path_found(nodesa, nodesb, c as int, j, k);
        } else {
            let c = n.r_child->Some_0;
            lemma_on_path_found(nodesa, nodesb, c as int, j, k);
        }
    }
}

/// Extending a search path by one child step.
proof fn lemma_on_path_extend(nodes: Seq<Node>, i: int, j: int, c: int, k: Seq<u8>)
    requires
        on_path(nodes, i, j, k),
        0 <= j < nodes.len(),
        k != nodes[j].name@,
        if key_lt(k, nodes[j].name@) {
            nodes[j].l_child == Some(c as usize)
        } else {
            nodes[j].r_child == Some(c as usize)
        },
        j < c < nodes.len(),
        c <= usize::MAX,
    ensures
        on_path(nodes, i, c, k),
    decreases nodes.len() - i,
{
    if i == j {
        assert(on_path(nodes, c, c, k));
    } else {
        let n = nodes[i];
        if key_lt(k, n.name@) {
            lemma_on_path_extend(nodes, n.l_child->Some_0 as int, j, c, k);
        } else {
            lemma_on_path_extend(nodes, n.r_child->Some_0 as int, j, c, k);
        }
    }
}

/// A successful search still succeeds, with the same answer, after an edit
/// that keeps every key, keeps every child pointer except at one node `p`,
/// and at `p` only fills in a previously missing child.
proof fn lemma_found_preserved(
    nodesa: Seq<Node>,
    nodesb: Seq<Node>,
    p: int,
    i: int,
    k: Seq<u8>,
    j: int,
)
    requires
        found(nodesa, i, k) == Some(j),
        nodesb.len() >= nodesa.len(),
        0 <= p < nodesa.len(),
        forall|t: int|
            0 <= t < nodesa.len() ==> (#[trigger] nodesb[t]).name@ == nodesa[t].name@,
        forall|t: int|
            0 <= t < nodesa.len() && t != p ==> (#[trigger] nodesb[t]).l_child
                == nodesa[t].l_child && nodesb[t].r_child == nodesa[t].r_child,
        nodesb[p].l_child == nodesa[p].l_child || nodesa[p].l_child is None,
        nodesb[p].r_child == nodesa[p].r_child || nodesa[p].r_child is None,
    ensures
        found(nodesb, i, k) == Some(j),
    decreases nodesa.len() - i,
{
    let n = nodesa[i];
    if k == n.name@ {
    } else if key_lt(k, n.name@) {
        let c = n.l_child->Some_0;
        assert(nodesb[i].l_child == Some(c));
        lemma_found_preserved(nodesa, nodesb, p, c as int, k, j);
    } else {
        let c = n.r_child->Some_0;
        assert(nodesb[i].r_child == Some(c));
        lemma_found_preserved(nodesa, nodesb, p, c as int, k, j);
    }
}

/// Replacing one node's statistics updates the map at that node's key.
proof fn lemma_as_map_set_state(nodesa: Seq<Node>, nodesb: Seq<Node>, j: int)
    requires
        distinct_names(nodesa),
        0 <= j < nodesa.len(),
        nodesb.len() == nodesa.len(),
        forall|t: int|
            0 <= t < nodesa.len() ==> (#[trigger] nodesb[t]).name@ == nodesa[t].name@,
        forall|t: int|
            0 <= t < nodesa.len() && t != j ==> (#[trigger] nodesb[t]).state@
                == nodesa[t].state@,
    ensures
        as_map(nodesb) == as_map(nodesa).insert(nodesa[j].name@, nodesb[j].state@),
        as_map(nodesa).dom().contains(nodesa[j].name@),
        as_map(nodesa)[nodesa[j].name@] == nodesa[j].state@,
{
    assert(has_key(nodesa, nodesa[j].name@));
    let cj = choose|i: int| 0 <= i < nodesa.len() && (#[trigger] nodesa[i]).name@
        == nodesa[j].name@;
    assert(cj == j);
    assert(as_map(nodesb) =~= as_map(nodesa).insert(nodesa[j].name@, nodesb[j].state@)) by {
        assert forall|k: Seq<u8>| has_key(nodesb, k) <==> has_key(nodesa, k) by {
            if has_key(nodesb, k) {
                let i = choose|i: int|
                    0 <= i < nodesb.len() && (#[trigger] nodesb[i]).name@ == k;
                assert(nodesa[i].name@ == k);
            }
            if has_key(nodesa, k) {
                let i = choose|i: int|
                    0 <= i < nodesa.len() && (#[trigger] nodesa[i]).name@ == k;
                assert(nodesb[i].name@ == k);
            }
        }
        assert forall|k: Seq<u8>| has_key(nodesb, k) implies state_at(nodesb, k) == (if k
            == nodesa[j].name@ {
            nodesb[j].state@
        } else {
            state_at(nodesa, k)
        }) by {
            let ib = choose|i: int| 0 <= i < nodesb.len() && (#[trigger] nodesb[i]).name@ == k;
            let ia = choose|i: int| 0 <= i < nodesa.len() && (#[trigger] nodesa[i]).name@ == k;
            assert(nodesa[ib].name@ == k);
            assert(ia == ib);
            if k == nodesa[j].name@ {
                assert(ib == j);
            }
        }
    }
}

/// Appending a node with a fresh key, while keeping every old key and
/// statistic, inserts a new map entry.
proof fn lemma_as_map_link_push(nodesa: Seq<Node>, nodesb: Seq<Node>)
    requires
        distinct_names(nodesa),
        nodesb.len() == nodesa.len() + 1,
        !has_key(nodesa, nodesb[nodesa.len() as int].name@),
        forall|t: int|
            0 <= t < nodesa.len() ==> (#[trigger] nodesb[t]).name@ == nodesa[t].name@,
        forall|t: int|
            0 <= t < nodesa.len() ==> (#[trigger] nodesb[t]).state@ == nodesa[t].state@,
    ensures
        as_map(nodesb) == as_map(nodesa).insert(
            nodesb[nodesa.len() as int].name@,
            nodesb[nodesa.len() as int].state@,
        ),
        !as_map(nodesa).dom().contains(nodesb[nodesa.len() as int].name@),
{
    let nn = nodesb[nodesa.len() as int];
    assert(as_map(nodesb) =~= as_map(nodesa).insert(nn.name@, nn.state@)) by {
        assert forall|k: Seq<u8>| has_key(nodesb, k) <==> (has_key(nodesa, k) || k
            == nn.name@) by {
            if has_key(nodesb, k) {
                let i = choose|i: int|
                    0 <= i < nodesb.len() && (#[trigger] nodesb[i]).name@ == k;
                if i < nodesa.len() {
                    assert(nodesa[i].name@ == k);
                }
            }
            if has_key(nodesa, k) {
                let i = choose|i: int|
                    0 <= i < nodesa.len() && (#[trigger] nodesa[i]).name@ == k;
                assert(nodesb[i].name@ == k);
            }
            if k == nn.name@ {
                assert(nodesb[nodesa.len() as int].name@ == k);
            }
        }
        assert forall|k: Seq<u8>| has_key(nodesb, k) implies state_at(nodesb, k) == (if k
            == nn.name@ {
            nn.state@
        } else {
            state_at(nodesa, k)
        }) by {
            let ib = choose|i: int| 0 <= i < nodesb.len() && (#[trigger] nodesb[i]).name@ == k;
            if k == nn.name@ {
                assert(ib == nodesa.len()) by {
                    if ib < nodesa.len() {
                        assert(nodesa[ib].name@ == k);
                    }
                }
            } else {
                assert(ib < nodesa.len());
                let ia = choose|i: int|
                    0 <= i < nodesa.len() && (#[trigger] nodesa[i]).name@ == k;
                assert(nodesa[ib].name@ == k);
                assert(ia == ib);
            }
        }
    }
}

/// The aggregation tree: a node arena with the root at index 0, plus the
/// count of values recorded so far.
pub struct Tree {
    nodes: Vec<Node>,
    total: u64,
}

impl View for Tree {
    type V = Map<Seq<u8>, Agg>;

    closed spec fn view(&self) -> Map<Seq<u8>, Agg> {
        as_map(self.nodes@)
    }
}

impl Tree {
    /// The tree's internal invariant.
    pub closed spec fn inv(&self) -> bool {
        &&& nodes_wf(self.nodes@)
        &&& states_below(self.nodes@, self.total as int)
        &&& self.nodes@.len() > 0 ==> subtree_wf(self.nodes@, 0, None, None)
    }

    /// How many values were recorded so far.
    pub closed spec fn total_updates(&self) -> int {
        self.total as int
    }

    /// How many distinct keys the tree holds.
    pub closed spec fn size(&self) -> int {
        self.nodes@.len() as int
    }

    /// An empty tree.
    pub fn new() -> (r: Self)
        ensures
            r.inv(),
            r@ == Map::<Seq<u8>, Agg>::empty(),
            r.total_updates() == 0,
            r.size() == 0,
    {
        let t = Tree { nodes: Vec::new(), total: 0 };
        proof {
            assert(t@ =~= Map::<Seq<u8>, Agg>::empty());
        }
        t
    }

    /// Folds one `(key, value)` row into the tree: a new key gets a fresh
    /// node with singleton statistics, an existing key has its node's
    /// statistics combined in place — never a second node.
    pub fn update(&mut self, name: Vec<u8>, value: i64)
        requires
            old(self).inv(),
            name@.len() <= MAX_KEY_LEN,
            -VAL_MAX <= value <= VAL_MAX,
            old(self).total_updates() < u64::MAX as int,
        ensures
            final(self).inv(),
            final(self)@ == spec_update(old(self)@, name@, value as int),
            final(self).total_updates() == old(self).total_updates() + 1,
            old(self)@.dom().contains(name@) ==> final(self).size() == old(self).size(),
            !old(self)@.dom().contains(name@) ==> final(self).size() == old(self).size() + 1,
    {
        self.total = self.total + 1;
        let ghost nodes0 = self.nodes@;
        if self.nodes.len() == 0 {
            let n = Node::new(name, value);
            self.nodes.push(n);
            proof {
                let nodes1 = self.nodes@;
                assert(!has_key(nodes0, nodes1[0].name@));
                assert(found(nodes1, 0, nodes1[0].name@) == Some(0int));
                assert(nodes_wf(nodes1));
                assert(subtree_wf(nodes1, 0, None, None));
                assert(as_map(nodes1) =~= spec_update(as_map(nodes0), nodes1[0].name@,
                    value as int)) by {
                    assert forall|k: Seq<u8>| has_key(nodes1, k) <==> k == nodes1[0].name@ by {
                        if has_key(nodes1, k) {
                            let i = choose|i: int|
                                0 <= i < nodes1.len() && (#[trigger] nodes1[i]).name@ == k;
                            assert(i == 0);
                        }
                    }
                    assert(!has_key(nodes0, nodes1[0].name@));
                    assert(!as_map(nodes0).dom().contains(nodes1[0].name@));
                }
            }
        } else {
            proof {
                assert(on_path(self.nodes@, 0, 0, name@));
            }
            self.update_node(0, &name, value, Ghost(None), Ghost(None));
        }
    }

    fn update_node(
        &mut self,
        idx: usize,
        name: &Vec<u8>,
        value: i64,
        Ghost(lo): Ghost<Option<Seq<u8>>>,
        Ghost(hi): Ghost<Option<Seq<u8>>>,
    )
        requires
            nodes_wf(old(self).nodes@),
            states_below(old(self).nodes@, old(self).total as int - 1),
            0 < old(self).total,
            idx < old(self).nodes@.len(),
            on_path(old(self).nodes@, 0, idx as int, name@),
            subtree_wf(old(self).nodes@, idx as int, lo, hi),
            in_window(lo, hi, name@),
            name@.len() <= MAX_KEY_LEN,
            -VAL_MAX <= value <= VAL_MAX,
        ensures
            nodes_wf(final(self).nodes@),
            subtree_wf(final(self).nodes@, idx as int, lo, hi),
            forall|t: int|
                0 <= t < old(self).nodes@.len() ==> (same_shape(
                    final(self).nodes@[t],
                    old(self).nodes@[t],
                ) || in_window(lo, hi, (#[trigger] old(self).nodes@[t]).name@)),
            states_below(final(self).nodes@, final(self).total as int),
            final(self).total == old(self).total,
            as_map(final(self).nodes@) == spec_update(
                as_map(old(self).nodes@),
                name@,
                value as int,
            ),
            has_key(old(self).nodes@, name@) ==> final(self).nodes@.len() == old(
                self,
            ).nodes@.len(),
            !has_key(old(self).nodes@, name@) ==> final(self).nodes@.len() == old(
                self,
            ).nodes@.len() + 1,
        decreases old(self).nodes@.len() - idx,
    {
        let ghost nodes0 = self.nodes@;
        proof {
            lemma_wf_distinct(nodes0);
        }
        match key_cmp(name, &self.nodes[idx].name) {
            KeyOrder::Equal => {
                proof {
                    lemma_on_path_found(nodes0, nodes0, 0, idx as int, name@);
                    assert(found(nodes0, idx as int, name@) == Some(idx as int));
                    assert(has_key(nodes0, name@));
                }
                let mut nd = Node {
                    name: clone_bytes(&self.nodes[idx].name),
                    state: self.nodes[idx].state,
                    l_child: self.nodes[idx].l_child,
                    r_child: self.nodes[idx].r_child,
                };
                nd.update_state(value);
                self.nodes.set(idx, nd);
                proof {
                    let nodes1 = self.nodes@;
                    assert forall|j: int| 0 <= j < nodes1.len() implies found(
                        nodes1,
                        0,
                        (#[trigger] nodes1[j]).name@,
                    ) == Some(j) by {
                        assert(nodes1[j].name@ == nodes0[j].name@);
                        lemma_found_preserved(nodes0, nodes1, idx as int, 0, nodes1[j].name@, j);
                    }
                    assert(nodes_wf(nodes1));
                    lemma_as_map_set_state(nodes0, nodes1, idx as int);
                    assert(as_map(nodes0)[name@] == nodes0[idx as int].state@);
                    assert(as_map(nodes1) == spec_update(as_map(nodes0), name@, value as int));
                    assert(forall|t: int|
                        0 <= t < nodes0.len() ==> same_shape(
                            nodes1[t],
                            #[trigger] nodes0[t],
                        ));
                    lemma_subtree_frame(nodes0, nodes1, idx as int, lo, hi);
                }
            },
            KeyOrder::Less => {
                proof {
                    lemma_key_lt_asym(name@, self.nodes@[idx as int].name@);
                }
                match self.nodes[idx].l_child {
                    Some(c) => {
                        let ghost ki = nodes0[idx as int].name@;
                        proof {
                            lemma_on_path_extend(nodes0, 0, idx as int, c as int, name@);
                            assert(subtree_wf(nodes0, c as int, lo, Some(ki)));
                            assert(in_window(lo, Some(ki), name@));
                        }
                        self.update_node(c, name, value, Ghost(lo), Ghost(Some(ki)));
                        proof {
                            self.rejoin_proof(nodes0, idx as int, c as int, lo, hi, true);
                        }
                    },
                    None => {
                        proof {
                            assert(found(nodes0, idx as int, name@) is None);
                            lemma_on_path_found(nodes0, nodes0, 0, idx as int, name@);
                            lemma_found_none_absent(nodes0, name@);
                        }
                        let new_idx = self.nodes.len();
                        let parent = Node {
                            name: clone_bytes(&self.nodes[idx].name),
                            state: self.nodes[idx].state,
                            l_child: Some(new_idx),
                            r_child: self.nodes[idx].r_child,
                        };
                        self.nodes.set(idx, parent);
                        self.nodes.push(Node::new(clone_bytes(name), value));
                        proof {
                            self.link_proof(nodes0, idx as int, new_idx, name@, value as int, true);
                            self.link_order_proof(nodes0, idx as int, new_idx, name@, lo, hi, true);
                        }
                    },
                }
            },
            KeyOrder::Greater => {
                proof {
                    lemma_key_lt_asym(self.nodes@[idx as int].name@, name@);
                }
                match self.nodes[idx].r_child {
                    Some(c) => {
                        let ghost ki = nodes0[idx as int].name@;
                        proof {
                            lemma_on_path_extend(nodes0, 0, idx as int, c as int, name@);
                            assert(subtree_wf(nodes0, c as int, Some(ki), hi));
                            assert(in_window(Some(ki), hi, name@));
                        }
                        self.update_node(c, name, value, Ghost(Some(ki)), Ghost(hi));
                        proof {
                            self.rejoin_proof(nodes0, idx as int, c as int, lo, hi, false);
                        }
                    },
                    None => {
                        proof {
                            assert(found(nodes0, idx as int, name@) is None);
                            lemma_on_path_found(nodes0, nodes0, 0, idx as int, name@);
                            lemma_found_none_absent(nodes0, name@);
                        }
                        let new_idx = self.nodes.len();
                        let parent = Node {
                            name: clone_bytes(&self.nodes[idx].name),
                            state: self.nodes[idx].state,
                            l_child: self.nodes[idx].l_child,
                            r_child: Some(new_idx),
                        };
                        self.nodes.set(idx, parent);
                        self.nodes.push(Node::new(clone_bytes(name), value));
                        proof {
                            self.link_proof(nodes0, idx as int, new_idx, name@, value as int, false);
                            self.link_order_proof(nodes0, idx as int, new_idx, name@, lo, hi, false);
                        }
                    },
                }
            },
        }
    }

    /// Shared reasoning for linking a fresh leaf at index `ni` under node
    /// `p`.
    proof fn link_proof(&self, nodes0: Seq<Node>, p: int, ni: usize, k: Seq<u8>, v: int, left: bool)
        requires
            nodes_wf(nodes0),
            distinct_names(nodes0),
            !has_key(nodes0, k),
            on_path(nodes0, 0, p, k),
            0 <= p < nodes0.len(),
            ni == nodes0.len(),
            k != nodes0[p].name@,
            left == key_lt(k, nodes0[p].name@),
            self.nodes@.len() == nodes0.len() + 1,
            forall|t: int|
                0 <= t < nodes0.len() ==> (#[trigger] self.nodes@[t]).name@ == nodes0[t].name@,
            forall|t: int|
                0 <= t < nodes0.len() ==> (#[trigger] self.nodes@[t]).state@ == nodes0[t].state@,
            forall|t: int|
                0 <= t < nodes0.len() && t != p ==> (#[trigger] self.nodes@[t]).l_child
                    == nodes0[t].l_child && self.nodes@[t].r_child == nodes0[t].r_child,
            left ==> nodes0[p].l_child is None && self.nodes@[p].l_child == Some(ni)
                && self.nodes@[p].r_child == nodes0[p].r_child,
            !left ==> nodes0[p].r_child is None && self.nodes@[p].r_child == Some(ni)
                && self.nodes@[p].l_child == nodes0[p].l_child,
            self.nodes@[ni as int].name@ == k,
            self.nodes@[ni as int].state@ == singleton_agg(v),
            self.nodes@[ni as int].l_child is None,
            self.nodes@[ni as int].r_child is None,
            k.len() <= MAX_KEY_LEN,
        ensures
            nodes_wf(self.nodes@),
            as_map(self.nodes@) == spec_update(as_map(nodes0), k, v),
    {
        let nodes1 = self.nodes@;
        assert(nodes1[p].name@ == nodes0[p].name@);
        assert(found(nodes1, ni as int, k) == Some(ni as int));
        assert(found(nodes1, p, k) == Some(ni as int)) by {
            if left {
                assert(nodes1[p].l_child == Some(ni));
            } else {
                assert(nodes1[p].r_child == Some(ni));
            }
        }
        assert forall|j: int| 0 <= j < nodes1.len() implies found(
            nodes1,
            0,
            (#[trigger] nodes1[j]).name@,
        ) == Some(j) by {
            if j < ni as int {
                assert(nodes1[j].name@ == nodes0[j].name@);
                lemma_found_preserved(nodes0, nodes1, p, 0, nodes1[j].name@, j);
            } else {
                lemma_on_path_found(nodes0, nodes1, 0, p, k);
            }
        }
        assert(nodes_wf(nodes1));
        lemma_as_map_link_push(nodes0, nodes1);
        assert(as_map(nodes1) == spec_update(as_map(nodes0), k, v));
    }

    /// Shared reasoning for re-establishing the search-tree ordering at `p`
    /// after a recursive update inside the child `c`.
    proof fn rejoin_proof(
        &self,
        nodes0: Seq<Node>,
        p: int,
        c: int,
        lo: Option<Seq<u8>>,
        hi: Option<Seq<u8>>,
        left: bool,
    )
        requires
            0 <= p < nodes0.len(),
            subtree_wf(nodes0, p, lo, hi),
            left ==> nodes0[p].l_child == Some(c as usize),
            !left ==> nodes0[p].r_child == Some(c as usize),
            p < c <= usize::MAX,
            self.nodes@.len() >= nodes0.len(),
            subtree_wf(
                self.nodes@,
                c,
                if left {
                    lo
                } else {
                    Some(nodes0[p].name@)
                },
                if left {
                    Some(nodes0[p].name@)
                } else {
                    hi
                },
            ),
            forall|t: int|
                0 <= t < nodes0.len() ==> (same_shape(self.nodes@[t], nodes0[t]) || in_window(
                    if left {
                        lo
                    } else {
                        Some(nodes0[p].name@)
                    },
                    if left {
                        Some(nodes0[p].name@)
                    } else {
                        hi
                    },
                    (#[trigger] nodes0[t]).name@,
                )),
        ensures
            subtree_wf(self.nodes@, p, lo, hi),
            forall|t: int|
                0 <= t < nodes0.len() ==> (same_shape(self.nodes@[t], nodes0[t]) || in_window(
                    lo,
                    hi,
                    (#[trigger] nodes0[t]).name@,
                )),
    {
        let nodes1 = self.nodes@;
        let ki = nodes0[p].name@;
        let clo = if left {
            lo
        } else {
            Some(ki)
        };
        let chi = if left {
            Some(ki)
        } else {
            hi
        };
        lemma_key_lt_irrefl(ki);
        assert(!in_window(clo, chi, ki));
        assert(same_shape(nodes1[p], nodes0[p]));
        if left {
            match nodes0[p].r_child {
                Some(c2) => {
                    assert forall|t: int|
                        0 <= t < nodes0.len() implies (same_shape(nodes1[t], nodes0[t])
                        || !in_window(Some(ki), hi, (#[trigger] nodes0[t]).name@)) by {
                        if !same_shape(nodes1[t], nodes0[t]) {
                            assert(in_window(lo, Some(ki), nodes0[t].name@));
                            lemma_key_lt_asym(nodes0[t].name@, ki);
                        }
                    }
                    lemma_subtree_frame(nodes0, nodes1, c2 as int, Some(ki), hi);
                },
                None => {},
            }
        } else {
            match nodes0[p].l_child {
                Some(c2) => {
                    assert forall|t: int|
                        0 <= t < nodes0.len() implies (same_shape(nodes1[t], nodes0[t])
                        || !in_window(lo, Some(ki), (#[trigger] nodes0[t]).name@)) by {
                        if !same_shape(nodes1[t], nodes0[t]) {
                            assert(in_window(Some(ki), hi, nodes0[t].name@));
                            lemma_key_lt_asym(ki, nodes0[t].name@);
                        }
                    }
                    lemma_subtree_frame(nodes0, nodes1, c2 as int, lo, Some(ki));
                },
                None => {},
            }
        }
        assert(subtree_wf(nodes1, p, lo, hi));
        assert forall|t: int|
            0 <= t < nodes0.len() implies (same_shape(nodes1[t], nodes0[t]) || in_window(
            lo,
            hi,
            (#[trigger] nodes0[t]).name@,
        )) by {
            if !same_shape(nodes1[t], nodes0[t]) {
                assert(in_window(clo, chi, nodes0[t].name@));
                if left {
                    match hi {
                        Some(h) => {
                            lemma_key_lt_trans(nodes0[t].name@, ki, h);
                        },
                        None => {},
                    }
                } else {
                    match lo {
                        Some(l) => {
                            lemma_key_lt_trans(l, ki, nodes0[t].name@);
                        },
                        None => {},
                    }
                }
            }
        }
    }

    /// Shared reasoning for the search-tree ordering after linking a fresh
    /// leaf at index `ni` under node `p`.
    proof fn link_order_proof(
        &self,
        nodes0: Seq<Node>,
        p: int,
        ni: usize,
        k: Seq<u8>,
        lo: Option<Seq<u8>>,
        hi: Option<Seq<u8>>,
        left: bool,
    )
        requires
            0 <= p < nodes0.len(),
            ni == nodes0.len(),
            subtree_wf(nodes0, p, lo, hi),
            in_window(lo, hi, k),
            left ==> key_lt(k, nodes0[p].name@) && nodes0[p].l_child is None,
            !left ==> key_lt(nodes0[p].name@, k) && nodes0[p].r_child is None,
            self.nodes@.len() == nodes0.len() + 1,
            forall|t: int| 0 <= t < nodes0.len() && t != p ==> self.nodes@[t] == nodes0[t],
            self.nodes@[p].name@ == nodes0[p].name@,
            left ==> self.nodes@[p].l_child == Some(ni) && self.nodes@[p].r_child == nodes0[
                p
            ].r_child,
            !left ==> self.nodes@[p].r_child == Some(ni) && self.nodes@[p].l_child == nodes0[
                p
            ].l_child,
            self.nodes@[ni as int].name@ == k,
            self.nodes@[ni as int].l_child is None,
            self.nodes@[ni as int].r_child is None,
        ensures
            subtree_wf(self.nodes@, p, lo, hi),
            forall|t: int|
                0 <= t < nodes0.len() ==> (same_shape(self.nodes@[t], nodes0[t]) || in_window(
                    lo,
                    hi,
                    (#[trigger] nodes0[t]).name@,
                )),
    {
        let nodes1 = self.nodes@;
        let ki = nodes0[p].name@;
        lemma_key_lt_irrefl(ki);
        let clo = if left {
            lo
        } else {
            Some(ki)
        };
        let chi = if left {
            Some(ki)
        } else {
            hi
        };
        assert(subtree_wf(nodes1, ni as int, clo, chi));
        if left {
            match nodes0[p].r_child {
                Some(c2) => {
                    assert forall|t: int|
                        0 <= t < nodes0.len() implies (same_shape(nodes1[t], nodes0[t])
                        || !in_window(Some(ki), hi, (#[trigger] nodes0[t]).name@)) by {
                        if !same_shape(nodes1[t], nodes0[t]) {
                            assert(t == p);
                        }
                    }
                    lemma_subtree_frame(nodes0, nodes1, c2 as int, Some(ki), hi);
                },
                None => {},
            }
        } else {
            match nodes0[p].l_child {
                Some(c2) => {
                    assert forall|t: int|
                        0 <= t < nodes0.len() implies (same_shape(nodes1[t], nodes0[t])
                        || !in_window(lo, Some(ki), (#[trigger] nodes0[t]).name@)) by {
                        if !same_shape(nodes1[t], nodes0[t]) {
                            assert(t == p);
                        }
                    }
                    lemma_subtree_frame(nodes0, nodes1, c2 as int, lo, Some(ki));
                },
                None => {},
            }
        }
        assert(subtree_wf(nodes1, p, lo, hi));
    }

    /// Looks a key up: the statistics recorded for it, if any value with
    /// that key arrived.
    pub fn get(&self, name: &Vec<u8>) -> (r: Option<State>)
        requires
            self.inv(),
        ensures
            match r {
                Some(st) => self@.dom().contains(name@) && st@ == self@[name@],
                None => !self@.dom().contains(name@),
            },
    {
        proof {
            lemma_wf_distinct(self.nodes@);
        }
        if self.nodes.len() == 0 {
            proof {
                assert(!has_key(self.nodes@, name@));
            }
            return None;
        }
        let mut idx: usize = 0;
        loop
            invariant
                self.inv(),
                0 <= idx < self.nodes@.len(),
                found(self.nodes@, 0, name@) == found(self.nodes@, idx as int, name@),
                distinct_names(self.nodes@),
            decreases self.nodes@.len() - idx,
        {
            match key_cmp(name, &self.nodes[idx].name) {
                KeyOrder::Equal => {
                    proof {
                        let nodes = self.nodes@;
                        assert(found(nodes, idx as int, name@) == Some(idx as int));
                        assert(has_key(nodes, name@));
                        let ci = choose|i: int|
                            0 <= i < nodes.len() && (#[trigger] nodes[i]).name@ == name@;
                        assert(ci == idx);
                    }
                    return Some(self.nodes[idx].state);
                },
                KeyOrder::Less => {
                    proof {
                        lemma_key_lt_asym(name@, self.nodes@[idx as int].name@);
                    }
                    match self.nodes[idx].l_child {
                        Some(c) => {
                            idx = c;
                        },
                        None => {
                            proof {
                                lemma_found_none_absent(self.nodes@, name@);
                            }
                            return None;
                        },
                    }
                },
                KeyOrder::Greater => {
                    proof {
                        lemma_key_lt_asym(self.nodes@[idx as int].name@, name@);
                    }
                    match self.nodes[idx].r_child {
                        Some(c) => {
                            idx = c;
                        },
                        None => {
                            proof {
                                lemma_found_none_absent(self.nodes@, name@);
                            }
                            return None;
                        },
                    }
                },
            }
        }
    }
}

/// The keys met by an in-order walk (left subtree, node, right subtree)
/// started at arena index `i`.
pub open spec fn inorder_keys(nodes: Seq<Node>, i: int) -> Seq<Seq<u8>>
    decreases nodes.len() - i,
{
    if !(0 <= i < nodes.len()) {
        Seq::<Seq<u8>>::empty()
    } else {
        let n = nodes[i];
        (match n.l_child {
            Some(c) => if i < c && c <= nodes.len() {
                inorder_keys(nodes, c as int)
            } else {
                Seq::<Seq<u8>>::empty()
            },
            None => Seq::<Seq<u8>>::empty(),
        }) + seq![n.name@] + (match n.r_child {
            Some(c) => if i < c && c <= nodes.len() {
                inorder_keys(nodes, c as int)
            } else {
                Seq::<Seq<u8>>::empty()
            },
            None => Seq::<Seq<u8>>::empty(),
        })
    }
}

/// Every key the walk meets is the key of some arena node.
proof fn lemma_walk_keys(nodes: Seq<Node>, i: int)
    ensures
        forall|t: int|
            0 <= t < inorder_keys(nodes, i).len() ==> has_key(
                nodes,
                #[trigger] inorder_keys(nodes, i)[t],
            ),
    decreases nodes.len() - i,
{
    if 0 <= i < nodes.len() {
        let n = nodes[i];
        let l = match n.l_child {
            Some(c) => if i < c && c <= nodes.len() {
                inorder_keys(nodes, c as int)
            } else {
                Seq::<Seq<u8>>::empty()
            },
            None => Seq::<Seq<u8>>::empty(),
        };
        let rr = match n.r_child {
            Some(c) => if i < c && c <= nodes.len() {
                inorder_keys(nodes, c as int)
            } else {
                Seq::<Seq<u8>>::empty()
            },
            None => Seq::<Seq<u8>>::empty(),
        };
        match n.l_child {
            Some(c) => if i < c && c <= nodes.len() {
                lemma_walk_keys(nodes, c as int);
            },
            None => {},
        }
        match n.r_child {
            Some(c) => if i < c && c <= nodes.len() {
                lemma_walk_keys(nodes, c as int);
            },
            None => {},
        }
        assert forall|t: int| 0 <= t < inorder_keys(nodes, i).len() implies has_key(
            nodes,
            #[trigger] inorder_keys(nodes, i)[t],
        ) by {
            if t < l.len() {
                assert(inorder_keys(nodes, i)[t] == l[t]);
            } else if t == l.len() {
                assert(inorder_keys(nodes, i)[t] == n.name@);
                assert(nodes[i].name@ == n.name@);
            } else {
                assert(inorder_keys(nodes, i)[t] == rr[t - l.len() - 1]);
            }
        }
    }
}

/// Under the search-tree ordering, the in-order walk is strictly sorted and
/// stays inside the window.
proof fn lemma_walk_sorted(nodes: Seq<Node>, i: int, lo: Option<Seq<u8>>, hi: Option<Seq<u8>>)
    requires
        subtree_wf(nodes, i, lo, hi),
    ensures
        forall|a: int, b: int|
            0 <= a < b < inorder_keys(nodes, i).len() ==> key_lt(
                #[trigger] inorder_keys(nodes, i)[a],
                #[trigger] inorder_keys(nodes, i)[b],
            ),
        forall|t: int|
            0 <= t < inorder_keys(nodes, i).len() ==> in_window(
                lo,
                hi,
                #[trigger] inorder_keys(nodes, i)[t],
            ),
    decreases nodes.len() - i,
{
    let n = nodes[i];
    let w = inorder_keys(nodes, i);
    let l = match n.l_child {
        Some(c) => if i < c && c <= nodes.len() {
            inorder_keys(nodes, c as int)
        } else {
            Seq::<Seq<u8>>::empty()
        },
        None => Seq::<Seq<u8>>::empty(),
    };
    let rr = match n.r_child {
        Some(c) => if i < c && c <= nodes.len() {
            inorder_keys(nodes, c as int)
        } else {
            Seq::<Seq<u8>>::empty()
        },
        None => Seq::<Seq<u8>>::empty(),
    };
    match n.l_child {
        Some(c) => {
            lemma_walk_sorted(nodes, c as int, lo, Some(n.name@));
        },
        None => {},
    }
    match n.r_child {
        Some(c) => {
            lemma_walk_sorted(nodes, c as int, Some(n.name@), hi);
        },
        None => {},
    }
    assert(w =~~= l + seq![n.name@] + rr);
    assert forall|t: int| 0 <= t < w.len() implies in_window(lo, hi, #[trigger] w[t]) by {
        if t < l.len() {
            assert(w[t] == l[t]);
            assert(in_window(lo, Some(n.name@), l[t]));
            match hi {
                Some(h) => {
                    lemma_key_lt_trans(l[t], n.name@, h);
                },
                None => {},
            }
        } else if t == l.len() {
            assert(w[t] == n.name@);
        } else {
            let x = rr[t - l.len() - 1];
            assert(w[t] == x);
            assert(in_window(Some(n.name@), hi, x));
            match lo {
                Some(lv) => {
                    lemma_key_lt_trans(lv, n.name@, x);
                },
                None => {},
            }
        }
    }
    assert forall|a: int, b: int| 0 <= a < b < w.len() implies key_lt(
        #[trigger] w[a],
        #[trigger] w[b],
    ) by {
        if b < l.len() {
            assert(w[a] == l[a] && w[b] == l[b]);
        } else if a > l.len() {
            assert(w[a] == rr[a - l.len() - 1] && w[b] == rr[b - l.len() - 1]);
        } else if b == l.len() {
            assert(w[a] == l[a] && w[b] == n.name@);
            assert(in_window(lo, Some(n.name@), l[a]));
        } else if a == l.len() {
            assert(w[a] == n.name@ && w[b] == rr[b - l.len() - 1]);
            assert(in_window(Some(n.name@), hi, rr[b - l.len() - 1]));
        } else {
            assert(w[a] == l[a] && w[b] == rr[b - l.len() - 1]);
            assert(in_window(lo, Some(n.name@), l[a]));
            assert(in_window(Some(n.name@), hi, rr[b - l.len() - 1]));
            lemma_key_lt_trans(l[a], n.name@, rr[b - l.len() - 1]);
        }
    }
}

/// A key the search finds is met by the in-order walk.
proof fn lemma_found_in_walk(nodes: Seq<Node>, i: int, k: Seq<u8>, j: int)
    requires
        found(nodes, i, k) == Some(j),
    ensures
        inorder_keys(nodes, i).contains(k),
    decreases nodes.len() - i,
{
    let n = nodes[i];
    let w = inorder_keys(nodes, i);
    let l = match n.l_child {
        Some(c) => if i < c && c <= nodes.len() {
            inorder_keys(nodes, c as int)
        } else {
            Seq::<Seq<u8>>::empty()
        },
        None => Seq::<Seq<u8>>::empty(),
    };
    let rr = match n.r_child {
        Some(c) => if i < c && c <= nodes.len() {
            inorder_keys(nodes, c as int)
        } else {
            Seq::<Seq<u8>>::empty()
        },
        None => Seq::<Seq<u8>>::empty(),
    };
    assert(w =~~= l + seq![n.name@] + rr);
    if k == n.name@ {
        assert(w[l.len() as int] == k);
        assert(w.contains(k));
    } else if key_lt(k, n.name@) {
        let c = n.l_child->Some_0;
        lemma_found_in_walk(nodes, c as int, k, j);
        let t = choose|t: int| 0 <= t < l.len() && l[t] == k;
        assert(w[t] == k);
        assert(w.contains(k));
    } else {
        let c = n.r_child->Some_0;
        lemma_found_in_walk(nodes, c as int, k, j);
        let t = choose|t: int| 0 <= t < rr.len() && rr[t] == k;
        assert(w[l.len() + 1 + t] == k);
        assert(w.contains(k));
    }
}

/// The in-order walk of a well-formed arena meets exactly the arena's keys,
/// each exactly once.
proof fn lemma_walk_complete(nodes: Seq<Node>)
    requires
        nodes_wf(nodes),
        nodes.len() > 0 ==> subtree_wf(nodes, 0, None, None),
    ensures
        forall|k: Seq<u8>| has_key(nodes, k) <==> inorder_keys(nodes, 0).contains(k),
        inorder_keys(nodes, 0).len() == nodes.len(),
{
    let w = inorder_keys(nodes, 0);
    if nodes.len() == 0 {
        assert(w =~~= Seq::<Seq<u8>>::empty());
    } else {
        lemma_wf_distinct(nodes);
        lemma_walk_keys(nodes, 0);
        lemma_walk_sorted(nodes, 0, None, None);
        assert forall|k: Seq<u8>| has_key(nodes, k) implies w.contains(k) by {
            let i = choose|i: int| 0 <= i < nodes.len() && (#[trigger] nodes[i]).name@ == k;
            assert(found(nodes, 0, k) == Some(i));
            lemma_found_in_walk(nodes, 0, k, i);
        }
        assert(w.no_duplicates()) by {
            assert forall|a: int, b: int|
                0 <= a < w.len() && 0 <= b < w.len() && a != b implies #[trigger] w[a]
                != #[trigger] w[b] by {
                if a < b {
                    lemma_key_lt_asym(w[a], w[b]);
                } else {
                    lemma_key_lt_asym(w[b], w[a]);
                }
            }
        }
        let names = Seq::new(nodes.len(), |i: int| nodes[i].name@);
        assert(names.no_duplicates());
        assert forall|x: Seq<u8>| w.contains(x) implies names.contains(x) by {
            assert(has_key(nodes, x));
            let i = choose|i: int| 0 <= i < nodes.len() && (#[trigger] nodes[i]).name@ == x;
            assert(names[i] == x);
        }
        assert forall|x: Seq<u8>| names.contains(x) implies w.contains(x) by {
            let i = choose|i: int| 0 <= i < names.len() && names[i] == x;
            assert(nodes[i].name@ == x);
            assert(has_key(nodes, x));
        }
        assert(w.to_set() =~= names.to_set());
        w.unique_seq_to_set();
        names.unique_seq_to_set();
    }
}

impl Tree {
    /// The in-order walk of the tree's keys.
    pub closed spec fn key_walk(&self) -> Seq<Seq<u8>> {
        inorder_keys(self.nodes@, 0)
    }

    /// The distinct keys of the tree, collected by an in-order walk (left
    /// subtree, node, right subtree): exactly the keys of the map, each
    /// exactly once, in strictly increasing byte order.
    pub fn keys_in_order(&self) -> (r: Vec<Vec<u8>>)
        requires
            self.inv(),
        ensures
            r.deep_view() == self.key_walk(),
            forall|a: int, b: int|
                0 <= a < b < r.deep_view().len() ==> key_lt(
                    #[trigger] r.deep_view()[a],
                    #[trigger] r.deep_view()[b],
                ),
            forall|k: Seq<u8>| self@.dom().contains(k) <==> r.deep_view().contains(k),
            r@.len() == self.size(),
    {
        let mut out: Vec<Vec<u8>> = Vec::new();
        if self.nodes.len() > 0 {
            self.add_children(0, &mut out);
            proof {
                assert(Seq::<Seq<u8>>::empty() + inorder_keys(self.nodes@, 0) =~~= inorder_keys(
                    self.nodes@,
                    0,
                ));
                lemma_walk_sorted(self.nodes@, 0, None, None);
                lemma_walk_complete(self.nodes@);
            }
        } else {
            proof {
                assert(inorder_keys(self.nodes@, 0) =~~= Seq::<Seq<u8>>::empty());
            }
        }
        out
    }

    fn add_children(&self, idx: usize, out: &mut Vec<Vec<u8>>)
        requires
            nodes_wf(self.nodes@),
            idx < self.nodes@.len(),
        ensures
            final(out).deep_view() == old(out).deep_view() + inorder_keys(
                self.nodes@,
                idx as int,
            ),
        decreases self.nodes@.len() - idx,
    {
        let ghost base = out.deep_view();
        if let Some(c) = self.nodes[idx].l_child {
            self.add_children(c, out);
        }
        let ghost mid = out.deep_view();
        let nm = clone_bytes(&self.nodes[idx].name);
        let ghost nmv = nm@;
        out.push(nm);
        proof {
            assert(out.deep_view() =~~= mid.push(nmv));
        }
        if let Some(c) = self.nodes[idx].r_child {
            self.add_children(c, out);
        }
        proof {
            let nodes = self.nodes@;
            let l = match nodes[idx as int].l_child {
                Some(c) => inorder_keys(nodes, c as int),
                None => Seq::<Seq<u8>>::empty(),
            };
            let rr = match nodes[idx as int].r_child {
                Some(c) => inorder_keys(nodes, c as int),
                None => Seq::<Seq<u8>>::empty(),
            };
            assert(inorder_keys(nodes, idx as int) =~~= l + seq![nodes[idx as int].name@] + rr);
            assert(final(out).deep_view() =~~= base + (l + seq![nodes[idx as int].name@] + rr));
        }
    }
}

/// Folding a row sequence into the map, front to back.
pub open spec fn fold_updates(m: Map<Seq<u8>, Agg>, rows: Seq<(Seq<u8>, int)>) -> Map<
    Seq<u8>,
    Agg,
>
    decreases rows.len(),
{
    if rows.len() == 0 {
        m
    } else {
        fold_updates(spec_update(m, rows[0].0, rows[0].1), rows.drop_first())
    }
}

proof fn lemma_update_commutes(m: Map<Seq<u8>, Agg>, k1: Seq<u8>, v1: int, k2: Seq<u8>, v2: int)
    ensures
        spec_update(spec_update(m, k1, v1), k2, v2) == spec_update(spec_update(m, k2, v2), k1, v1),
{
    assert(spec_update(spec_update(m, k1, v1), k2, v2) =~= spec_update(
        spec_update(m, k2, v2),
        k1,
        v1,
    ));
}

proof fn lemma_fold_pull(m: Map<Seq<u8>, Agg>, rows: Seq<(Seq<u8>, int)>, i: int)
    requires
        0 <= i < rows.len(),
    ensures
        fold_updates(m, rows) == fold_updates(
            spec_update(m, rows[i].0, rows[i].1),
            rows.remove(i),
        ),
    decreases i,
{
    if i == 0 {
        assert(rows.remove(0) =~= rows.drop_first());
    } else {
        let m2 = spec_update(m, rows[0].0, rows[0].1);
        lemma_fold_pull(m2, rows.drop_first(), i - 1);
        assert(rows.drop_first()[i - 1] == rows[i]);
        lemma_update_commutes(m, rows[0].0, rows[0].1, rows[i].0, rows[i].1);
        assert(rows.remove(i).drop_first() =~= rows.drop_first().remove(i - 1));
        assert(rows.remove(i)[0] == rows[0]);
        assert(fold_updates(spec_update(m, rows[i].0, rows[i].1), rows.remove(i))
            == fold_updates(
            spec_update(spec_update(m, rows[i].0, rows[i].1), rows[0].0, rows[0].1),
            rows.remove(i).drop_first(),
        ));
    }
}

/// Law: aggregation is insertion-order-independent.  Folding any two row
/// sequences that hold the same rows (as a multiset, i.e. up to
/// permutation) into the same starting map yields identical per-key
/// count, sum, minimum and maximum.
pub proof fn lemma_order_independent(
    m: Map<Seq<u8>, Agg>,
    rows1: Seq<(Seq<u8>, int)>,
    rows2: Seq<(Seq<u8>, int)>,
)
    requires
        rows1.to_multiset() == rows2.to_multiset(),
    ensures
        fold_updates(m, rows1) == fold_updates(m, rows2),
    decreases rows1.len(),
{
    broadcast use vstd::seq_lib::group_to_multiset_ensures;

    if rows1.len() == 0 {
        assert(rows1.to_multiset().len() == 0);
        assert(rows2.len() == 0);
    } else {
        let x = rows1[0];
        assert(rows1.contains(x));
        assert(rows1.to_multiset().count(x) > 0);
        assert(rows2.to_multiset().count(x) > 0);
        assert(rows2.contains(x));
        let i = choose|i: int| 0 <= i < rows2.len() && rows2[i] == x;
        lemma_fold_pull(m, rows2, i);
        assert(rows1.drop_first() =~= rows1.remove(0));
        assert(rows1.remove(0).to_multiset() == rows1.to_multiset().remove(x));
        assert(rows2.remove(i).to_multiset() == rows2.to_multiset().remove(x));
        lemma_order_independent(spec_update(m, x.0, x.1), rows1.drop_first(), rows2.remove(i));
    }
}

} // verus!

//! The library's model of a concrete syntax tree: a flat arena of nodes,
//! where a node's id is its arena index.  The surrounding layer that parses
//! source text builds this arena in pre-order, so every child index is
//! strictly greater than its parent's and every parent index strictly
//! smaller.

use vstd::prelude::*;

verus! {

/// One node of the tree: its parent and children as arena indices, the lines
/// its source span starts and ends on, and its source byte range.
#[derive(Debug)]
pub struct CstNode {
    pub parent: Option<usize>,
    pub children: Vec<usize>,
    pub start_row: usize,
    pub end_row: usize,
    pub start_byte: usize,
    pub end_byte: usize,
}

/// Mathematical value of a [`CstNode`].
pub struct NodeView {
    pub parent: Option<int>,
    pub children: Seq<int>,
    pub start_row: int,
    pub end_row: int,
    pub start_byte: int,
    pub end_byte: int,
}

impl View for CstNode {
    type V = NodeView;

    open spec fn view(&self) -> NodeView {
        NodeView {
            parent: match self.parent {
                Some(p) => Some(p as int),
                None => None,
            },
            children: self.children@.map_values(|c: usize| c as int),
            start_row: self.start_row as int,
            end_row: self.end_row as int,
            start_byte: self.start_byte as int,
            end_byte: self.end_byte as int,
        }
    }
}

/// Node `i` points only at later nodes as children and at an earlier node as
/// parent; both stay inside the arena.
pub open spec fn node_wf(t: Seq<NodeView>, i: int) -> bool {
    &&& forall|k: int| 0 <= k < t[i].children.len() ==> i < #[trigger] t[i].children[k] < t.len()
    &&& (t[i].parent matches Some(p) ==> 0 <= p < i)
}

/// Every node of the arena is well-formed.
pub open spec fn tree_wf(t: Seq<NodeView>) -> bool {
    forall|i: int| 0 <= i < t.len() ==> node_wf(t, i)
}

/// A concrete syntax tree as a well-formed arena of nodes; index 0 is the
/// root.
#[derive(Debug)]
pub struct Cst {
    pub(crate) nodes: Vec<CstNode>,
}

impl View for Cst {
    type V = Seq<NodeView>;

    closed spec fn view(&self) -> Seq<NodeView> {
        self.nodes@.map_values(|n: CstNode| n@)
    }
}

impl Cst {
    pub open spec fn wf(&self) -> bool {
        tree_wf(self@)
    }

    /// Number of nodes.
    pub fn len(&self) -> (n: usize)
        ensures
            n == self@.len(),
    {
        self.nodes.len()
    }

    /// Read access to one node.
    pub fn node(&self, i: usize) -> (r: &CstNode)
        requires
            i < self@.len(),
        ensures
            r@ == self@[i as int],
    {
        &self.nodes[i]
    }

    /// Builds a tree from an arena, checking that parent and child indices
    /// are consistent with a pre-order numbering; rejects any arena that is
    /// not.
    pub fn from_nodes(nodes: Vec<CstNode>) -> (r: Option<Cst>)
        ensures
            match r {
                Some(t) => t@ == nodes@.map_values(|n: CstNode| n@) && t.wf(),
                None => !tree_wf(nodes@.map_values(|n: CstNode| n@)),
            },
    {
        let ghost tv = nodes@.map_values(|n: CstNode| n@);
        let n = nodes.len();
        let mut i: usize = 0;
        while i < n
            invariant
                n == nodes@.len(),
                i <= n,
                tv == nodes@.map_values(|n: CstNode| n@),
                forall|m: int| 0 <= m < i ==> node_wf(tv, m),
            decreases n - i,
        {
            let node = &nodes[i];
            match node.parent {
                Some(p) => {
                    if p >= i {
                        proof {
                            assert(!node_wf(tv, i as int));
                        }
                        return None;
                    }
                },
                None => {},
            }
            let cc = node.children.len();
            let mut k: usize = 0;
            while k < cc
                invariant
                    i < n == nodes@.len(),
                    cc == nodes@[i as int].children@.len(),
                    k <= cc,
                    node == &nodes[i as int],
                    tv == nodes@.map_values(|n: CstNode| n@),
                    forall|m: int|
                        0 <= m < k ==> i < #[trigger] tv[i as int].children[m] < n,
                decreases cc - k,
            {
                let c = node.children[k];
                if c <= i || c >= n {
                    proof {
                        assert(tv[i as int].children[k as int] == c as int);
                        assert(!node_wf(tv, i as int));
                    }
                    return None;
                }
                proof {
                    assert(tv[i as int].children[k as int] == c as int);
                }
                k = k + 1;
            }
            proof {
                assert(node_wf(tv, i as int));
            }
            i = i + 1;
        }
        Some(Cst { nodes })
    }
}

/// The index of the leftmost leaf of the subtree at `i`: repeatedly descend
/// into the first child.
pub open spec fn first_leaf_of(t: Seq<NodeView>, i: int) -> int
    decreases t.len() - i,
{
    if 0 <= i < t.len() && t[i].children.len() > 0 && i < t[i].children[0] < t.len() {
        first_leaf_of(t, t[i].children[0])
    } else {
        i
    }
}

/// The index of the rightmost leaf of the subtree at `i`: repeatedly descend
/// into the last child.
pub open spec fn last_leaf_of(t: Seq<NodeView>, i: int) -> int
    decreases t.len() - i,
{
    if 0 <= i < t.len() && t[i].children.len() > 0 && i < t[i].children[t[i].children.len() - 1]
        < t.len() {
        last_leaf_of(t, t[i].children[t[i].children.len() - 1])
    } else {
        i
    }
}

/// Exec descent to the leftmost leaf.
pub(crate) fn first_leaf(tree: &Cst, node: usize) -> (r: usize)
    requires
        tree.wf(),
        node < tree@.len(),
    ensures
        r as int == first_leaf_of(tree@, node as int),
        r < tree@.len(),
{
    let mut cur = node;
    loop
        invariant
            tree.wf(),
            cur < tree@.len(),
            first_leaf_of(tree@, cur as int) == first_leaf_of(tree@, node as int),
        decreases tree@.len() - cur,
    {
        let n = &tree.nodes[cur];
        if n.children.len() == 0 {
            return cur;
        }
        let c = n.children[0];
        proof {
            assert(node_wf(tree@, cur as int));
            assert(tree@[cur as int].children[0] == c as int);
        }
        cur = c;
    }
}

/// Exec descent to the rightmost leaf.
pub(crate) fn last_leaf(tree: &Cst, node: usize) -> (r: usize)
    requires
        tree.wf(),
        node < tree@.len(),
    ensures
        r as int == last_leaf_of(tree@, node as int),
        r < tree@.len(),
{
    let mut cur = node;
    loop
        invariant
            tree.wf(),
            cur < tree@.len(),
            last_leaf_of(tree@, cur as int) == last_leaf_of(tree@, node as int),
        decreases tree@.len() - cur,
    {
        let n = &tree.nodes[cur];
        let cc = n.children.len();
        if cc == 0 {
            return cur;
        }
        let c = n.children[cc - 1];
        proof {
            assert(node_wf(tree@, cur as int));
            assert(tree@[cur as int].children[cc - 1] == c as int);
        }
        cur = c;
    }
}

/// The nearest ancestor of `i` marked in `specified`, or `orig` when no
/// ancestor is marked.
pub open spec fn anchor_of(t: Seq<NodeView>, specified: Seq<bool>, orig: int, i: int) -> int
    decreases i,
{
    if 0 <= i < t.len() && (t[i].parent matches Some(p)) {
        let p = t[i].parent.unwrap();
        if !(0 <= p < i) {
            orig
        } else if 0 <= p < specified.len() && specified[p] {
            p
        } else {
            anchor_of(t, specified, orig, p)
        }
    } else {
        orig
    }
}

/// A node spans more than one source line exactly when its end line exceeds
/// its start line; tested independently for every node.
pub fn detect_multi_line_nodes(tree: &Cst) -> (r: Vec<bool>)
    ensures
        r@.len() == tree@.len(),
        forall|i: int|
            0 <= i < tree@.len() ==> r@[i] == (tree@[i].end_row > tree@[i].start_row),
{
    let n = tree.nodes.len();
    let mut r: Vec<bool> = Vec::new();
    let mut i: usize = 0;
    while i < n
        invariant
            n == tree@.len(),
            i <= n,
            r@.len() == i,
            forall|m: int| 0 <= m < i ==> r@[m] == (tree@[m].end_row > tree@[m].start_row),
        decreases n - i,
    {
        let node = &tree.nodes[i];
        r.push(node.end_row > node.start_row);
        i = i + 1;
    }
    r
}

/// One step of the line-break walk at node `i`: when at least `min` line
/// breaks separate the previously visited node's end from this node's start,
/// mark this node broken-before and the previous one broken-after; either
/// way this node becomes the new previous node.
pub open spec fn visit_node(
    t: Seq<NodeView>,
    i: int,
    min: int,
    st: (Seq<bool>, Seq<bool>, Option<int>),
) -> (Seq<bool>, Seq<bool>, Option<int>) {
    match st.2 {
        None => (st.0, st.1, Some(i)),
        Some(p) => if t[i].start_row >= t[p].end_row + min {
            (st.0.update(i, true), st.1.update(p, true), Some(i))
        } else {
            (st.0, st.1, Some(i))
        },
    }
}

/// The line-break walk over the subtree at `i`: pre-order, threading one
/// previously-visited node through the whole traversal.
pub open spec fn walk_node(
    t: Seq<NodeView>,
    i: int,
    min: int,
    st: (Seq<bool>, Seq<bool>, Option<int>),
) -> (Seq<bool>, Seq<bool>, Option<int>)
    decreases t.len() - i, 1int, 0int,
{
    if !(0 <= i < t.len()) {
        st
    } else {
        walk_children(t, i, 0, min, visit_node(t, i, min, st))
    }
}

/// The walk over the children of `i` starting at child position `k`.
pub open spec fn walk_children(
    t: Seq<NodeView>,
    i: int,
    k: int,
    min: int,
    st: (Seq<bool>, Seq<bool>, Option<int>),
) -> (Seq<bool>, Seq<bool>, Option<int>)
    decreases t.len() - i, 0int, t[i].children.len() - k,
{
    if !(0 <= i < t.len()) || !(0 <= k) || k >= t[i].children.len() {
        st
    } else {
        let c = t[i].children[k];
        if !(i < c < t.len()) {
            st
        } else {
            walk_children(t, i, k + 1, min, walk_node(t, c, min, st))
        }
    }
}

/// All-false marks for every node of the tree.
pub open spec fn no_marks(t: Seq<NodeView>) -> Seq<bool> {
    Seq::new(t.len(), |i: int| false)
}

/// The two mark tables of the whole-tree walk with threshold `min`:
/// broken-before and broken-after.
pub open spec fn detected_breaks(t: Seq<NodeView>, min: int) -> (Seq<bool>, Seq<bool>, Option<
    int,
>) {
    walk_node(t, 0, min, (no_marks(t), no_marks(t), None))
}

/// The view of an optional node index.
pub open spec fn opt_index(o: Option<usize>) -> Option<int> {
    match o {
        Some(p) => Some(p as int),
        None => None,
    }
}

/// Exec form of the line-break walk.
#[verifier::loop_isolation(false)]
fn walk_breaks(
    tree: &Cst,
    i: usize,
    min: usize,
    before: &mut Vec<bool>,
    after: &mut Vec<bool>,
    prev: &mut Option<usize>,
)
    requires
        tree.wf(),
        i < tree@.len(),
        old(before)@.len() == tree@.len(),
        old(after)@.len() == tree@.len(),
        opt_index(*old(prev)) matches Some(p) ==> 0 <= p < tree@.len(),
    ensures
        (final(before)@, final(after)@, opt_index(*final(prev))) == walk_node(
            tree@,
            i as int,
            min as int,
            (old(before)@, old(after)@, opt_index(*old(prev))),
        ),
        final(before)@.len() == tree@.len(),
        final(after)@.len() == tree@.len(),
        opt_index(*final(prev)) matches Some(p) ==> 0 <= p < tree@.len(),
    decreases tree@.len() - i,
{
    let ghost st0 = (old(before)@, old(after)@, opt_index(*old(prev)));
    match *prev {
        Some(p) => {
            let prev_end = tree.nodes[p].end_row;
            let cur_start = tree.nodes[i].start_row;
            if cur_start >= prev_end && cur_start - prev_end >= min {
                before[i] = true;
                after[p] = true;
            }
        },
        None => {},
    }
    *prev = Some(i);
    proof {
        assert((before@, after@, opt_index(*prev)) == visit_node(
            tree@,
            i as int,
            min as int,
            st0,
        ));
    }
    let ghost st1 = (before@, after@, opt_index(*prev));
    let cc = tree.nodes[i].children.len();
    let mut k: usize = 0;
    while k < cc
        invariant
            cc == tree@[i as int].children.len(),
            k <= cc,
            before@.len() == tree@.len(),
            after@.len() == tree@.len(),
            opt_index(*prev) matches Some(p) ==> 0 <= p < tree@.len(),
            walk_children(tree@, i as int, k as int, min as int, (before@, after@, opt_index(*prev)))
                == walk_children(tree@, i as int, 0, min as int, st1),
        decreases cc - k,
    {
        let c = tree.nodes[i].children[k];
        proof {
            assert(node_wf(tree@, i as int));
            assert(tree@[i as int].children[k as int] == c as int);
        }
        walk_breaks(tree, c, min, before, after, prev);
        k = k + 1;
    }
}

/// Runs the line-break walk over the whole tree with threshold `min` and
/// returns the broken-before and broken-after tables.
fn detect_breaks(tree: &Cst, min: usize) -> (r: (Vec<bool>, Vec<bool>))
    requires
        tree.wf(),
        min >= 1,
    ensures
        r.0@ == detected_breaks(tree@, min as int).0,
        r.1@ == detected_breaks(tree@, min as int).1,
        r.0@.len() == tree@.len(),
        r.1@.len() == tree@.len(),
{
    let n = tree.nodes.len();
    let mut before: Vec<bool> = Vec::new();
    let mut after: Vec<bool> = Vec::new();
    let mut i: usize = 0;
    while i < n
        invariant
            n == tree@.len(),
            i <= n,
            before@ =~= Seq::new(i as nat, |m: int| false),
            after@ =~= Seq::new(i as nat, |m: int| false),
        decreases n - i,
    {
        before.push(false);
        after.push(false);
        proof {
            assert(before@ =~= Seq::new((i + 1) as nat, |m: int| false));
            assert(after@ =~= Seq::new((i + 1) as nat, |m: int| false));
        }
        i = i + 1;
    }
    proof {
        assert(before@ =~= no_marks(tree@));
        assert(after@ =~= no_marks(tree@));
    }
    if n == 0 {
        return (before, after);
    }
    let mut prev: Option<usize> = None;
    walk_breaks(tree, 0, min, &mut before, &mut after, &mut prev);
    (before, after)
}

/// Every node marked in `a` is marked in `b`.
pub open spec fn marks_imply(a: Seq<bool>, b: Seq<bool>) -> bool {
    a.len() == b.len() && forall|i: int| 0 <= i < a.len() ==> (#[trigger] a[i] ==> b[i])
}

/// The state of the walk is sound for tree `t`: both mark tables cover every
/// node, and the previous node, if any, is a node of the tree.
pub open spec fn walk_state_ok(t: Seq<NodeView>, st: (Seq<bool>, Seq<bool>, Option<int>)) -> bool {
    &&& st.0.len() == t.len()
    &&& st.1.len() == t.len()
    &&& (st.2 matches Some(p) ==> 0 <= p < t.len())
}

proof fn lemma_visit_monotone(
    t: Seq<NodeView>,
    i: int,
    lo: int,
    hi: int,
    stl: (Seq<bool>, Seq<bool>, Option<int>),
    sth: (Seq<bool>, Seq<bool>, Option<int>),
)
    requires
        lo <= hi,
        0 <= i < t.len(),
        stl.2 == sth.2,
        walk_state_ok(t, stl),
        walk_state_ok(t, sth),
        marks_imply(sth.0, stl.0),
        marks_imply(sth.1, stl.1),
    ensures
        visit_node(t, i, hi, sth).2 == visit_node(t, i, lo, stl).2,
        walk_state_ok(t, visit_node(t, i, lo, stl)),
        walk_state_ok(t, visit_node(t, i, hi, sth)),
        marks_imply(visit_node(t, i, hi, sth).0, visit_node(t, i, lo, stl).0),
        marks_imply(visit_node(t, i, hi, sth).1, visit_node(t, i, lo, stl).1),
{
    match stl.2 {
        None => {},
        Some(p) => {
            let h0 = visit_node(t, i, hi, sth).0;
            let l0 = visit_node(t, i, lo, stl).0;
            let h1 = visit_node(t, i, hi, sth).1;
            let l1 = visit_node(t, i, lo, stl).1;
            assert(h0.len() == l0.len() && h1.len() == l1.len());
            assert forall|m: int| 0 <= m < h0.len() implies (h0[m] ==> l0[m]) by {
                assert(sth.0[m] ==> stl.0[m]);
            }
            assert forall|m: int| 0 <= m < h1.len() implies (h1[m] ==> l1[m]) by {
                assert(sth.1[m] ==> stl.1[m]);
            }
        },
    }
}

proof fn lemma_walk_node_monotone(
    t: Seq<NodeView>,
    i: int,
    lo: int,
    hi: int,
    stl: (Seq<bool>, Seq<bool>, Option<int>),
    sth: (Seq<bool>, Seq<bool>, Option<int>),
)
    requires
        lo <= hi,
        stl.2 == sth.2,
        walk_state_ok(t, stl),
        walk_state_ok(t, sth),
        marks_imply(sth.0, stl.0),
        marks_imply(sth.1, stl.1),
    ensures
        walk_node(t, i, hi, sth).2 == walk_node(t, i, lo, stl).2,
        walk_state_ok(t, walk_node(t, i, lo, stl)),
        walk_state_ok(t, walk_node(t, i, hi, sth)),
        marks_imply(walk_node(t, i, hi, sth).0, walk_node(t, i, lo, stl).0),
        marks_imply(walk_node(t, i, hi, sth).1, walk_node(t, i, lo, stl).1),
    decreases t.len() - i, 1int, 0int,
{
    if 0 <= i < t.len() {
        lemma_visit_monotone(t, i, lo, hi, stl, sth);
        lemma_walk_children_monotone(
            t,
            i,
            0,
            lo,
            hi,
            visit_node(t, i, lo, stl),
            visit_node(t, i, hi, sth),
        );
    }
}

proof fn lemma_walk_children_monotone(
    t: Seq<NodeView>,
    i: int,
    k: int,
    lo: int,
    hi: int,
    stl: (Seq<bool>, Seq<bool>, Option<int>),
    sth: (Seq<bool>, Seq<bool>, Option<int>),
)
    requires
        lo <= hi,
        stl.2 == sth.2,
        walk_state_ok(t, stl),
        walk_state_ok(t, sth),
        marks_imply(sth.0, stl.0),
        marks_imply(sth.1, stl.1),
    ensures
        walk_children(t, i, k, hi, sth).2 == walk_children(t, i, k, lo, stl).2,
        walk_state_ok(t, walk_children(t, i, k, lo, stl)),
        walk_state_ok(t, walk_children(t, i, k, hi, sth)),
        marks_imply(walk_children(t, i, k, hi, sth).0, walk_children(t, i, k, lo, stl).0),
        marks_imply(walk_children(t, i, k, hi, sth).1, walk_children(t, i, k, lo, stl).1),
    decreases t.len() - i, 0int, t[i].children.len() - k,
{
    if 0 <= i < t.len() && 0 <= k && k < t[i].children.len() {
        let c = t[i].children[k];
        if i < c < t.len() {
            lemma_walk_node_monotone(t, c, lo, hi, stl, sth);
            lemma_walk_children_monotone(
                t,
                i,
                k + 1,
                lo,
                hi,
                walk_node(t, c, lo, stl),
                walk_node(t, c, hi, sth),
            );
        }
    }
}

/// A gap of at least two line breaks is in particular a gap of at least one:
/// every node the blank-line walk marks, the line-break walk marks as well,
/// on both the before and the after side.
pub proof fn lemma_blank_line_implies_line_break(t: Seq<NodeView>)
    ensures
        marks_imply(detected_breaks(t, 2).0, detected_breaks(t, 1).0),
        marks_imply(detected_breaks(t, 2).1, detected_breaks(t, 1).1),
{
    lemma_walk_node_monotone(
        t,
        0,
        1,
        2,
        (no_marks(t), no_marks(t), None),
        (no_marks(t), no_marks(t), None),
    );
}

/// Marks nodes preceded by at least one whole blank source line: the walk
/// with threshold two.
pub fn detect_blank_lines_before(tree: &Cst) -> (r: Vec<bool>)
    requires
        tree.wf(),
    ensures
        r@ == detected_breaks(tree@, 2).0,
        r@.len() == tree@.len(),
{
    let (before, _after) = detect_breaks(tree, 2);
    before
}

/// Marks nodes right after (and right before) a line break in the source:
/// the walk with threshold one.
pub fn detect_line_break_before_and_after(tree: &Cst) -> (r: (Vec<bool>, Vec<bool>))
    requires
        tree.wf(),
    ensures
        r.0@ == detected_breaks(tree@, 1).0,
        r.1@ == detected_breaks(tree@, 1).1,
        r.0@.len() == tree@.len(),
        r.1@.len() == tree@.len(),
{
    detect_breaks(tree, 1)
}

} // verus!

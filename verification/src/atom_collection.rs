//! The central mutable structure of the pipeline: an ordered sequence of
//! atoms, per-leaf prepend and append tables, and the per-node
//! classifications that directive resolution consults.

use vstd::prelude::*;
use vstd::seq_lib::*;

use crate::atoms::{Atom, AtomView};
use crate::error::{FormatterError, FormatterResult};
use crate::tree::{
    anchor_of, detect_blank_lines_before, detect_line_break_before_and_after,
    detect_multi_line_nodes, first_leaf, first_leaf_of, last_leaf, last_leaf_of, node_wf, Cst,
    NodeView,
};

verus! {

// ---------------------------------------------------------------------------
// Stream-rewrite specifications.
//
// Each whole-stream rewrite is specified as a left-to-right fold: the spec
// gives, for every prefix of the input, the output produced so far together
// with the little state the rewrite carries across one step.
// ---------------------------------------------------------------------------

/// One step of collapsing runs of `x`: a pending `x` is emitted only between
/// two non-`x` atoms, so runs at the start or end of the stream vanish and
/// every other run becomes a single `x`.
pub open spec fn collapse_step(
    acc: (Seq<AtomView>, bool),
    a: AtomView,
    x: AtomView,
) -> (Seq<AtomView>, bool) {
    if a == x {
        (acc.0, true)
    } else if acc.1 && acc.0.len() > 0 {
        (acc.0 + seq![x, a], false)
    } else {
        (acc.0.push(a), false)
    }
}

/// Output and pending-`x` state after consuming all of `s`.
pub open spec fn collapse_fold(s: Seq<AtomView>, x: AtomView) -> (Seq<AtomView>, bool)
    decreases s.len(),
{
    if s.len() == 0 {
        (Seq::empty(), false)
    } else {
        collapse_step(collapse_fold(s.drop_last(), x), s.last(), x)
    }
}

/// The stream with every maximal run of `x` collapsed: runs between other
/// atoms become one `x`; runs touching either end of the stream are dropped.
pub open spec fn cleaned_consecutive(s: Seq<AtomView>, x: AtomView) -> Seq<AtomView> {
    collapse_fold(s, x).0
}

/// One step of trimming: after a `d` (or at the very start of the stream) a
/// run of `k` atoms is dropped; everything else is copied through.
pub open spec fn trim_step(
    acc: (Seq<AtomView>, bool),
    a: AtomView,
    d: AtomView,
    k: AtomView,
) -> (Seq<AtomView>, bool) {
    if a == d {
        (acc.0.push(d), true)
    } else if acc.1 && a == k {
        acc
    } else {
        (acc.0.push(a), false)
    }
}

/// Output and in-a-leading-run state after consuming all of `s`.
pub open spec fn trim_fold(s: Seq<AtomView>, d: AtomView, k: AtomView) -> (Seq<AtomView>, bool)
    decreases s.len(),
{
    if s.len() == 0 {
        (Seq::empty(), true)
    } else {
        trim_step(trim_fold(s.drop_last(), d, k), s.last(), d, k)
    }
}

/// The stream with every run of `k` that immediately follows a `d` (or starts
/// the stream) removed.
pub open spec fn trimmed_following(s: Seq<AtomView>, d: AtomView, k: AtomView) -> Seq<AtomView> {
    trim_fold(s, d, k).0
}

/// Whether the forward scan of `put_before` stops at atom `a`: it stops at
/// the sought `before` atom, and at any atom that is neither `after` nor
/// ignored.
pub open spec fn scan_stops(
    a: AtomView,
    before: AtomView,
    after: AtomView,
    ignoring: Seq<AtomView>,
) -> bool {
    a == before || (a != after && !ignoring.contains(a))
}

/// Index of the first atom at or after `j` where the scan stops, or the
/// length of the stream when it never stops.
pub open spec fn swap_scan(
    s: Seq<AtomView>,
    j: int,
    before: AtomView,
    after: AtomView,
    ignoring: Seq<AtomView>,
) -> int
    decreases s.len() - j,
{
    if j < 0 || j >= s.len() {
        s.len() as int
    } else if scan_stops(s[j], before, after, ignoring) {
        j
    } else {
        swap_scan(s, j + 1, before, after, ignoring)
    }
}

/// The effect of one outer iteration of `put_before` at index `i`: when the
/// atom there equals `after` and the forward scan finds a `before`, the two
/// atoms trade places; otherwise nothing changes.
pub open spec fn swap_step(
    s: Seq<AtomView>,
    i: int,
    before: AtomView,
    after: AtomView,
    ignoring: Seq<AtomView>,
) -> Seq<AtomView> {
    if 0 <= i < s.len() && s[i] == after {
        let j = swap_scan(s, i + 1, before, after, ignoring);
        if j < s.len() && s[j] == before {
            s.update(i, before).update(j, after)
        } else {
            s
        }
    } else {
        s
    }
}

/// The stream after running the outer loop of `put_before` from index `i` to
/// the end.
pub open spec fn put_before_from(
    s: Seq<AtomView>,
    i: int,
    before: AtomView,
    after: AtomView,
    ignoring: Seq<AtomView>,
) -> Seq<AtomView>
    decreases s.len() - i,
    via put_before_from_decreases
{
    if i < 0 || i + 1 >= s.len() {
        s
    } else {
        put_before_from(swap_step(s, i, before, after, ignoring), i + 1, before, after, ignoring)
    }
}

#[via_fn]
proof fn put_before_from_decreases(
    s: Seq<AtomView>,
    i: int,
    before: AtomView,
    after: AtomView,
    ignoring: Seq<AtomView>,
) {
    lemma_swap_step_len(s, i, before, after, ignoring);
}

/// The scan result lies between its starting point and the stream's length.
pub proof fn lemma_swap_scan_bounds(
    s: Seq<AtomView>,
    j: int,
    before: AtomView,
    after: AtomView,
    ignoring: Seq<AtomView>,
)
    requires
        0 <= j <= s.len(),
    ensures
        j <= swap_scan(s, j, before, after, ignoring) <= s.len(),
    decreases s.len() - j,
{
    if j < s.len() && !scan_stops(s[j], before, after, ignoring) {
        lemma_swap_scan_bounds(s, j + 1, before, after, ignoring);
    }
}

/// One `swap_step` keeps the length of the stream.
pub proof fn lemma_swap_step_len(
    s: Seq<AtomView>,
    i: int,
    before: AtomView,
    after: AtomView,
    ignoring: Seq<AtomView>,
)
    ensures
        swap_step(s, i, before, after, ignoring).len() == s.len(),
{
    if 0 <= i < s.len() && s[i] == after {
        let j = swap_scan(s, i + 1, before, after, ignoring);
        lemma_swap_scan_bounds(s, i + 1, before, after, ignoring);
        if j < s.len() && s[j] == before {
            assert(swap_step(s, i, before, after, ignoring) == s.update(i, before).update(
                j,
                after,
            ));
        }
    }
}

/// The stream after the whole `put_before` pass.
pub open spec fn put_before_spec(
    s: Seq<AtomView>,
    before: AtomView,
    after: AtomView,
    ignoring: Seq<AtomView>,
) -> Seq<AtomView> {
    put_before_from(s, 0, before, after, ignoring)
}

/// The stream, terminated by exactly one final `Hardline` if it did not
/// already end with one.
pub open spec fn with_final_hardline(s: Seq<AtomView>) -> Seq<AtomView> {
    if s.len() > 0 && s.last() == AtomView::Hardline {
        s
    } else {
        s.push(AtomView::Hardline)
    }
}

/// What one atom of the collected stream flattens to: a leaf is surrounded by
/// its prepend and append lists, everything else passes through alone.
pub open spec fn expanded_one(
    a: AtomView,
    prepend: Seq<Seq<AtomView>>,
    append: Seq<Seq<AtomView>>,
) -> Seq<AtomView> {
    match a {
        AtomView::Leaf { content, id } => prepend[id].push(a) + append[id],
        _ => seq![a],
    }
}

/// The whole stream flattened against the prepend and append tables.
pub open spec fn expanded(
    s: Seq<AtomView>,
    prepend: Seq<Seq<AtomView>>,
    append: Seq<Seq<AtomView>>,
) -> Seq<AtomView>
    decreases s.len(),
{
    if s.len() == 0 {
        Seq::empty()
    } else {
        expanded(s.drop_last(), prepend, append) + expanded_one(s.last(), prepend, append)
    }
}

/// The fixed, order-sensitive sequence of rewrites of `post_process`.
pub open spec fn post_processed(s: Seq<AtomView>) -> Seq<AtomView> {
    let s1 = put_before_spec(s, AtomView::IndentEnd, AtomView::Space, Seq::empty());
    let s2 = trimmed_following(s1, AtomView::Blankline, AtomView::Space);
    let s3 = put_before_spec(s2, AtomView::Hardline, AtomView::Blankline, seq![AtomView::Space]);
    let s4 = put_before_spec(s3, AtomView::IndentStart, AtomView::Space, Seq::empty());
    let s5 = put_before_spec(s4, AtomView::IndentStart, AtomView::Hardline, seq![AtomView::Space]);
    let s6 = put_before_spec(s5, AtomView::IndentEnd, AtomView::Hardline, seq![AtomView::Space]);
    let s7 = trimmed_following(s6, AtomView::Hardline, AtomView::Space);
    let s8 = cleaned_consecutive(s7, AtomView::Space);
    let s9 = cleaned_consecutive(s8, AtomView::Hardline);
    with_final_hardline(s9)
}

/// Every leaf atom of `s` names a node id below `n`.
pub open spec fn leaf_ids_below(s: Seq<AtomView>, n: int) -> bool {
    forall|i: int|
        0 <= i < s.len() ==> (#[trigger] s[i] matches AtomView::Leaf { id, .. } ==> 0 <= id < n)
}

// ---------------------------------------------------------------------------
// The collection itself.
// ---------------------------------------------------------------------------

/// Mathematical value of an [`AtomCollection`].
pub struct AtomCollectionView {
    pub atoms: Seq<AtomView>,
    pub prepend: Seq<Seq<AtomView>>,
    pub append: Seq<Seq<AtomView>>,
    pub specified_leaf_nodes: Seq<bool>,
    pub multi_line_nodes: Seq<bool>,
    pub blank_lines_before: Seq<bool>,
    pub line_break_before: Seq<bool>,
    pub line_break_after: Seq<bool>,
}

/// The ordered atom stream of one document, with the per-node tables used
/// while directives are resolved.  All per-node tables are indexed by node
/// id and have one entry per node of the tree the collection was built from.
#[derive(Debug)]
pub struct AtomCollection {
    pub(crate) atoms: Vec<Atom>,
    pub(crate) prepend: Vec<Vec<Atom>>,
    pub(crate) append: Vec<Vec<Atom>>,
    pub(crate) specified_leaf_nodes: Vec<bool>,
    pub(crate) multi_line_nodes: Vec<bool>,
    pub(crate) blank_lines_before: Vec<bool>,
    pub(crate) line_break_before: Vec<bool>,
    pub(crate) line_break_after: Vec<bool>,
}

impl View for AtomCollection {
    type V = AtomCollectionView;

    closed spec fn view(&self) -> AtomCollectionView {
        AtomCollectionView {
            atoms: self.atoms.deep_view(),
            prepend: self.prepend.deep_view(),
            append: self.append.deep_view(),
            specified_leaf_nodes: self.specified_leaf_nodes@,
            multi_line_nodes: self.multi_line_nodes@,
            blank_lines_before: self.blank_lines_before@,
            line_break_before: self.line_break_before@,
            line_break_after: self.line_break_after@,
        }
    }
}

impl AtomCollection {
    /// Number of nodes of the tree this collection was built over.
    pub open spec fn node_count(&self) -> int {
        self@.specified_leaf_nodes.len() as int
    }

    /// All per-node tables agree on the node count, and every leaf atom,
    /// whether already collected or waiting in a prepend or append list,
    /// names a node of the tree.
    pub open spec fn wf(&self) -> bool {
        let n = self.node_count();
        &&& self@.prepend.len() == n
        &&& self@.append.len() == n
        &&& self@.multi_line_nodes.len() == n
        &&& self@.blank_lines_before.len() == n
        &&& self@.line_break_before.len() == n
        &&& self@.line_break_after.len() == n
        &&& leaf_ids_below(self@.atoms, n)
        &&& forall|i: int| 0 <= i < n ==> leaf_ids_below(#[trigger] self@.prepend[i], n)
        &&& forall|i: int| 0 <= i < n ==> leaf_ids_below(#[trigger] self@.append[i], n)
    }

    /// A collection holding a bare atom stream, with no nodes and empty
    /// tables; the entry point for working on a stream directly.
    pub fn from_atoms(atoms: Vec<Atom>) -> (r: AtomCollection)
        ensures
            r@.atoms == atoms.deep_view(),
            r.node_count() == 0,
            r.wf() <==> leaf_ids_below(atoms.deep_view(), 0),
    {
        AtomCollection {
            atoms,
            prepend: Vec::new(),
            append: Vec::new(),
            specified_leaf_nodes: Vec::new(),
            multi_line_nodes: Vec::new(),
            blank_lines_before: Vec::new(),
            line_break_before: Vec::new(),
            line_break_after: Vec::new(),
        }
    }

    /// Read-only access to the atom stream, for rendering and diagnostics.
    pub fn atoms(&self) -> (r: &Vec<Atom>)
        ensures
            r.deep_view() == self@.atoms,
    {
        &self.atoms
    }

    /// Splits the stream on `atom`, drops the empty segments and rejoins the
    /// rest with a single `atom`, collapsing every run of `atom`.
    pub fn clean_up_consecutive(&self, atom: Atom) -> (r: Vec<Atom>)
        ensures
            r.deep_view() == cleaned_consecutive(self@.atoms, atom@),
    {
        let s = &self.atoms;
        let n = s.len();
        let mut out: Vec<Atom> = Vec::new();
        let mut pending: bool = false;
        let mut i: usize = 0;
        while i < n
            invariant
                n == s@.len(),
                i <= n,
                (out.deep_view(), pending) == collapse_fold(s.deep_view().take(i as int), atom@),
            decreases n - i,
        {
            proof {
                let sv = s.deep_view();
                assert(sv.take(i + 1).drop_last() =~= sv.take(i as int));
                assert(sv.take(i + 1).last() == sv[i as int]);
            }
            let a = &s[i];
            if a.value_eq(&atom) {
                pending = true;
            } else {
                if pending && out.len() > 0 {
                    out.push(atom.duplicate());
                }
                out.push(a.duplicate());
                pending = false;
            }
            proof {
                assert(out.deep_view() =~= collapse_fold(
                    s.deep_view().take(i + 1),
                    atom@,
                ).0);
            }
            i = i + 1;
        }
        proof {
            assert(s.deep_view().take(n as int) =~= s.deep_view());
        }
        out
    }

    /// Splits the stream on `delimiter` and drops the leading run of `skip`
    /// of each segment, so no `skip` is left right after a `delimiter` or at
    /// the start of the stream.
    pub fn trim_following(&self, delimiter: Atom, skip: Atom) -> (r: Vec<Atom>)
        ensures
            r.deep_view() == trimmed_following(self@.atoms, delimiter@, skip@),
    {
        let s = &self.atoms;
        let n = s.len();
        let mut out: Vec<Atom> = Vec::new();
        let mut dropping: bool = true;
        let mut i: usize = 0;
        while i < n
            invariant
                n == s@.len(),
                i <= n,
                (out.deep_view(), dropping) == trim_fold(
                    s.deep_view().take(i as int),
                    delimiter@,
                    skip@,
                ),
            decreases n - i,
        {
            proof {
                let sv = s.deep_view();
                assert(sv.take(i + 1).drop_last() =~= sv.take(i as int));
                assert(sv.take(i + 1).last() == sv[i as int]);
            }
            let a = &s[i];
            if a.value_eq(&delimiter) {
                out.push(delimiter.duplicate());
                dropping = true;
            } else if dropping && a.value_eq(&skip) {
                // dropped
            } else {
                out.push(a.duplicate());
                dropping = false;
            }
            proof {
                assert(out.deep_view() =~= trim_fold(
                    s.deep_view().take(i + 1),
                    delimiter@,
                    skip@,
                ).0);
            }
            i = i + 1;
        }
        proof {
            assert(s.deep_view().take(n as int) =~= s.deep_view());
        }
        out
    }

    /// Appends a final `Hardline` unless the stream already ends with one.
    /// Re-running this on an already terminated stream changes nothing.
    pub fn ensure_final_hardline(&mut self)
        ensures
            final(self)@.atoms == with_final_hardline(old(self)@.atoms),
            old(self)@.atoms.len() > 0 && old(self)@.atoms.last() == AtomView::Hardline
                ==> final(self)@.atoms == old(self)@.atoms,
            unchanged_but_atoms(old(self), final(self)),
    {
        let n = self.atoms.len();
        let mut terminated = false;
        if n > 0 {
            terminated = self.atoms[n - 1].value_eq(&Atom::Hardline);
        }
        if !terminated {
            self.atoms.push(Atom::Hardline);
        }
        proof {
            assert(self.atoms.deep_view() =~= with_final_hardline(old(self)@.atoms));
        }
    }
}

/// Whether an atom of `list` has the view `a`.
fn contains_value(list: &[Atom], a: &Atom) -> (r: bool)
    ensures
        r == list.deep_view().contains(a@),
{
    let n = list.len();
    let mut i: usize = 0;
    while i < n
        invariant
            n == list@.len(),
            i <= n,
            forall|m: int| 0 <= m < i ==> list.deep_view()[m] != a@,
        decreases n - i,
    {
        if list[i].value_eq(a) {
            proof {
                assert(list.deep_view()[i as int] == a@);
            }
            return true;
        }
        i = i + 1;
    }
    false
}

/// `swap_scan` stops exactly at the first index whose atom satisfies
/// `scan_stops`, or at the length of the stream.
proof fn lemma_swap_scan_at(
    s: Seq<AtomView>,
    start: int,
    j: int,
    before: AtomView,
    after: AtomView,
    ignoring: Seq<AtomView>,
)
    requires
        0 <= start <= j <= s.len(),
        forall|m: int| start <= m < j ==> !scan_stops(#[trigger] s[m], before, after, ignoring),
        j < s.len() ==> scan_stops(s[j], before, after, ignoring),
    ensures
        swap_scan(s, start, before, after, ignoring) == j,
    decreases j - start,
{
    if start < j {
        lemma_swap_scan_at(s, start + 1, j, before, after, ignoring);
    }
}

/// Finds the index where the forward scan of `put_before` stops.
fn scan_for_swap(
    atoms: &Vec<Atom>,
    start: usize,
    before: &Atom,
    after: &Atom,
    ignoring: &[Atom],
) -> (j: usize)
    requires
        start <= atoms@.len(),
    ensures
        j as int == swap_scan(atoms.deep_view(), start as int, before@, after@, ignoring.deep_view()),
        start <= j <= atoms@.len(),
{
    let n = atoms.len();
    let mut j = start;
    while j < n
        invariant
            n == atoms@.len(),
            start <= j <= n,
            forall|m: int|
                start <= m < j ==> !scan_stops(
                    #[trigger] atoms.deep_view()[m],
                    before@,
                    after@,
                    ignoring.deep_view(),
                ),
        decreases n - j,
    {
        let a = &atoms[j];
        let is_before = a.value_eq(before);
        let is_after = a.value_eq(after);
        let ignored = contains_value(ignoring, a);
        if is_before || (!is_after && !ignored) {
            proof {
                lemma_swap_scan_at(
                    atoms.deep_view(),
                    start as int,
                    j as int,
                    before@,
                    after@,
                    ignoring.deep_view(),
                );
            }
            return j;
        }
        j = j + 1;
    }
    proof {
        lemma_swap_scan_at(
            atoms.deep_view(),
            start as int,
            n as int,
            before@,
            after@,
            ignoring.deep_view(),
        );
    }
    j
}

impl AtomCollection {
    /// Scans the stream left to right; wherever an `after` atom is followed,
    /// across only `after` and ignored atoms, by a `before` atom, the two
    /// trade places.  A local bubble pass, not a sort: at most one swap per
    /// `after` occurrence.
    #[verifier::loop_isolation(false)]
    pub fn put_before(&mut self, before: Atom, after: Atom, ignoring: &[Atom])
        ensures
            final(self)@.atoms == put_before_spec(
                old(self)@.atoms,
                before@,
                after@,
                ignoring.deep_view(),
            ),
            unchanged_but_atoms(old(self), final(self)),
    {
        let ghost orig = self.atoms.deep_view();
        let ghost bv = before@;
        let ghost av = after@;
        let ghost ig = ignoring.deep_view();
        let n = self.atoms.len();
        if n < 2 {
            return ;
        }
        let mut i: usize = 0;
        while i < n - 1
            invariant
                2 <= n == self.atoms.deep_view().len(),
                i <= n - 1,
                put_before_from(self.atoms.deep_view(), i as int, bv, av, ig) == put_before_from(
                    orig,
                    0,
                    bv,
                    av,
                    ig,
                ),
                unchanged_but_atoms(old(self), self),
            decreases n - i,
        {
            let ghost pre = self.atoms.deep_view();
            if self.atoms[i].value_eq(&after) {
                let j = scan_for_swap(&self.atoms, i + 1, &before, &after, ignoring);
                if j < n && self.atoms[j].value_eq(&before) {
                    let bdup = before.duplicate();
                    let adup = after.duplicate();
                    self.atoms[i] = bdup;
                    self.atoms[j] = adup;
                    proof {
                        assert(self.atoms.deep_view() =~= pre.update(i as int, bv).update(
                            j as int,
                            av,
                        ));
                    }
                }
            }
            proof {
                assert(self.atoms.deep_view() == swap_step(pre, i as int, bv, av, ig));
            }
            i = i + 1;
        }
    }

    /// Flattens the prepend and append tables into the atom stream: each
    /// leaf atom is preceded by its prepend list and followed by its append
    /// list, both in the order the directives were resolved.
    #[verifier::loop_isolation(false)]
    pub fn apply_prepends_and_appends(&mut self)
        requires
            old(self).wf(),
        ensures
            final(self)@.atoms == expanded(
                old(self)@.atoms,
                old(self)@.prepend,
                old(self)@.append,
            ),
            unchanged_but_atoms(old(self), final(self)),
    {
        let n = self.atoms.len();
        let mut out: Vec<Atom> = Vec::new();
        let mut i: usize = 0;
        while i < n
            invariant
                *self == *old(self),
                old(self).wf(),
                n == self@.atoms.len(),
                i <= n,
                out.deep_view() == expanded(self@.atoms.take(i as int), self@.prepend, self@.append),
            decreases n - i,
        {
            proof {
                let sv = self@.atoms;
                assert(sv.take(i + 1).drop_last() =~= sv.take(i as int));
                assert(sv.take(i + 1).last() == sv[i as int]);
            }
            let a = &self.atoms[i];
            match a {
                Atom::Leaf { id, .. } => {
                    let id: usize = *id;
                    proof {
                        assert(self@.atoms[i as int] matches AtomView::Leaf { id: iid, .. }
                            ==> 0 <= iid < self.node_count());
                    }
                    let ghost base = out.deep_view();
                    let pre_list = &self.prepend[id];
                    let m = pre_list.len();
                    let mut k: usize = 0;
                    while k < m
                        invariant
                            *self == *old(self),
                            id < self@.prepend.len(),
                            m == self@.prepend[id as int].len(),
                            k <= m,
                            out.deep_view() == base + self@.prepend[id as int].take(k as int),
                            pre_list == &self.prepend[id as int],
                        decreases m - k,
                    {
                        let ghost outpre = out.deep_view();
                        out.push(pre_list[k].duplicate());
                        proof {
                            assert(pre_list@[k as int]@ == self@.prepend[id as int][k as int]);
                            assert(out.deep_view() =~= outpre.push(
                                self@.prepend[id as int][k as int],
                            ));
                            assert(out.deep_view() =~= base + self@.prepend[id as int].take(
                                k + 1,
                            ));
                        }
                        k = k + 1;
                    }
                    let ghost mid = out.deep_view();
                    out.push(a.duplicate());
                    proof {
                        assert(out.deep_view() =~= mid.push(a@));
                    }
                    let app_list = &self.append[id];
                    let m2 = app_list.len();
                    let ghost base2 = out.deep_view();
                    let mut k2: usize = 0;
                    while k2 < m2
                        invariant
                            *self == *old(self),
                            id < self@.append.len(),
                            m2 == self@.append[id as int].len(),
                            k2 <= m2,
                            out.deep_view() == base2 + self@.append[id as int].take(k2 as int),
                            app_list == &self.append[id as int],
                        decreases m2 - k2,
                    {
                        let ghost outpre = out.deep_view();
                        out.push(app_list[k2].duplicate());
                        proof {
                            assert(app_list@[k2 as int]@ == self@.append[id as int][k2 as int]);
                            assert(out.deep_view() =~= outpre.push(
                                self@.append[id as int][k2 as int],
                            ));
                            assert(out.deep_view() =~= base2 + self@.append[id as int].take(
                                k2 + 1,
                            ));
                        }
                        k2 = k2 + 1;
                    }
                    proof {
                        let sv = self@.atoms;
                        let prep = self@.prepend;
                        let app = self@.append;
                        assert(prep[id as int].take(m as int) =~= prep[id as int]);
                        assert(app[id as int].take(m2 as int) =~= app[id as int]);
                        assert(a@ == sv[i as int]);
                        assert(expanded_one(sv[i as int], prep, app) == prep[id as int].push(
                            sv[i as int],
                        ) + app[id as int]);
                        assert(out.deep_view() =~= base + prep[id as int].push(sv[i as int]) + app[
                            id as int
                        ]);
                        assert(base + prep[id as int].push(sv[i as int]) + app[id as int]
                            =~= expanded(sv.take(i as int), prep, app) + expanded_one(
                            sv[i as int],
                            prep,
                            app,
                        ));
                        assert(out.deep_view() =~= expanded(sv.take(i + 1), prep, app));
                    }
                },
                _ => {
                    let ghost mid = out.deep_view();
                    out.push(a.duplicate());
                    proof {
                        let sv = self@.atoms;
                        assert(out.deep_view() =~= mid.push(a@));
                        assert(a@ == sv[i as int]);
                        assert(expanded_one(sv[i as int], self@.prepend, self@.append) == seq![
                            sv[i as int],
                        ]);
                        assert(out.deep_view() =~= expanded(
                            sv.take(i + 1),
                            self@.prepend,
                            self@.append,
                        ));
                    }
                },
            }
            i = i + 1;
        }
        proof {
            assert(self@.atoms.take(n as int) =~= self@.atoms);
        }
        self.atoms = out;
    }

    /// The fixed, order-sensitive sequence of whole-stream rewrites, applied
    /// exactly once after flattening: no space straddles an indent boundary
    /// or follows a line break, blank lines move past line breaks, runs of
    /// spaces and of line breaks collapse, and the stream ends with a
    /// `Hardline`.
    pub fn post_process(&mut self)
        ensures
            final(self)@.atoms == post_processed(old(self)@.atoms),
            final(self)@.atoms.len() > 0,
            final(self)@.atoms.last() == AtomView::Hardline,
            unchanged_but_atoms(old(self), final(self)),
    {
        let no_ignores: Vec<Atom> = Vec::new();
        let space_ignores: Vec<Atom> = vec![Atom::Space];
        proof {
            assert(no_ignores.deep_view() =~= Seq::<AtomView>::empty());
            assert(space_ignores.deep_view() =~= seq![AtomView::Space]);
        }
        self.put_before(Atom::IndentEnd, Atom::Space, no_ignores.as_slice());
        let trimmed = self.trim_following(Atom::Blankline, Atom::Space);
        self.atoms = trimmed;
        self.put_before(Atom::Hardline, Atom::Blankline, space_ignores.as_slice());
        self.put_before(Atom::IndentStart, Atom::Space, no_ignores.as_slice());
        self.put_before(Atom::IndentStart, Atom::Hardline, space_ignores.as_slice());
        self.put_before(Atom::IndentEnd, Atom::Hardline, space_ignores.as_slice());
        let trimmed = self.trim_following(Atom::Hardline, Atom::Space);
        self.atoms = trimmed;
        let cleaned = self.clean_up_consecutive(Atom::Space);
        self.atoms = cleaned;
        let cleaned = self.clean_up_consecutive(Atom::Hardline);
        self.atoms = cleaned;
        self.ensure_final_hardline();
    }
}

// ---------------------------------------------------------------------------
// Laws of the stream rewrites.
// ---------------------------------------------------------------------------

/// No two adjacent positions of `s` hold `x` and then `y`.
pub open spec fn no_adjacent_pair(s: Seq<AtomView>, x: AtomView, y: AtomView) -> bool {
    forall|i: int| #![trigger s[i]] 0 <= i && i + 1 < s.len() ==> !(s[i] == x && s[i + 1] == y)
}

/// The predicate keeping every atom other than `x`.
pub open spec fn keep_others(x: AtomView) -> spec_fn(AtomView) -> bool {
    |a: AtomView| a != x
}

/// Ensuring a final hardline is idempotent: running the step on a stream it
/// already terminated changes nothing.
pub proof fn lemma_final_hardline_idempotent(s: Seq<AtomView>)
    ensures
        with_final_hardline(with_final_hardline(s)) == with_final_hardline(s),
{
}

#[verifier::rlimit(50)]
proof fn lemma_collapse_fold_props(s: Seq<AtomView>, x: AtomView)
    ensures
        no_adjacent_pair(collapse_fold(s, x).0, x, x),
        collapse_fold(s, x).0.len() > 0 ==> collapse_fold(s, x).0.last() != x,
        collapse_fold(s, x).0.filter(keep_others(x)) == s.filter(keep_others(x)),
    decreases s.len(),
{
    let pred = keep_others(x);
    if s.len() == 0 {
        assert(collapse_fold(s, x).0.filter(pred) =~= s.filter(pred));
    } else {
        let t = s.drop_last();
        let a = s.last();
        lemma_collapse_fold_props(t, x);
        let acc = collapse_fold(t, x);
        t.lemma_filter_push(a, pred);
        assert(s == t.push(a));
        if a == x {
            assert(collapse_fold(s, x).0 == acc.0);
        } else if acc.1 && acc.0.len() > 0 {
            let r = acc.0 + seq![x, a];
            assert(collapse_fold(s, x).0 == r);
            assert forall|i: int| #![trigger r[i]] 0 <= i && i + 1 < r.len() implies !(r[i]
                == x && r[i + 1] == x) by {
                if i + 1 < acc.0.len() {
                    assert(r[i] == acc.0[i] && r[i + 1] == acc.0[i + 1]);
                } else if i + 1 == acc.0.len() {
                    assert(r[i] == acc.0[i]);
                } else {
                    assert(r[i + 1] == a);
                }
            }
            assert(r =~= acc.0.push(x).push(a));
            acc.0.lemma_filter_push(x, pred);
            acc.0.push(x).lemma_filter_push(a, pred);
            assert(r.filter(pred) =~= acc.0.filter(pred).push(a));
        } else {
            let r = acc.0.push(a);
            assert(collapse_fold(s, x).0 == r);
            assert forall|i: int| #![trigger r[i]] 0 <= i && i + 1 < r.len() implies !(r[i]
                == x && r[i + 1] == x) by {
                if i + 1 < acc.0.len() {
                    assert(r[i] == acc.0[i] && r[i + 1] == acc.0[i + 1]);
                } else {
                    assert(r[i + 1] == a);
                }
            }
            acc.0.lemma_filter_push(a, pred);
        }
    }
}

/// Collapsing runs of `x` leaves no two adjacent `x` atoms, and keeps every
/// other atom in order and multiplicity.
pub proof fn lemma_cleaned_consecutive_correct(s: Seq<AtomView>, x: AtomView)
    ensures
        no_adjacent_pair(cleaned_consecutive(s, x), x, x),
        cleaned_consecutive(s, x).filter(keep_others(x)) == s.filter(keep_others(x)),
{
    lemma_collapse_fold_props(s, x);
}

proof fn lemma_trim_fold_props(s: Seq<AtomView>, d: AtomView, k: AtomView)
    requires
        d != k,
    ensures
        no_adjacent_pair(trim_fold(s, d, k).0, d, k),
        trim_fold(s, d, k).1 <==> (trim_fold(s, d, k).0.len() == 0 || trim_fold(s, d, k).0.last()
            == d),
    decreases s.len(),
{
    if s.len() > 0 {
        let t = s.drop_last();
        let a = s.last();
        lemma_trim_fold_props(t, d, k);
        let acc = trim_fold(t, d, k);
        if a == d {
            let r = acc.0.push(d);
            assert forall|i: int| #![trigger r[i]] 0 <= i && i + 1 < r.len() implies !(r[i]
                == d && r[i + 1] == k) by {
                if i + 1 < acc.0.len() {
                    assert(r[i] == acc.0[i] && r[i + 1] == acc.0[i + 1]);
                } else {
                    assert(r[i + 1] == d);
                }
            }
        } else if acc.1 && a == k {
        } else {
            let r = acc.0.push(a);
            assert forall|i: int| #![trigger r[i]] 0 <= i && i + 1 < r.len() implies !(r[i]
                == d && r[i + 1] == k) by {
                if i + 1 < acc.0.len() {
                    assert(r[i] == acc.0[i] && r[i + 1] == acc.0[i + 1]);
                } else {
                    assert(r[i] == acc.0.last());
                }
            }
        }
    }
}

/// After trimming, no `skip` atom immediately follows a `delimiter` atom.
pub proof fn lemma_trimmed_following_correct(s: Seq<AtomView>, d: AtomView, k: AtomView)
    requires
        d != k,
    ensures
        no_adjacent_pair(trimmed_following(s, d, k), d, k),
{
    lemma_trim_fold_props(s, d, k);
}

/// Updating one position replaces exactly that element in the multiset.
proof fn lemma_update_to_multiset(s: Seq<AtomView>, i: int, x: AtomView)
    requires
        0 <= i < s.len(),
    ensures
        s.update(i, x).to_multiset() == s.to_multiset().remove(s[i]).insert(x),
{
    assert(s.update(i, x) =~= s.remove(i).insert(i, x));
    to_multiset_remove(s, i);
    to_multiset_insert(s.remove(i), i, x);
}

proof fn lemma_swap_step_multiset(
    s: Seq<AtomView>,
    i: int,
    before: AtomView,
    after: AtomView,
    ignoring: Seq<AtomView>,
)
    ensures
        swap_step(s, i, before, after, ignoring).to_multiset() == s.to_multiset(),
{
    broadcast use vstd::multiset::group_multiset_axioms;

    if 0 <= i < s.len() && s[i] == after {
        let j = swap_scan(s, i + 1, before, after, ignoring);
        lemma_swap_scan_bounds(s, i + 1, before, after, ignoring);
        if j < s.len() && s[j] == before {
            let t = s.update(i, before);
            let u = t.update(j, after);
            lemma_update_to_multiset(s, i, before);
            lemma_update_to_multiset(t, j, after);
            assert(t[j] == before);
            s.to_multiset_ensures();
            assert(s.contains(after));
            assert(s.contains(before));
            assert(s.to_multiset().count(after) > 0);
            assert(s.to_multiset().count(before) > 0);
            assert(u.to_multiset() =~= s.to_multiset());
        }
    }
}

proof fn lemma_put_before_from_multiset(
    s: Seq<AtomView>,
    i: int,
    before: AtomView,
    after: AtomView,
    ignoring: Seq<AtomView>,
)
    ensures
        put_before_from(s, i, before, after, ignoring).to_multiset() == s.to_multiset(),
        put_before_from(s, i, before, after, ignoring).len() == s.len(),
    decreases s.len() - i,
{
    if !(i < 0 || i + 1 >= s.len()) {
        lemma_swap_step_len(s, i, before, after, ignoring);
        lemma_swap_step_multiset(s, i, before, after, ignoring);
        lemma_put_before_from_multiset(
            swap_step(s, i, before, after, ignoring),
            i + 1,
            before,
            after,
            ignoring,
        );
    }
}

/// `put_before` only permutes positions: the output has the same length and
/// the same multiset of atoms as the input.
pub proof fn lemma_put_before_permutes(
    s: Seq<AtomView>,
    before: AtomView,
    after: AtomView,
    ignoring: Seq<AtomView>,
)
    ensures
        put_before_spec(s, before, after, ignoring).to_multiset() == s.to_multiset(),
        put_before_spec(s, before, after, ignoring).len() == s.len(),
{
    lemma_put_before_from_multiset(s, 0, before, after, ignoring);
}

/// All fields of the collection besides the atom stream are the same in `a`
/// and `b`.
pub open spec fn unchanged_but_atoms(a: &AtomCollection, b: &AtomCollection) -> bool {
    &&& a@.prepend == b@.prepend
    &&& a@.append == b@.append
    &&& a@.specified_leaf_nodes == b@.specified_leaf_nodes
    &&& a@.multi_line_nodes == b@.multi_line_nodes
    &&& a@.blank_lines_before == b@.blank_lines_before
    &&& a@.line_break_before == b@.line_break_before
    &&& a@.line_break_after == b@.line_break_after
}

// ---------------------------------------------------------------------------
// Leaf collection.
// ---------------------------------------------------------------------------

/// Relies on `String::from_utf8`: it succeeds exactly on valid UTF-8 input
/// and then yields the decoding of those bytes.
#[verifier::external_body]
fn string_from_utf8(bytes: Vec<u8>) -> (r: Option<String>)
    ensures
        r is Some <==> vstd::utf8::valid_utf8(bytes@),
        r matches Some(s) ==> s@ == vstd::utf8::decode_utf8(bytes@),
{
    String::from_utf8(bytes).ok()
}

/// Whether node `i` is turned into a single leaf atom: it has no children,
/// or it was declared an atomic leaf.
pub open spec fn is_leaf_node(t: Seq<NodeView>, i: int, specified: Seq<bool>) -> bool {
    t[i].children.len() == 0 || (0 <= i < specified.len() && specified[i])
}

/// The leaf atom of node `i`: its verbatim source text, decoded from the
/// node's byte range; nothing when the range is invalid or not UTF-8.
pub open spec fn leaf_atom_of(t: Seq<NodeView>, i: int, src: Seq<u8>) -> Option<AtomView> {
    let sb = t[i].start_byte;
    let eb = t[i].end_byte;
    if 0 <= sb <= eb <= src.len() && vstd::utf8::valid_utf8(src.subrange(sb, eb)) {
        Some(
            AtomView::Leaf {
                content: vstd::utf8::decode_utf8(src.subrange(sb, eb)),
                id: i,
            },
        )
    } else {
        None
    }
}

/// The ordered leaf atoms of the subtree at `i`: one atom when the node is a
/// leaf (or atomic leaf), otherwise the concatenation over its children in
/// source order; nothing when any text extraction fails.
pub open spec fn subtree_atoms(
    t: Seq<NodeView>,
    i: int,
    specified: Seq<bool>,
    src: Seq<u8>,
) -> Option<Seq<AtomView>>
    decreases t.len() - i, 1int, 0int,
{
    if !(0 <= i < t.len()) {
        None
    } else if is_leaf_node(t, i, specified) {
        match leaf_atom_of(t, i, src) {
            Some(a) => Some(seq![a]),
            None => None,
        }
    } else {
        children_atoms(t, i, 0, specified, src)
    }
}

/// The concatenated leaf atoms of children `k..` of node `i`.
pub open spec fn children_atoms(
    t: Seq<NodeView>,
    i: int,
    k: int,
    specified: Seq<bool>,
    src: Seq<u8>,
) -> Option<Seq<AtomView>>
    decreases t.len() - i, 0int, t[i].children.len() - k,
{
    if !(0 <= i < t.len()) || !(0 <= k) {
        None
    } else if k >= t[i].children.len() {
        Some(Seq::empty())
    } else {
        let c = t[i].children[k];
        if !(i < c < t.len()) {
            None
        } else {
            match (subtree_atoms(t, c, specified, src), children_atoms(
                t,
                i,
                k + 1,
                specified,
                src,
            )) {
                (Some(first), Some(rest)) => Some(first + rest),
                _ => None,
            }
        }
    }
}

proof fn lemma_subtree_atoms_leaf_ids(t: Seq<NodeView>, i: int, specified: Seq<bool>, src: Seq<u8>)
    ensures
        subtree_atoms(t, i, specified, src) matches Some(atoms) ==> leaf_ids_below(
            atoms,
            t.len() as int,
        ),
    decreases t.len() - i, 1int, 0int,
{
    if 0 <= i < t.len() && !is_leaf_node(t, i, specified) {
        lemma_children_atoms_leaf_ids(t, i, 0, specified, src);
    }
}

proof fn lemma_children_atoms_leaf_ids(
    t: Seq<NodeView>,
    i: int,
    k: int,
    specified: Seq<bool>,
    src: Seq<u8>,
)
    ensures
        children_atoms(t, i, k, specified, src) matches Some(atoms) ==> leaf_ids_below(
            atoms,
            t.len() as int,
        ),
    decreases t.len() - i, 0int, t[i].children.len() - k,
{
    if 0 <= i < t.len() && 0 <= k && k < t[i].children.len() {
        let c = t[i].children[k];
        if i < c < t.len() {
            lemma_subtree_atoms_leaf_ids(t, c, specified, src);
            lemma_children_atoms_leaf_ids(t, i, k + 1, specified, src);
        }
    }
}

impl AtomCollection {
    /// Recursive descent of leaf collection: appends the leaf atoms of the
    /// subtree at `node` to the stream, or reports the node whose text could
    /// not be extracted.
    #[verifier::loop_isolation(false)]
    fn collect_leafs_inner(&mut self, tree: &Cst, node: usize, source: &[u8]) -> (r: Result<
        (),
        FormatterError,
    >)
        requires
            tree.wf(),
            node < tree@.len(),
            old(self)@.specified_leaf_nodes.len() == tree@.len(),
        ensures
            unchanged_but_atoms(old(self), final(self)),
            match subtree_atoms(
                tree@,
                node as int,
                old(self)@.specified_leaf_nodes,
                source@,
            ) {
                Some(atoms) => r is Ok && final(self)@.atoms == old(self)@.atoms + atoms,
                None => r is Err,
            },
            r matches Err(e) ==> e is TextExtraction,
        decreases tree@.len() - node,
    {
        let ghost t = tree@;
        let ghost spec_set = self@.specified_leaf_nodes;
        let ghost src = source@;
        let nd = tree.node(node);
        let child_count = nd.children.len();
        proof {
            assert(child_count as int == t[node as int].children.len());
        }
        if child_count == 0 || self.specified_leaf_nodes[node] {
            let sb = nd.start_byte;
            let eb = nd.end_byte;
            if sb > eb || eb > source.len() {
                return Err(FormatterError::TextExtraction(node));
            }
            let mut bytes: Vec<u8> = Vec::new();
            let mut p = sb;
            while p < eb
                invariant
                    sb <= p <= eb,
                    bytes@ == src.subrange(sb as int, p as int),
                decreases eb - p,
            {
                bytes.push(source[p]);
                proof {
                    assert(bytes@ =~= src.subrange(sb as int, p + 1));
                }
                p = p + 1;
            }
            proof {
                assert(bytes@ =~= src.subrange(sb as int, eb as int));
            }
            let ghost bv = bytes@;
            match string_from_utf8(bytes) {
                Some(content) => {
                    let ghost mid = self.atoms.deep_view();
                    let ghost cv = content@;
                    self.atoms.push(Atom::Leaf { content, id: node });
                    proof {
                        assert(self.atoms.deep_view() =~= mid.push(
                            AtomView::Leaf { content: cv, id: node as int },
                        ));
                        assert(leaf_atom_of(t, node as int, src) == Some(
                            AtomView::Leaf { content: cv, id: node as int },
                        ));
                        assert(self@.atoms =~= old(self)@.atoms + seq![
                            AtomView::Leaf { content: cv, id: node as int },
                        ]);
                    }
                    Ok(())
                },
                None => {
                    proof {
                        assert(leaf_atom_of(t, node as int, src) is None);
                    }
                    Err(FormatterError::TextExtraction(node))
                },
            }
        } else {
            let ghost base = self@.atoms;
            let mut k: usize = 0;
            while k < child_count
                invariant
                    child_count == t[node as int].children.len(),
                    k <= child_count,
                    unchanged_but_atoms(old(self), self),
                    base.is_prefix_of(self@.atoms),
                    children_atoms(t, node as int, 0, spec_set, src) == (match children_atoms(
                        t,
                        node as int,
                        k as int,
                        spec_set,
                        src,
                    ) {
                        Some(rest) => Some(self@.atoms.skip(base.len() as int) + rest),
                        None => None::<Seq<AtomView>>,
                    }),
                decreases child_count - k,
            {
                let c = tree.node(node).children[k];
                proof {
                    assert(node_wf(t, node as int));
                    assert(t[node as int].children[k as int] == c as int);
                }
                let ghost pre = self@.atoms;
                let res = self.collect_leafs_inner(tree, c, source);
                match res {
                    Err(e) => {
                        proof {
                            assert(children_atoms(t, node as int, k as int, spec_set, src)
                                is None);
                        }
                        return Err(e);
                    },
                    Ok(()) => {},
                }
                proof {
                    let sub = subtree_atoms(t, c as int, spec_set, src).unwrap();
                    assert(self@.atoms == pre + sub);
                    assert(base.is_prefix_of(self@.atoms)) by {
                        assert(self@.atoms.take(base.len() as int) =~= base);
                    }
                    assert(self@.atoms.skip(base.len() as int) =~= pre.skip(base.len() as int)
                        + sub);
                    match children_atoms(t, node as int, k + 1, spec_set, src) {
                        Some(rest) => {
                            assert(children_atoms(t, node as int, k as int, spec_set, src)
                                == Some(sub + rest));
                            assert(pre.skip(base.len() as int) + (sub + rest) =~= (pre.skip(
                                base.len() as int,
                            ) + sub) + rest);
                        },
                        None => {
                            assert(children_atoms(t, node as int, k as int, spec_set, src)
                                is None);
                        },
                    }
                }
                k = k + 1;
            }
            proof {
                assert(children_atoms(t, node as int, child_count as int, spec_set, src)
                    == Some(Seq::<AtomView>::empty()));
                assert(self@.atoms.skip(base.len() as int) + Seq::<AtomView>::empty()
                    =~= self@.atoms.skip(base.len() as int));
                assert(base + self@.atoms.skip(base.len() as int) =~= self@.atoms);
            }
            Ok(())
        }
    }

    /// Builds the initial collection for one document: walks the tree once,
    /// collecting a leaf atom for every leaf or atomic-leaf node in source
    /// order, and computes the per-node line classifications.
    pub fn collect_leafs(root: &Cst, source: &[u8], specified_leaf_nodes: Vec<bool>) -> (r:
        FormatterResult<AtomCollection>)
        requires
            root.wf(),
            root@.len() > 0,
            specified_leaf_nodes@.len() == root@.len(),
        ensures
            match r {
                Ok(c) => {
                    &&& subtree_atoms(root@, 0, specified_leaf_nodes@, source@) == Some(c@.atoms)
                    &&& c.wf()
                    &&& c.node_count() == root@.len()
                    &&& c@.specified_leaf_nodes == specified_leaf_nodes@
                    &&& forall|i: int|
                        0 <= i < root@.len() ==> c@.multi_line_nodes[i] == (root@[i].end_row
                            > root@[i].start_row)
                    &&& c@.blank_lines_before == crate::tree::detected_breaks(root@, 2).0
                    &&& c@.line_break_before == crate::tree::detected_breaks(root@, 1).0
                    &&& c@.line_break_after == crate::tree::detected_breaks(root@, 1).1
                    &&& forall|i: int|
                        0 <= i < root@.len() ==> (#[trigger] c@.prepend[i]).len() == 0
                    &&& forall|i: int| 0 <= i < root@.len() ==> (#[trigger] c@.append[i]).len() == 0
                },
                Err(e) => subtree_atoms(root@, 0, specified_leaf_nodes@, source@) is None
                    && e is TextExtraction,
            },
    {
        let n = root.len();
        let multi_line_nodes = detect_multi_line_nodes(root);
        let blank_lines_before = detect_blank_lines_before(root);
        let (line_break_before, line_break_after) = detect_line_break_before_and_after(root);
        let prepend = empty_tables(n);
        let append = empty_tables(n);
        let mut atoms = AtomCollection {
            atoms: Vec::new(),
            prepend,
            append,
            specified_leaf_nodes,
            multi_line_nodes,
            blank_lines_before,
            line_break_before,
            line_break_after,
        };
        let res = atoms.collect_leafs_inner(root, 0, source);
        match res {
            Ok(()) => {
                proof {
                    lemma_subtree_atoms_leaf_ids(root@, 0, atoms@.specified_leaf_nodes, source@);
                    assert(Seq::<AtomView>::empty() + subtree_atoms(
                        root@,
                        0,
                        atoms@.specified_leaf_nodes,
                        source@,
                    ).unwrap() =~= subtree_atoms(
                        root@,
                        0,
                        atoms@.specified_leaf_nodes,
                        source@,
                    ).unwrap());
                }
                Ok(atoms)
            },
            Err(e) => Err(e),
        }
    }
}

/// A table of `n` empty atom lists.
fn empty_tables(n: usize) -> (r: Vec<Vec<Atom>>)
    ensures
        r.deep_view().len() == n as int,
        forall|i: int| 0 <= i < n ==> (#[trigger] r.deep_view()[i]).len() == 0,
{
    let mut r: Vec<Vec<Atom>> = Vec::new();
    let mut i: usize = 0;
    while i < n
        invariant
            i <= n,
            r.deep_view().len() == i as int,
            forall|m: int| 0 <= m < i ==> (#[trigger] r.deep_view()[m]).len() == 0,
        decreases n - i,
    {
        let ghost pre = r.deep_view();
        let empty_list: Vec<Atom> = Vec::new();
        r.push(empty_list);
        proof {
            assert(r.deep_view() =~~= pre.push(Seq::<AtomView>::empty()));
        }
        i = i + 1;
    }
    r
}

// ---------------------------------------------------------------------------
// Directive resolution.
// ---------------------------------------------------------------------------

/// The atom a softline resolves to at insertion time, judged against the
/// multi-line classification of the node's parent: a `Hardline` under a
/// multi-line parent, else a `Space` when spaced, else nothing; a softline on
/// a parentless node is dropped.  Atoms other than softlines pass through.
pub open spec fn softline_expanded(
    c: AtomCollectionView,
    t: Seq<NodeView>,
    node: int,
    atom: AtomView,
) -> Option<AtomView> {
    match atom {
        AtomView::Softline { spaced } => match t[node].parent {
            Some(p) => if 0 <= p < c.multi_line_nodes.len() && c.multi_line_nodes[p] {
                Some(AtomView::Hardline)
            } else if spaced {
                Some(AtomView::Space)
            } else {
                None
            },
            None => None,
        },
        _ => Some(atom),
    }
}

/// The anchor leaf a directive on `node` prepends to: the first leaf of the
/// node's subtree, redirected to the nearest atomic-leaf ancestor if the leaf
/// sits inside one.
pub open spec fn prepend_anchor(c: AtomCollectionView, t: Seq<NodeView>, node: int) -> int {
    let fl = first_leaf_of(t, node);
    anchor_of(t, c.specified_leaf_nodes, fl, fl)
}

/// The anchor leaf a directive on `node` appends to: the last leaf of the
/// node's subtree, redirected likewise.
pub open spec fn append_anchor(c: AtomCollectionView, t: Seq<NodeView>, node: int) -> int {
    let ll = last_leaf_of(t, node);
    anchor_of(t, c.specified_leaf_nodes, ll, ll)
}

/// The collection after prepending `atom` (softline-resolved) to the anchor
/// leaf of `node`.
pub open spec fn prepended(
    c: AtomCollectionView,
    t: Seq<NodeView>,
    node: int,
    atom: AtomView,
) -> AtomCollectionView {
    match softline_expanded(c, t, node, atom) {
        None => c,
        Some(a) => {
            let tgt = prepend_anchor(c, t, node);
            AtomCollectionView { prepend: c.prepend.update(tgt, c.prepend[tgt].push(a)), ..c }
        },
    }
}

/// The collection after appending `atom` (softline-resolved) to the anchor
/// leaf of `node`.
pub open spec fn appended(
    c: AtomCollectionView,
    t: Seq<NodeView>,
    node: int,
    atom: AtomView,
) -> AtomCollectionView {
    match softline_expanded(c, t, node, atom) {
        None => c,
        Some(a) => {
            let tgt = append_anchor(c, t, node);
            AtomCollectionView { append: c.append.update(tgt, c.append[tgt].push(a)), ..c }
        },
    }
}

/// The effect of resolving one directive `name` against `node`, with an
/// optional delimiter: either the new collection, or the one error a
/// directive can raise, `append_delimiter` without a delimiter.  A name
/// outside the vocabulary changes nothing.
pub open spec fn resolved_capture(
    c: AtomCollectionView,
    t: Seq<NodeView>,
    node: int,
    name: Seq<char>,
    delim: Option<Seq<char>>,
) -> Result<AtomCollectionView, ()> {
    if name == "allow_blank_line_before"@ {
        Ok(
            if 0 <= node < c.blank_lines_before.len() && c.blank_lines_before[node] {
                prepended(c, t, node, AtomView::Blankline)
            } else {
                c
            },
        )
    } else if name == "append_delimiter"@ {
        match delim {
            Some(d) => Ok(appended(c, t, node, AtomView::Literal(d))),
            None => Err(()),
        }
    } else if name == "append_empty_softline"@ {
        Ok(appended(c, t, node, AtomView::Softline { spaced: false }))
    } else if name == "append_hardline"@ {
        Ok(appended(c, t, node, AtomView::Hardline))
    } else if name == "append_indent_start"@ {
        Ok(appended(c, t, node, AtomView::IndentStart))
    } else if name == "append_indent_end"@ {
        Ok(appended(c, t, node, AtomView::IndentEnd))
    } else if name == "append_input_softline"@ {
        Ok(
            if 0 <= node < c.line_break_after.len() && c.line_break_after[node] {
                appended(c, t, node, AtomView::Hardline)
            } else {
                appended(c, t, node, AtomView::Space)
            },
        )
    } else if name == "append_space"@ {
        Ok(appended(c, t, node, AtomView::Space))
    } else if name == "append_spaced_softline"@ {
        Ok(appended(c, t, node, AtomView::Softline { spaced: true }))
    } else if name == "prepend_empty_softline"@ {
        Ok(prepended(c, t, node, AtomView::Softline { spaced: false }))
    } else if name == "prepend_indent_start"@ {
        Ok(prepended(c, t, node, AtomView::IndentStart))
    } else if name == "prepend_indent_end"@ {
        Ok(prepended(c, t, node, AtomView::IndentEnd))
    } else if name == "prepend_input_softline"@ {
        Ok(
            if 0 <= node < c.line_break_before.len() && c.line_break_before[node] {
                prepended(c, t, node, AtomView::Hardline)
            } else {
                prepended(c, t, node, AtomView::Space)
            },
        )
    } else if name == "prepend_space"@ {
        Ok(prepended(c, t, node, AtomView::Space))
    } else if name == "prepend_spaced_softline"@ {
        Ok(prepended(c, t, node, AtomView::Softline { spaced: true }))
    } else {
        Ok(c)
    }
}

/// Whether `name` has the same characters as `lit`.
fn name_is(name: &String, lit: &str) -> (r: bool)
    ensures
        r == (name@ == lit@),
{
    let other = lit.to_owned();
    name.eq(&other)
}

impl AtomCollection {
    /// Resolves a softline at insertion time; see [`softline_expanded`].
    fn expand_softline(&self, atom: Atom, tree: &Cst, node: usize) -> (r: Option<Atom>)
        requires
            tree.wf(),
            node < tree@.len(),
            self.node_count() == tree@.len(),
            self.wf(),
        ensures
            r.deep_view() == softline_expanded(self@, tree@, node as int, atom@),
    {
        match atom {
            Atom::Softline { spaced } => {
                match tree.node(node).parent {
                    Some(p) => {
                        proof {
                            assert(node_wf(tree@, node as int));
                        }
                        if self.multi_line_nodes[p] {
                            Some(Atom::Hardline)
                        } else if spaced {
                            Some(Atom::Space)
                        } else {
                            None
                        }
                    },
                    None => None,
                }
            },
            _ => Some(atom),
        }
    }

    /// Climbs from `node` to the nearest ancestor declared an atomic leaf;
    /// returns `node` itself when there is none.
    fn parent_leaf_node(&self, tree: &Cst, node: usize) -> (r: usize)
        requires
            tree.wf(),
            node < tree@.len(),
            self.node_count() == tree@.len(),
            self.wf(),
        ensures
            r as int == anchor_of(tree@, self@.specified_leaf_nodes, node as int, node as int),
            r < tree@.len(),
    {
        let mut cur = node;
        loop
            invariant
                tree.wf(),
                self.wf(),
                self.node_count() == tree@.len(),
                node < tree@.len(),
                cur < tree@.len(),
                anchor_of(tree@, self@.specified_leaf_nodes, node as int, cur as int) == anchor_of(
                    tree@,
                    self@.specified_leaf_nodes,
                    node as int,
                    node as int,
                ),
            decreases cur,
        {
            proof {
                assert(node_wf(tree@, cur as int));
            }
            match tree.node(cur).parent {
                None => {
                    return node;
                },
                Some(p) => {
                    if self.specified_leaf_nodes[p] {
                        return p;
                    }
                    cur = p;
                },
            }
        }
    }

    /// Queues `atom` (softline-resolved) in front of the anchor leaf of
    /// `node`.
    fn prepend(&mut self, atom: Atom, tree: &Cst, node: usize)
        requires
            tree.wf(),
            node < tree@.len(),
            old(self).node_count() == tree@.len(),
            old(self).wf(),
            !(atom@ is Leaf),
        ensures
            final(self)@ == prepended(old(self)@, tree@, node as int, atom@),
            final(self).wf(),
            final(self).node_count() == old(self).node_count(),
    {
        let resolved = self.expand_softline(atom, tree, node);
        match resolved {
            None => {},
            Some(a) => {
                let fl = first_leaf(tree, node);
                let tgt = self.parent_leaf_node(tree, fl);
                let ghost pre = self@.prepend;
                let ghost av = a@;
                let list = &mut self.prepend[tgt];
                list.push(a);
                proof {
                    assert(self@.prepend =~~= pre.update(
                        tgt as int,
                        pre[tgt as int].push(av),
                    ));
                    assert(softline_expanded(old(self)@, tree@, node as int, atom@) matches Some(
                        x,
                    ) && x == av);
                    assert(!(av is Leaf));
                    assert(self@ == prepended(old(self)@, tree@, node as int, atom@));
                    assert(leaf_ids_below(self@.prepend[tgt as int], self.node_count()));
                }
            },
        }
    }

    /// Queues `atom` (softline-resolved) behind the anchor leaf of `node`.
    fn append(&mut self, atom: Atom, tree: &Cst, node: usize)
        requires
            tree.wf(),
            node < tree@.len(),
            old(self).node_count() == tree@.len(),
            old(self).wf(),
            !(atom@ is Leaf),
        ensures
            final(self)@ == appended(old(self)@, tree@, node as int, atom@),
            final(self).wf(),
            final(self).node_count() == old(self).node_count(),
    {
        let resolved = self.expand_softline(atom, tree, node);
        match resolved {
            None => {},
            Some(a) => {
                let ll = last_leaf(tree, node);
                let tgt = self.parent_leaf_node(tree, ll);
                let ghost pre = self@.append;
                let ghost av = a@;
                let list = &mut self.append[tgt];
                list.push(a);
                proof {
                    assert(self@.append =~~= pre.update(
                        tgt as int,
                        pre[tgt as int].push(av),
                    ));
                    assert(softline_expanded(old(self)@, tree@, node as int, atom@) matches Some(
                        x,
                    ) && x == av);
                    assert(!(av is Leaf));
                    assert(self@ == appended(old(self)@, tree@, node as int, atom@));
                    assert(leaf_ids_below(self@.append[tgt as int], self.node_count()));
                }
            },
        }
    }

    /// Resolves one directive from the query engine against `node`, inserting
    /// the corresponding atom around the anchor leaf.  Exactly one misuse is
    /// an error: `append_delimiter` without a delimiter.  Unknown directive
    /// names are ignored, so new directives never abort processing.
    pub fn resolve_capture(
        &mut self,
        name: String,
        tree: &Cst,
        node: usize,
        delimiter: Option<&str>,
    ) -> (r: FormatterResult<()>)
        requires
            tree.wf(),
            node < tree@.len(),
            old(self).node_count() == tree@.len(),
            old(self).wf(),
        ensures
            final(self).wf(),
            final(self).node_count() == old(self).node_count(),
            match resolved_capture(
                old(self)@,
                tree@,
                node as int,
                name@,
                delimiter.deep_view(),
            ) {
                Ok(v) => r is Ok && final(self)@ == v,
                Err(()) => r is Err && final(self)@ == old(self)@,
            },
            r matches Err(e) ==> (e matches FormatterError::Query(m) && m@
                == "@append_delimiter requires a #delimiter! predicate"@),
    {
        if name_is(&name, "allow_blank_line_before") {
            if self.blank_lines_before[node] {
                self.prepend(Atom::Blankline, tree, node);
            }
            Ok(())
        } else if name_is(&name, "append_delimiter") {
            match delimiter {
                Some(d) => {
                    self.append(Atom::Literal(d.to_owned()), tree, node);
                    Ok(())
                },
                None => Err(
                    FormatterError::Query(
                        "@append_delimiter requires a #delimiter! predicate".to_owned(),
                    ),
                ),
            }
        } else if name_is(&name, "append_empty_softline") {
            self.append(Atom::Softline { spaced: false }, tree, node);
            Ok(())
        } else if name_is(&name, "append_hardline") {
            self.append(Atom::Hardline, tree, node);
            Ok(())
        } else if name_is(&name, "append_indent_start") {
            self.append(Atom::IndentStart, tree, node);
            Ok(())
        } else if name_is(&name, "append_indent_end") {
            self.append(Atom::IndentEnd, tree, node);
            Ok(())
        } else if name_is(&name, "append_input_softline") {
            let space = if self.line_break_after[node] {
                Atom::Hardline
            } else {
                Atom::Space
            };
            self.append(space, tree, node);
            Ok(())
        } else if name_is(&name, "append_space") {
            self.append(Atom::Space, tree, node);
            Ok(())
        } else if name_is(&name, "append_spaced_softline") {
            self.append(Atom::Softline { spaced: true }, tree, node);
            Ok(())
        } else if name_is(&name, "prepend_empty_softline") {
            self.prepend(Atom::Softline { spaced: false }, tree, node);
            Ok(())
        } else if name_is(&name, "prepend_indent_start") {
            self.prepend(Atom::IndentStart, tree, node);
            Ok(())
        } else if name_is(&name, "prepend_indent_end") {
            self.prepend(Atom::IndentEnd, tree, node);
            Ok(())
        } else if name_is(&name, "prepend_input_softline") {
            let space = if self.line_break_before[node] {
                Atom::Hardline
            } else {
                Atom::Space
            };
            self.prepend(space, tree, node);
            Ok(())
        } else if name_is(&name, "prepend_space") {
            self.prepend(Atom::Space, tree, node);
            Ok(())
        } else if name_is(&name, "prepend_spaced_softline") {
            self.prepend(Atom::Softline { spaced: true }, tree, node);
            Ok(())
        } else {
            Ok(())
        }
    }
}


/// A node declared an atomic leaf becomes exactly one leaf atom carrying its
/// own id, however many children it has in the tree.
pub proof fn lemma_atomic_leaf_single_atom(
    t: Seq<NodeView>,
    i: int,
    specified: Seq<bool>,
    src: Seq<u8>,
)
    requires
        0 <= i < t.len(),
        0 <= i < specified.len(),
        specified[i],
        (subtree_atoms(t, i, specified, src) is Some),
    ensures
        subtree_atoms(t, i, specified, src).unwrap().len() == 1,
        subtree_atoms(t, i, specified, src).unwrap()[0] == (AtomView::Leaf {
            content: vstd::utf8::decode_utf8(src.subrange(t[i].start_byte, t[i].end_byte)),
            id: i,
        }),
{
    assert(is_leaf_node(t, i, specified));
}

// ---------------------------------------------------------------------------
// No softline survives the pipeline.
// ---------------------------------------------------------------------------

/// Every atom of the collapse output is the separator `x` or an atom of the
/// input.
proof fn lemma_collapse_fold_elements(s: Seq<AtomView>, x: AtomView)
    ensures
        forall|m: int|
            0 <= m < collapse_fold(s, x).0.len() ==> (#[trigger] collapse_fold(s, x).0[m] == x
                || s.contains(collapse_fold(s, x).0[m])),
    decreases s.len(),
{
    if s.len() > 0 {
        let t = s.drop_last();
        let a = s.last();
        lemma_collapse_fold_elements(t, x);
        let out = collapse_fold(s, x).0;
        assert forall|m: int| 0 <= m < out.len() implies (#[trigger] out[m] == x || s.contains(
            out[m],
        )) by {
            let prev = collapse_fold(t, x).0;
            if m < prev.len() {
                assert(out[m] == prev[m]);
                if prev[m] != x {
                    let j = choose|j: int| 0 <= j < t.len() && t[j] == prev[m];
                    assert(s[j] == prev[m]);
                }
            } else {
                assert(out[m] == x || out[m] == a);
                assert(s[s.len() - 1] == a);
            }
        }
    }
}

/// Every atom of the trim output is the delimiter `d` or an atom of the
/// input.
proof fn lemma_trim_fold_elements(s: Seq<AtomView>, d: AtomView, k: AtomView)
    ensures
        forall|m: int|
            0 <= m < trim_fold(s, d, k).0.len() ==> (#[trigger] trim_fold(s, d, k).0[m] == d
                || s.contains(trim_fold(s, d, k).0[m])),
    decreases s.len(),
{
    if s.len() > 0 {
        let t = s.drop_last();
        let a = s.last();
        lemma_trim_fold_elements(t, d, k);
        let out = trim_fold(s, d, k).0;
        assert forall|m: int| 0 <= m < out.len() implies (#[trigger] out[m] == d || s.contains(
            out[m],
        )) by {
            let prev = trim_fold(t, d, k).0;
            if m < prev.len() {
                assert(out[m] == prev[m]);
                if prev[m] != d {
                    let j = choose|j: int| 0 <= j < t.len() && t[j] == prev[m];
                    assert(s[j] == prev[m]);
                }
            } else {
                assert(out[m] == d || out[m] == a);
                assert(s[s.len() - 1] == a);
            }
        }
    }
}

/// A permutation pass keeps softline-freedom.
proof fn lemma_put_before_no_softlines(
    s: Seq<AtomView>,
    before: AtomView,
    after: AtomView,
    ignoring: Seq<AtomView>,
)
    requires
        crate::pretty::no_softlines(s),
    ensures
        crate::pretty::no_softlines(put_before_spec(s, before, after, ignoring)),
{
    broadcast use vstd::multiset::group_multiset_axioms;

    lemma_put_before_permutes(s, before, after, ignoring);
    let out = put_before_spec(s, before, after, ignoring);
    s.to_multiset_ensures();
    out.to_multiset_ensures();
    assert forall|m: int| 0 <= m < out.len() implies !(#[trigger] out[m] is Softline) by {
        assert(out.contains(out[m]));
        assert(s.to_multiset().count(out[m]) > 0);
        assert(s.contains(out[m]));
        let j = choose|j: int| 0 <= j < s.len() && s[j] == out[m];
        assert(!(s[j] is Softline));
    }
}

/// The fixed post-processing sequence never introduces a softline: its
/// rewrites only move, drop and insert whitespace and line-break markers.
pub proof fn lemma_post_processed_no_softlines(s: Seq<AtomView>)
    requires
        crate::pretty::no_softlines(s),
    ensures
        crate::pretty::no_softlines(post_processed(s)),
{
    let s1 = put_before_spec(s, AtomView::IndentEnd, AtomView::Space, Seq::empty());
    lemma_put_before_no_softlines(s, AtomView::IndentEnd, AtomView::Space, Seq::empty());
    let s2 = trimmed_following(s1, AtomView::Blankline, AtomView::Space);
    lemma_trim_fold_elements(s1, AtomView::Blankline, AtomView::Space);
    assert forall|m: int| 0 <= m < s2.len() implies !(#[trigger] s2[m] is Softline) by {
        if s2[m] != AtomView::Blankline {
            let j = choose|j: int| 0 <= j < s1.len() && s1[j] == s2[m];
        }
    }
    let s3 = put_before_spec(s2, AtomView::Hardline, AtomView::Blankline, seq![AtomView::Space]);
    lemma_put_before_no_softlines(s2, AtomView::Hardline, AtomView::Blankline, seq![AtomView::Space]);
    let s4 = put_before_spec(s3, AtomView::IndentStart, AtomView::Space, Seq::empty());
    lemma_put_before_no_softlines(s3, AtomView::IndentStart, AtomView::Space, Seq::empty());
    let s5 = put_before_spec(s4, AtomView::IndentStart, AtomView::Hardline, seq![AtomView::Space]);
    lemma_put_before_no_softlines(s4, AtomView::IndentStart, AtomView::Hardline, seq![AtomView::Space]);
    let s6 = put_before_spec(s5, AtomView::IndentEnd, AtomView::Hardline, seq![AtomView::Space]);
    lemma_put_before_no_softlines(s5, AtomView::IndentEnd, AtomView::Hardline, seq![AtomView::Space]);
    let s7 = trimmed_following(s6, AtomView::Hardline, AtomView::Space);
    lemma_trim_fold_elements(s6, AtomView::Hardline, AtomView::Space);
    assert forall|m: int| 0 <= m < s7.len() implies !(#[trigger] s7[m] is Softline) by {
        if s7[m] != AtomView::Hardline {
            let j = choose|j: int| 0 <= j < s6.len() && s6[j] == s7[m];
        }
    }
    let s8 = cleaned_consecutive(s7, AtomView::Space);
    lemma_collapse_fold_elements(s7, AtomView::Space);
    assert forall|m: int| 0 <= m < s8.len() implies !(#[trigger] s8[m] is Softline) by {
        if s8[m] != AtomView::Space {
            let j = choose|j: int| 0 <= j < s7.len() && s7[j] == s8[m];
        }
    }
    let s9 = cleaned_consecutive(s8, AtomView::Hardline);
    lemma_collapse_fold_elements(s8, AtomView::Hardline);
    assert forall|m: int| 0 <= m < s9.len() implies !(#[trigger] s9[m] is Softline) by {
        if s9[m] != AtomView::Hardline {
            let j = choose|j: int| 0 <= j < s8.len() && s8[j] == s9[m];
        }
    }
    let s10 = with_final_hardline(s9);
    assert forall|m: int| 0 <= m < s10.len() implies !(#[trigger] s10[m] is Softline) by {
        if m < s9.len() {
            assert(s10[m] == s9[m]);
        }
    }
}

/// No prepend or append list of the collection holds a softline.
pub open spec fn tables_softline_free(c: AtomCollectionView) -> bool {
    &&& forall|i: int|
        0 <= i < c.prepend.len() ==> crate::pretty::no_softlines(#[trigger] c.prepend[i])
    &&& forall|i: int|
        0 <= i < c.append.len() ==> crate::pretty::no_softlines(#[trigger] c.append[i])
}

proof fn lemma_subtree_atoms_no_softlines(
    t: Seq<NodeView>,
    i: int,
    specified: Seq<bool>,
    src: Seq<u8>,
)
    ensures
        subtree_atoms(t, i, specified, src) matches Some(atoms) ==> crate::pretty::no_softlines(
            atoms,
        ),
    decreases t.len() - i, 1int, 0int,
{
    if 0 <= i < t.len() && !is_leaf_node(t, i, specified) {
        lemma_children_atoms_no_softlines(t, i, 0, specified, src);
    }
}

proof fn lemma_children_atoms_no_softlines(
    t: Seq<NodeView>,
    i: int,
    k: int,
    specified: Seq<bool>,
    src: Seq<u8>,
)
    ensures
        children_atoms(t, i, k, specified, src) matches Some(atoms)
            ==> crate::pretty::no_softlines(atoms),
    decreases t.len() - i, 0int, t[i].children.len() - k,
{
    if 0 <= i < t.len() && 0 <= k && k < t[i].children.len() {
        let c = t[i].children[k];
        if i < c < t.len() {
            lemma_subtree_atoms_no_softlines(t, c, specified, src);
            lemma_children_atoms_no_softlines(t, i, k + 1, specified, src);
        }
    }
}

/// The freshly collected stream holds only leaf atoms, so no softline.
pub proof fn lemma_collected_no_softlines(
    t: Seq<NodeView>,
    specified: Seq<bool>,
    src: Seq<u8>,
)
    ensures
        subtree_atoms(t, 0, specified, src) matches Some(atoms) ==> crate::pretty::no_softlines(
            atoms,
        ),
{
    lemma_subtree_atoms_no_softlines(t, 0, specified, src);
}

/// The leftmost leaf of a subtree is a node of the tree.
proof fn lemma_first_leaf_of_range(t: Seq<NodeView>, i: int)
    requires
        0 <= i < t.len(),
    ensures
        0 <= first_leaf_of(t, i) < t.len(),
    decreases t.len() - i,
{
    if t[i].children.len() > 0 && i < t[i].children[0] < t.len() {
        lemma_first_leaf_of_range(t, t[i].children[0]);
    }
}

/// The rightmost leaf of a subtree is a node of the tree.
proof fn lemma_last_leaf_of_range(t: Seq<NodeView>, i: int)
    requires
        0 <= i < t.len(),
    ensures
        0 <= last_leaf_of(t, i) < t.len(),
    decreases t.len() - i,
{
    if t[i].children.len() > 0 && i < t[i].children[t[i].children.len() - 1] < t.len() {
        lemma_last_leaf_of_range(t, t[i].children[t[i].children.len() - 1]);
    }
}

/// The anchor of a directive is a node of the tree.
proof fn lemma_anchor_of_range(t: Seq<NodeView>, specified: Seq<bool>, orig: int, i: int)
    requires
        0 <= orig < t.len(),
        0 <= i < t.len(),
    ensures
        0 <= anchor_of(t, specified, orig, i) < t.len(),
    decreases i,
{
    match t[i].parent {
        Some(p) => {
            if 0 <= p < i && !(0 <= p < specified.len() && specified[p]) {
                lemma_anchor_of_range(t, specified, orig, p);
            }
        },
        None => {},
    }
}

proof fn lemma_prepended_tables_softline_free(
    c: AtomCollectionView,
    t: Seq<NodeView>,
    node: int,
    atom: AtomView,
)
    requires
        tables_softline_free(c),
        c.prepend.len() == t.len(),
        c.append.len() == t.len(),
        0 <= node < t.len(),
    ensures
        tables_softline_free(prepended(c, t, node, atom)),
        prepended(c, t, node, atom).atoms == c.atoms,
        tables_softline_free(appended(c, t, node, atom)),
        appended(c, t, node, atom).atoms == c.atoms,
{
    lemma_first_leaf_of_range(t, node);
    lemma_last_leaf_of_range(t, node);
    lemma_anchor_of_range(t, c.specified_leaf_nodes, first_leaf_of(t, node), first_leaf_of(t, node));
    lemma_anchor_of_range(t, c.specified_leaf_nodes, last_leaf_of(t, node), last_leaf_of(t, node));
    match softline_expanded(c, t, node, atom) {
        None => {},
        Some(a) => {
            assert(!(a is Softline));
            let tgt = prepend_anchor(c, t, node);
            let cp = prepended(c, t, node, atom);
            assert forall|i: int| 0 <= i < cp.prepend.len() implies crate::pretty::no_softlines(
                #[trigger] cp.prepend[i],
            ) by {
                if i == tgt && 0 <= tgt < c.prepend.len() {
                    let lst = cp.prepend[i];
                    assert forall|m: int| 0 <= m < lst.len() implies !(#[trigger] lst[m]
                        is Softline) by {
                        if m < c.prepend[tgt].len() {
                            assert(lst[m] == c.prepend[tgt][m]);
                        }
                    }
                } else {
                    assert(cp.prepend[i] == c.prepend[i]);
                }
            }
            let tga = append_anchor(c, t, node);
            let ca = appended(c, t, node, atom);
            assert forall|i: int| 0 <= i < ca.append.len() implies crate::pretty::no_softlines(
                #[trigger] ca.append[i],
            ) by {
                if i == tga && 0 <= tga < c.append.len() {
                    let lst = ca.append[i];
                    assert forall|m: int| 0 <= m < lst.len() implies !(#[trigger] lst[m]
                        is Softline) by {
                        if m < c.append[tga].len() {
                            assert(lst[m] == c.append[tga][m]);
                        }
                    }
                } else {
                    assert(ca.append[i] == c.append[i]);
                }
            }
        },
    }
}

/// Directive resolution never stores a softline: softlines are resolved to
/// hardlines or spaces before insertion, and every other directive inserts a
/// non-softline atom.
pub proof fn lemma_resolved_capture_softline_free(
    c: AtomCollectionView,
    t: Seq<NodeView>,
    node: int,
    name: Seq<char>,
    delim: Option<Seq<char>>,
)
    requires
        tables_softline_free(c),
        c.prepend.len() == t.len(),
        c.append.len() == t.len(),
        0 <= node < t.len(),
    ensures
        resolved_capture(c, t, node, name, delim) matches Ok(v) ==> (tables_softline_free(v)
            && v.atoms == c.atoms),
{
    lemma_prepended_tables_softline_free(c, t, node, AtomView::Blankline);
    if let Some(d) = delim {
        lemma_prepended_tables_softline_free(c, t, node, AtomView::Literal(d));
    }
    lemma_prepended_tables_softline_free(c, t, node, AtomView::Softline { spaced: false });
    lemma_prepended_tables_softline_free(c, t, node, AtomView::Softline { spaced: true });
    lemma_prepended_tables_softline_free(c, t, node, AtomView::Hardline);
    lemma_prepended_tables_softline_free(c, t, node, AtomView::IndentStart);
    lemma_prepended_tables_softline_free(c, t, node, AtomView::IndentEnd);
    lemma_prepended_tables_softline_free(c, t, node, AtomView::Space);
}

/// Flattening a softline-free stream against softline-free tables yields a
/// softline-free stream: with the two lemmas above, no softline ever reaches
/// the renderer.
pub proof fn lemma_expanded_no_softlines(
    s: Seq<AtomView>,
    prepend: Seq<Seq<AtomView>>,
    append: Seq<Seq<AtomView>>,
)
    requires
        crate::pretty::no_softlines(s),
        forall|i: int|
            0 <= i < prepend.len() ==> crate::pretty::no_softlines(#[trigger] prepend[i]),
        forall|i: int|
            0 <= i < append.len() ==> crate::pretty::no_softlines(#[trigger] append[i]),
        leaf_ids_below(s, prepend.len() as int),
        prepend.len() == append.len(),
    ensures
        crate::pretty::no_softlines(expanded(s, prepend, append)),
    decreases s.len(),
{
    if s.len() > 0 {
        let t = s.drop_last();
        let a = s.last();
        assert(crate::pretty::no_softlines(t) && leaf_ids_below(t, prepend.len() as int)) by {
            assert(forall|m: int| 0 <= m < t.len() ==> t[m] == s[m]);
        }
        lemma_expanded_no_softlines(t, prepend, append);
        let out = expanded(s, prepend, append);
        let prev = expanded(t, prepend, append);
        let one = expanded_one(a, prepend, append);
        assert(!(a is Softline)) by {
            assert(s[s.len() - 1] == a);
        }
        assert forall|m: int| 0 <= m < one.len() implies !(#[trigger] one[m] is Softline) by {
            match a {
                AtomView::Leaf { id, .. } => {
                    assert(0 <= id < prepend.len());
                    if m < prepend[id].len() {
                        assert(one[m] == prepend[id][m]);
                    } else if m == prepend[id].len() {
                        assert(one[m] == a);
                    } else {
                        assert(one[m] == append[id][m - prepend[id].len() - 1]);
                    }
                },
                _ => {
                    assert(one[m] == a);
                },
            }
        }
        assert forall|m: int| 0 <= m < out.len() implies !(#[trigger] out[m] is Softline) by {
            if m < prev.len() {
                assert(out[m] == prev[m]);
            } else {
                assert(out[m] == one[m - prev.len()]);
            }
        }
    }
}

} // verus!
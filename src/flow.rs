//! The flow: a graph of views and the scheduler that recomputes dirty nodes
//! until none is left.

use vstd::prelude::*;
use vstd::view::View as _;
use crate::value::{Val, Value, models, copy_tuple};
use crate::relation::{Relation, input_rows, rows_of};
use crate::select::ShapeError;
use crate::view::{View, view_output};

verus! {

/// A node: a view and the indices of the nodes it reads and feeds.
#[derive(Debug)]
pub struct Node {
    pub id: String,
    pub view: View,
    pub upstream: Vec<usize>,
    pub downstream: Vec<usize>,
}

/// A change of one node's output: the tuples that left it and those that came.
#[derive(Debug)]
pub struct Change {
    pub node: usize,
    pub removed: Vec<Vec<Value>>,
    pub added: Vec<Vec<Value>>,
}

/// Whether every index in `s` is below `n`.
pub open spec fn indices_below(s: Seq<usize>, n: int) -> bool {
    forall|k: int| 0 <= k < s.len() ==> #[trigger] s[k] < n
}

/// Each node's downstream list and the upstream lists name the same edges.
pub open spec fn inverse_lists(nodes: Seq<Node>) -> bool {
    &&& forall|i: int, k: int|
        0 <= i < nodes.len() && 0 <= k < nodes[i].downstream@.len() ==> nodes[
            #[trigger] nodes[i].downstream@[k] as int
        ].upstream@.contains(i as usize)
    &&& forall|i: int, k: int|
        0 <= i < nodes.len() && 0 <= k < nodes[i].upstream@.len() ==> nodes[
            #[trigger] nodes[i].upstream@[k] as int
        ].downstream@.contains(i as usize)
}

/// Every index is in range and the lists are inverses.
pub open spec fn well_linked(nodes: Seq<Node>) -> bool {
    &&& forall|i: int|
        0 <= i < nodes.len() ==> indices_below((#[trigger] nodes[i]).upstream@, nodes.len() as int)
            && indices_below(nodes[i].downstream@, nodes.len() as int)
    &&& inverse_lists(nodes)
}

fn lists(v: &Vec<usize>, x: usize) -> (r: bool)
    ensures
        r == v@.contains(x),
{
    let mut i: usize = 0;
    while i < v.len()
        invariant
            i <= v.len(),
            forall|j: int| 0 <= j < i ==> v@[j] != x,
        decreases v.len() - i,
    {
        if v[i] == x {
            return true;
        }
        i = i + 1;
    }
    false
}

/// `d` with every node of `ds` set.
pub open spec fn marked(d: Seq<bool>, ds: Seq<usize>) -> Seq<bool> {
    Seq::new(d.len(), |i: int| d[i] || ds.contains(i as usize))
}

/// The nodes, their current outputs, which of them are dirty, and the log of
/// changes not yet taken.
#[derive(Debug)]
pub struct Flow {
    nodes: Vec<Node>,
    outputs: Vec<Relation>,
    dirty: Vec<bool>,
    changes: Vec<Change>,
}

impl Flow {
    pub closed spec fn nodes_view(&self) -> Seq<Node> {
        self.nodes@
    }

    /// The rows of each node's output.
    pub closed spec fn rows_view(&self) -> Seq<Seq<Seq<Val>>> {
        Seq::new(self.outputs@.len(), |i: int| self.outputs@[i].rows())
    }

    pub closed spec fn dirty_view(&self) -> Seq<bool> {
        self.dirty@
    }

    pub closed spec fn changes_view(&self) -> Seq<Change> {
        self.changes@
    }

    pub closed spec fn outputs_wf(&self) -> bool {
        forall|i: int| 0 <= i < self.outputs@.len() ==> (#[trigger] self.outputs@[i]).wf()
    }

    /// Each node's output, as a set.
    pub open spec fn outputs_view(&self) -> Seq<Set<Seq<Val>>> {
        Seq::new(self.rows_view().len(), |i: int| self.rows_view()[i].to_set())
    }

    /// The upstream outputs of node `n`, in the order of its upstream list.
    pub open spec fn upstream_rows(&self, n: int) -> Seq<Seq<Seq<Val>>> {
        let up = self.nodes_view()[n].upstream@;
        Seq::new(up.len(), |k: int| self.rows_view()[up[k] as int])
    }

    /// The shape of the flow: lengths agree, every output is a relation, the
    /// edges are well linked and each view fits its upstream list.
    pub open spec fn layout_wf(&self) -> bool {
        &&& self.nodes_view().len() <= usize::MAX
        &&& self.rows_view().len() == self.nodes_view().len()
        &&& self.dirty_view().len() == self.nodes_view().len()
        &&& self.outputs_wf()
        &&& well_linked(self.nodes_view())
        &&& views_fit(self.nodes_view())
    }

    /// The shape holds, and every clean node's output is current.
    pub open spec fn wf(&self) -> bool {
        &&& self.layout_wf()
        &&& consistent(*self)
    }
}

/// A table reads nothing, and a union has one selector per upstream node.
pub open spec fn views_fit(nodes: Seq<Node>) -> bool {
    forall|i: int|
        0 <= i < nodes.len() ==> match (#[trigger] nodes[i]).view {
            View::Table(_) => nodes[i].upstream@.len() == 0,
            View::Union(u) => u.selects.len() == nodes[i].upstream@.len(),
            _ => true,
        }
}

/// Every clean node other than a table holds what its view yields over its
/// upstream outputs: only dirty nodes may be stale.
pub open spec fn consistent(f: Flow) -> bool {
    forall|i: int|
        0 <= i < f.nodes_view().len() && !f.dirty_view()[i] && !((#[trigger] f.nodes_view()[i]).view is Table)
            ==> view_output(f.nodes_view()[i].view, f.upstream_rows(i)) == Some(f.outputs_view()[i])
}

/// Where node `n` does not read node `m`, and only the output of `m` differs
/// between `a` and `b`, node `n` sees the same upstream outputs in both.
proof fn lemma_upstream_unchanged(a: Flow, b: Flow, n: int, m: int)
    requires
        a.layout_wf(),
        b.nodes_view() == a.nodes_view(),
        b.rows_view().len() == a.rows_view().len(),
        0 <= n < a.nodes_view().len(),
        !a.nodes_view()[n].upstream@.contains(m as usize),
        forall|i: int| 0 <= i < a.rows_view().len() && i != m ==> #[trigger] b.rows_view()[i] == a.rows_view()[i],
    ensures
        b.upstream_rows(n) == a.upstream_rows(n),
{
    let up = a.nodes_view()[n].upstream@;
    assert(indices_below(up, a.nodes_view().len() as int));
    assert forall|k: int| 0 <= k < up.len() implies #[trigger] b.rows_view()[up[k] as int] == a.rows_view()[up[k] as int] by {
        if up[k] as int == m {
            assert(up.contains(m as usize));
        }
    }
    assert(b.upstream_rows(n) =~= a.upstream_rows(n));
}

/// Where the output of node `m` changes and its downstream nodes are marked
/// dirty, no clean node that reads it is left behind.
proof fn lemma_reader_marked(a: Flow, d: Seq<bool>, i: int, m: int)
    requires
        a.layout_wf(),
        0 <= i < a.nodes_view().len(),
        0 <= m < a.nodes_view().len(),
        i < d.len(),
        !marked(d, a.nodes_view()[m].downstream@)[i],
    ensures
        !a.nodes_view()[i].upstream@.contains(m as usize),
{
    let ds = a.nodes_view()[m].downstream@;
    if a.nodes_view()[i].upstream@.contains(m as usize) {
        let k = choose|k: int| 0 <= k < a.nodes_view()[i].upstream@.len() && #[trigger] a.nodes_view()[i].upstream@[k] == m as usize;
        assert(a.nodes_view()[i].upstream@[k] as int == m);
        assert(a.nodes_view()[a.nodes_view()[i].upstream@[k] as int].downstream@.contains(i as usize));
        assert(ds.contains(i as usize));
        assert(marked(d, ds)[i]);
    }
}

/// Writing to table `n` and marking its downstream nodes dirty keeps every
/// clean node current.
proof fn lemma_table_write_consistent(a: Flow, b: Flow, n: int)
    requires
        a.layout_wf(),
        consistent(a),
        0 <= n < a.nodes_view().len(),
        a.nodes_view()[n].view is Table,
        b.nodes_view() == a.nodes_view(),
        b.rows_view().len() == a.rows_view().len(),
        forall|i: int| 0 <= i < a.rows_view().len() && i != n ==> #[trigger] b.rows_view()[i] == a.rows_view()[i],
        b.dirty_view() == marked(a.dirty_view(), a.nodes_view()[n].downstream@),
    ensures
        consistent(b),
{
    assert forall|i: int|
        0 <= i < b.nodes_view().len() && !b.dirty_view()[i] && !((#[trigger] b.nodes_view()[i]).view is Table) implies view_output(
        b.nodes_view()[i].view,
        b.upstream_rows(i),
    ) == Some(b.outputs_view()[i]) by {
        lemma_reader_marked(a, a.dirty_view(), i, n);
        lemma_upstream_unchanged(a, b, i, n);
        assert(i != n);
        assert(b.rows_view()[i] == a.rows_view()[i]);
        assert(b.outputs_view()[i] == a.outputs_view()[i]);
        assert(!a.dirty_view()[i]);
    }
}

/// Recomputing a node keeps every clean node current.
proof fn lemma_recomputed_consistent(a: Flow, b: Flow, n: int)
    requires
        a.layout_wf(),
        consistent(a),
        0 <= n < a.nodes_view().len(),
        recomputed(a, b, n),
        b.rows_view().len() == a.rows_view().len(),
        b.dirty_view().len() == a.dirty_view().len(),
    ensures
        consistent(b),
{
    let node = a.nodes_view()[n];
    assert forall|i: int|
        0 <= i < b.nodes_view().len() && !b.dirty_view()[i] && !((#[trigger] b.nodes_view()[i]).view is Table) implies view_output(
        b.nodes_view()[i].view,
        b.upstream_rows(i),
    ) == Some(b.outputs_view()[i]) by {
        if node.view is Table || view_output(node.view, a.upstream_rows(n))->Some_0 == a.outputs_view()[n] {
            assert(b.upstream_rows(i) =~= a.upstream_rows(i));
            assert(b.outputs_view()[i] == a.outputs_view()[i]);
            if i != n {
                assert(!a.dirty_view()[i]);
            }
        } else {
            lemma_reader_marked(a, a.dirty_view().update(n, false), i, n);
            lemma_upstream_unchanged(a, b, i, n);
            if i != n {
                assert(b.rows_view()[i] == a.rows_view()[i]);
                assert(b.outputs_view()[i] == a.outputs_view()[i]);
                assert(!a.dirty_view()[i]);
            }
        }
    }
}

/// The rows of `a` that `b` does not hold.
fn missing_from(a: &Relation, b: &Relation) -> (r: Vec<Vec<Value>>)
    ensures
        rows_of(r@).to_set() == a.contents().difference(b.contents()),
{
    let ts = a.tuples();
    let ghost ra = rows_of(ts@);
    let mut r: Vec<Vec<Value>> = Vec::new();
    let mut k: usize = 0;
    assert(rows_of(r@).to_set() =~= ra.take(0).to_set().difference(b.contents()));
    while k < ts.len()
        invariant
            k <= ts.len(),
            ra == rows_of(ts@),
            ra == a.rows(),
            rows_of(r@).to_set() == ra.take(k as int).to_set().difference(b.contents()),
        decreases ts.len() - k,
    {
        let ghost before = rows_of(r@);
        proof {
            ra.take(k as int).lemma_push_to_set_commute(ra[k as int]);
            assert(ra.take(k + 1) =~= ra.take(k as int).push(ra[k as int]));
        }
        if !b.contains(&ts[k]) {
            r.push(copy_tuple(&ts[k]));
            assert(rows_of(r@) =~= before.push(ra[k as int]));
            proof {
                before.lemma_push_to_set_commute(ra[k as int]);
            }
            assert(rows_of(r@).to_set() =~= ra.take(k + 1).to_set().difference(b.contents()));
        } else {
            assert(rows_of(r@).to_set() =~= ra.take(k + 1).to_set().difference(b.contents()));
        }
        k = k + 1;
    }
    assert(ra.take(ts.len() as int) =~= ra);
    r
}

impl Flow {
    /// A flow over `nodes`, every output empty and every node dirty; an error
    /// where an upstream or downstream index is out of range, where the
    /// upstream and downstream lists are not inverses of each other, where a
    /// table has upstream nodes, or where a union's selectors are not one per
    /// upstream node.
    #[verifier::rlimit(40)]
    pub fn new(nodes: Vec<Node>) -> (r: Result<Flow, ShapeError>)
        ensures
            match r {
                Ok(f) => f.wf() && f.nodes_view() == nodes@ && (forall|i: int|
                    0 <= i < nodes@.len() ==> #[trigger] f.outputs_view()[i] == Set::<Seq<Val>>::empty()
                        && f.dirty_view()[i]) && f.changes_view().len() == 0,
                Err(_) => !(well_linked(nodes@) && views_fit(nodes@)),
            },
    {
        let n = nodes.len();
        let mut i: usize = 0;
        while i < n
            invariant
                n == nodes@.len(),
                i <= n,
                forall|j: int|
                    0 <= j < i ==> indices_below((#[trigger] nodes@[j]).upstream@, n as int) && indices_below(
                        nodes@[j].downstream@,
                        n as int,
                    ),
            decreases n - i,
        {
            let node = &nodes[i];
            let mut k: usize = 0;
            while k < node.upstream.len()
                invariant
                    n == nodes@.len(),
                    i < n,
                    *node == nodes@[i as int],
                    forall|j: int|
                        0 <= j < i ==> indices_below((#[trigger] nodes@[j]).upstream@, n as int) && indices_below(
                            nodes@[j].downstream@,
                            n as int,
                        ),
                    k <= node.upstream.len(),
                    forall|j: int| 0 <= j < k ==> #[trigger] node.upstream@[j] < n,
                decreases node.upstream.len() - k,
            {
                if node.upstream[k] >= n {
                    assert(!indices_below(nodes@[i as int].upstream@, n as int));
                    return Err(ShapeError);
                }
                k = k + 1;
            }
            let mut k: usize = 0;
            while k < node.downstream.len()
                invariant
                    n == nodes@.len(),
                    i < n,
                    *node == nodes@[i as int],
                    forall|j: int|
                        0 <= j < i ==> indices_below((#[trigger] nodes@[j]).upstream@, n as int) && indices_below(
                            nodes@[j].downstream@,
                            n as int,
                        ),
                    indices_below(node.upstream@, n as int),
                    k <= node.downstream.len(),
                    forall|j: int| 0 <= j < k ==> #[trigger] node.downstream@[j] < n,
                decreases node.downstream.len() - k,
            {
                if node.downstream[k] >= n {
                    assert(!indices_below(nodes@[i as int].downstream@, n as int));
                    return Err(ShapeError);
                }
                k = k + 1;
            }
            i = i + 1;
        }
        if !Self::check_inverse(&nodes) {
            return Err(ShapeError);
        }
        if !Self::check_views(&nodes) {
            return Err(ShapeError);
        }
        let mut outputs: Vec<Relation> = Vec::new();
        let mut dirty: Vec<bool> = Vec::new();
        let mut i: usize = 0;
        while i < n
            invariant
                i <= n,
                outputs@.len() == i,
                dirty@.len() == i,
                forall|j: int| 0 <= j < i ==> (#[trigger] outputs@[j]).wf() && outputs@[j].rows().len() == 0,
                forall|j: int| 0 <= j < i ==> #[trigger] dirty@[j],
            decreases n - i,
        {
            outputs.push(Relation::new());
            dirty.push(true);
            i = i + 1;
        }
        let f = Flow { nodes, outputs, dirty, changes: Vec::new() };
        assert(consistent(f));
        assert forall|i: int| 0 <= i < n implies #[trigger] f.outputs_view()[i] == Set::<Seq<Val>>::empty() by {
            assert(f.rows_view()[i] =~= Seq::<Seq<Val>>::empty());
            assert(f.outputs_view()[i] =~= Set::<Seq<Val>>::empty());
        }
        Ok(f)
    }

    fn check_views(nodes: &Vec<Node>) -> (r: bool)
        ensures
            r == views_fit(nodes@),
    {
        let mut i: usize = 0;
        while i < nodes.len()
            invariant
                i <= nodes@.len(),
                forall|j: int|
                    0 <= j < i ==> match (#[trigger] nodes@[j]).view {
                        View::Table(_) => nodes@[j].upstream@.len() == 0,
                        View::Union(u) => u.selects.len() == nodes@[j].upstream@.len(),
                        _ => true,
                    },
            decreases nodes.len() - i,
        {
            let node = &nodes[i];
            let fits = match &node.view {
                View::Table(_) => node.upstream.len() == 0,
                View::Union(u) => u.selects.len() == node.upstream.len(),
                _ => true,
            };
            if !fits {
                assert(!views_fit(nodes@)) by {
                    assert(nodes@[i as int] == *node);
                }
                return false;
            }
            i = i + 1;
        }
        true
    }

    fn check_inverse(nodes: &Vec<Node>) -> (r: bool)
        requires
            forall|i: int|
                0 <= i < nodes@.len() ==> indices_below((#[trigger] nodes@[i]).upstream@, nodes@.len() as int)
                    && indices_below(nodes@[i].downstream@, nodes@.len() as int),
        ensures
            r == inverse_lists(nodes@),
    {
        let n = nodes.len();
        let mut i: usize = 0;
        while i < n
            invariant
                n == nodes@.len(),
                i <= n,
                forall|j: int|
                    0 <= j < n ==> indices_below((#[trigger] nodes@[j]).upstream@, n as int) && indices_below(
                        nodes@[j].downstream@,
                        n as int,
                    ),
                forall|j: int, k: int|
                    0 <= j < i && 0 <= k < nodes@[j].downstream@.len() ==> nodes@[
                        #[trigger] nodes@[j].downstream@[k] as int
                    ].upstream@.contains(j as usize),
                forall|j: int, k: int|
                    0 <= j < i && 0 <= k < nodes@[j].upstream@.len() ==> nodes@[
                        #[trigger] nodes@[j].upstream@[k] as int
                    ].downstream@.contains(j as usize),
            decreases n - i,
        {
            let node = &nodes[i];
            let mut k: usize = 0;
            while k < node.downstream.len()
                invariant
                    n == nodes@.len(),
                    i < n,
                    *node == nodes@[i as int],
                    indices_below(node.downstream@, n as int),
                    k <= node.downstream.len(),
                    forall|m: int|
                        0 <= m < k ==> nodes@[#[trigger] node.downstream@[m] as int].upstream@.contains(i as usize),
                decreases node.downstream.len() - k,
            {
                let d = node.downstream[k];
                if !lists(&nodes[d].upstream, i) {
                    assert(!inverse_lists(nodes@));
                    return false;
                }
                k = k + 1;
            }
            let mut k: usize = 0;
            while k < node.upstream.len()
                invariant
                    n == nodes@.len(),
                    i < n,
                    *node == nodes@[i as int],
                    indices_below(node.upstream@, n as int),
                    k <= node.upstream.len(),
                    forall|m: int|
                        0 <= m < k ==> nodes@[#[trigger] node.upstream@[m] as int].downstream@.contains(i as usize),
                decreases node.upstream.len() - k,
            {
                let u = node.upstream[k];
                if !lists(&nodes[u].downstream, i) {
                    assert(!inverse_lists(nodes@));
                    return false;
                }
                k = k + 1;
            }
            i = i + 1;
        }
        true
    }

    /// The number of nodes.
    pub fn len(&self) -> (n: usize)
        requires
            self.wf(),
        ensures
            n == self.nodes_view().len(),
    {
        self.nodes.len()
    }

    /// The current output of node `n`.
    pub fn output(&self, n: usize) -> (r: &Relation)
        requires
            self.wf(),
            n < self.nodes_view().len(),
        ensures
            r.wf(),
            r.rows() == self.rows_view()[n as int],
            r.contents() == self.outputs_view()[n as int],
    {
        &self.outputs[n]
    }

    /// Whether node `n` is dirty.
    pub fn is_dirty(&self, n: usize) -> (r: bool)
        requires
            self.wf(),
            n < self.nodes_view().len(),
        ensures
            r == self.dirty_view()[n as int],
    {
        self.dirty[n]
    }

    /// The index of the node named `id`, if there is one.
    pub fn index_of(&self, id: &str) -> (r: Option<usize>)
        ensures
            match r {
                Some(n) => n < self.nodes_view().len() && self.nodes_view()[n as int].id@ == id@,
                None => forall|i: int| 0 <= i < self.nodes_view().len() ==> (#[trigger] self.nodes_view()[i]).id@ != id@,
            },
    {
        let mut i: usize = 0;
        while i < self.nodes.len()
            invariant
                i <= self.nodes@.len(),
                forall|j: int| 0 <= j < i ==> (#[trigger] self.nodes@[j]).id@ != id@,
            decreases self.nodes.len() - i,
        {
            if crate::value::text_equal(self.nodes[i].id.as_str(), id) {
                return Some(i);
            }
            i = i + 1;
        }
        None
    }

    /// The current output of the node named `id`.
    pub fn get_output(&self, id: &str) -> (r: Option<&Relation>)
        requires
            self.wf(),
        ensures
            match r {
                Some(rel) => exists|n: int|
                    0 <= n < self.nodes_view().len() && (#[trigger] self.nodes_view()[n]).id@ == id@
                        && rel.contents() == self.outputs_view()[n],
                None => forall|i: int| 0 <= i < self.nodes_view().len() ==> (#[trigger] self.nodes_view()[i]).id@ != id@,
            },
    {
        match self.index_of(id) {
            Some(n) => Some(self.output(n)),
            None => None,
        }
    }
}

/// Every edge leads to a node with a higher index: the graph is acyclic and its
/// nodes are numbered in dependency order.
pub open spec fn forward_edges(f: Flow) -> bool {
    forall|i: int, k: int|
        0 <= i < f.nodes_view().len() && 0 <= k < f.nodes_view()[i].downstream@.len() ==> i
            < #[trigger] f.nodes_view()[i].downstream@[k]
}

/// In a graph with forward edges, recomputing the first dirty node leaves no
/// dirty node at or before it.
proof fn lemma_step_moves_forward(a: Flow, b: Flow, n: int)
    requires
        a.wf(),
        forward_edges(a),
        first_dirty(a, n),
        recomputed(a, b, n),
    ensures
        forall|i: int| 0 <= i <= n ==> !#[trigger] b.dirty_view()[i],
{
    let ds = a.nodes_view()[n].downstream@;
    assert forall|i: int| 0 <= i <= n implies !#[trigger] b.dirty_view()[i] by {
        if i < n && ds.contains(i as usize) {
            let k = choose|k: int| 0 <= k < ds.len() && ds[k] == i as usize;
            assert(n < a.nodes_view()[n].downstream@[k]);
        }
    }
}

/// Two states of a flow that agree on everything.
pub open spec fn same_state(a: Flow, b: Flow) -> bool {
    &&& a.nodes_view() == b.nodes_view()
    &&& a.rows_view() == b.rows_view()
    &&& a.dirty_view() == b.dirty_view()
    &&& a.changes_view() == b.changes_view()
}

/// `n` is the first dirty node.
pub open spec fn first_dirty(f: Flow, n: int) -> bool {
    &&& 0 <= n < f.dirty_view().len()
    &&& f.dirty_view()[n]
    &&& forall|i: int| 0 <= i < n ==> !#[trigger] f.dirty_view()[i]
}

/// What recomputing node `n` of `a` leads to: a table is only marked clean; for
/// another view, where its new output `s` equals the old one, the node is
/// marked clean; else the output becomes `s`, the change is logged, the node
/// is marked clean and then its downstream nodes dirty (so a node that reads
/// itself stays dirty).
pub open spec fn recomputed(a: Flow, b: Flow, n: int) -> bool {
    let node = a.nodes_view()[n];
    &&& b.nodes_view() == a.nodes_view()
    &&& if node.view is Table {
        &&& b.rows_view() == a.rows_view()
        &&& b.dirty_view() == a.dirty_view().update(n, false)
        &&& b.changes_view() == a.changes_view()
    } else {
        let out = view_output(node.view, a.upstream_rows(n));
        let prev = a.outputs_view()[n];
        &&& out is Some
        &&& if out->Some_0 == prev {
            &&& b.rows_view() == a.rows_view()
            &&& b.dirty_view() == a.dirty_view().update(n, false)
            &&& b.changes_view() == a.changes_view()
        } else {
            let s = out->Some_0;
            let c = b.changes_view().last();
            &&& b.rows_view().len() == a.rows_view().len()
            &&& b.outputs_view()[n] == s
            &&& forall|i: int| 0 <= i < a.rows_view().len() && i != n ==> #[trigger] b.rows_view()[i] == a.rows_view()[i]
            &&& b.dirty_view() == marked(a.dirty_view().update(n, false), node.downstream@)
            &&& b.changes_view().drop_last() == a.changes_view()
            &&& b.changes_view().len() == a.changes_view().len() + 1
            &&& c.node == n
            &&& rows_of(c.removed@).to_set() == prev.difference(s)
            &&& rows_of(c.added@).to_set() == s.difference(prev)
        }
    }
}

proof fn lemma_empty_to_set(s: Seq<Seq<Val>>)
    ensures
        (s.to_set() == Set::<Seq<Val>>::empty()) == (s.len() == 0),
{
    if s.len() > 0 {
        assert(s.to_set().contains(s[0]));
    } else {
        assert(s.to_set() =~= Set::<Seq<Val>>::empty());
    }
}

impl Flow {
    fn find_dirty(&self) -> (r: Option<usize>)
        requires
            self.wf(),
        ensures
            match r {
                Some(n) => first_dirty(*self, n as int),
                None => forall|i: int| 0 <= i < self.dirty_view().len() ==> !#[trigger] self.dirty_view()[i],
            },
    {
        let mut i: usize = 0;
        while i < self.dirty.len()
            invariant
                i <= self.dirty@.len(),
                forall|j: int| 0 <= j < i ==> !#[trigger] self.dirty@[j],
            decreases self.dirty.len() - i,
        {
            if self.dirty[i] {
                return Some(i);
            }
            i = i + 1;
        }
        None
    }

    fn mark_downstream(&mut self, n: usize)
        requires
            old(self).layout_wf(),
            n < old(self).nodes_view().len(),
        ensures
            final(self).layout_wf(),
            final(self).nodes_view() == old(self).nodes_view(),
            final(self).rows_view() == old(self).rows_view(),
            final(self).changes_view() == old(self).changes_view(),
            final(self).dirty_view() == marked(old(self).dirty_view(), old(self).nodes_view()[n as int].downstream@),
    {
        let ghost d0 = self.dirty@;
        let ghost ds = self.nodes@[n as int].downstream@;
        let len = self.nodes.len();
        let mut k: usize = 0;
        assert(self.dirty@ =~= Seq::new(d0.len(), |i: int| d0[i] || ds.take(0).contains(i as usize)));
        while k < self.nodes[n].downstream.len()
            invariant
                self.layout_wf(),
                len == self.nodes@.len(),
                n < len,
                ds == self.nodes@[n as int].downstream@,
                k <= ds.len(),
                self.nodes@ == old(self).nodes@,
                self.outputs@ == old(self).outputs@,
                self.changes@ == old(self).changes@,
                d0 == old(self).dirty@,
                self.dirty@ == Seq::new(d0.len(), |i: int| d0[i] || ds.take(k as int).contains(i as usize)),
            decreases ds.len() - k,
        {
            let d = self.nodes[n].downstream[k];
            assert(indices_below(self.nodes@[n as int].downstream@, len as int));
            assert(d < len);
            self.dirty.set(d, true);
            assert(ds.take(k + 1) =~= ds.take(k as int).push(d));
            assert forall|i: int| 0 <= i < d0.len() implies #[trigger] self.dirty@[i] == (d0[i] || ds.take(
                k + 1,
            ).contains(i as usize)) by {
                if ds.take(k + 1).contains(i as usize) && i != d {
                    let j = choose|j: int| 0 <= j < k + 1 && #[trigger] ds.take(k + 1)[j] == i as usize;
                    assert(ds.take(k as int)[j] == i as usize);
                }
                if ds.take(k as int).contains(i as usize) {
                    let j = choose|j: int| 0 <= j < k && #[trigger] ds.take(k as int)[j] == i as usize;
                    assert(ds.take(k + 1)[j] == i as usize);
                }
                if i == d {
                    assert(ds.take(k + 1)[k as int] == i as usize);
                }
            }
            assert(self.dirty@ =~= Seq::new(d0.len(), |i: int| d0[i] || ds.take(k + 1).contains(i as usize)));
            k = k + 1;
        }
        assert(ds.take(ds.len() as int) =~= ds);
        assert(self.dirty@ =~= marked(d0, ds));
    }

    /// Recomputes the first dirty node, if there is one, and returns its index.
    /// On an error nothing changes.
    pub fn step(&mut self) -> (r: Result<Option<usize>, ShapeError>)
        requires
            old(self).wf(),
        ensures
            final(self).wf(),
            match r {
                Ok(None) => same_state(*final(self), *old(self)) && forall|i: int|
                    0 <= i < old(self).dirty_view().len() ==> !#[trigger] old(self).dirty_view()[i],
                Ok(Some(n)) => first_dirty(*old(self), n as int) && recomputed(*old(self), *final(self), n as int),
                Err(_) => same_state(*final(self), *old(self)) && exists|n: int|
                    first_dirty(*old(self), n) && !(old(self).nodes_view()[n].view is Table) && view_output(
                        old(self).nodes_view()[n].view,
                        old(self).upstream_rows(n),
                    ) is None,
            },
    {
        let n = match self.find_dirty() {
            None => {
                return Ok(None);
            },
            Some(n) => n,
        };
        if self.nodes[n].view.is_table() {
            self.dirty.set(n, false);
            proof {
                lemma_recomputed_consistent(*old(self), *self, n as int);
            }
            return Ok(Some(n));
        }
        let new_rel = {
            let up = &self.nodes[n].upstream;
            let mut ins: Vec<&Relation> = Vec::new();
            let mut k: usize = 0;
            while k < up.len()
                invariant
                    self.wf(),
                    n < self.nodes@.len(),
                    *up == self.nodes@[n as int].upstream,
                    k <= up@.len(),
                    ins@.len() == k,
                    forall|j: int| 0 <= j < k ==> (#[trigger] ins@[j]).rows() == self.rows_view()[up@[j] as int],
                decreases up.len() - k,
            {
                assert(indices_below(self.nodes@[n as int].upstream@, self.nodes@.len() as int));
                assert(up@[k as int] < self.nodes@.len());
                ins.push(&self.outputs[up[k]]);
                k = k + 1;
            }
            assert(input_rows(ins@) =~= self.upstream_rows(n as int));
            match self.nodes[n].view.run(&self.outputs[n], ins.as_slice()) {
                Err(e) => {
                    return Err(e);
                },
                Ok(None) => {
                    return Err(ShapeError);
                },
                Ok(Some(rel)) => rel,
            }
        };
        let ghost prev = self.outputs_view()[n as int];
        let ghost s = new_rel.contents();
        assert(self.outputs@[n as int].contents() == prev);
        let removed = missing_from(&self.outputs[n], &new_rel);
        let added = missing_from(&new_rel, &self.outputs[n]);
        proof {
            lemma_empty_to_set(rows_of(removed@));
            lemma_empty_to_set(rows_of(added@));
        }
        if removed.len() == 0 && added.len() == 0 {
            assert(prev.difference(s) == Set::<Seq<Val>>::empty());
            assert(s.difference(prev) == Set::<Seq<Val>>::empty());
            assert forall|x: Seq<Val>| s.contains(x) <==> prev.contains(x) by {
                if s.contains(x) && !prev.contains(x) {
                    assert(s.difference(prev).contains(x));
                }
                if prev.contains(x) && !s.contains(x) {
                    assert(prev.difference(s).contains(x));
                }
            }
            assert(s =~= prev);
            self.dirty.set(n, false);
            proof {
                lemma_recomputed_consistent(*old(self), *self, n as int);
            }
            return Ok(Some(n));
        }
        assert(s != prev) by {
            if s == prev {
                assert(prev.difference(s) =~= Set::<Seq<Val>>::empty());
                assert(s.difference(prev) =~= Set::<Seq<Val>>::empty());
            }
        }
        let ghost before = *self;
        self.outputs.set(n, new_rel);
        assert(self.rows_view() =~= before.rows_view().update(n as int, self.outputs@[n as int].rows()));
        self.dirty.set(n, false);
        self.mark_downstream(n);
        self.changes.push(Change { node: n, removed, added });
        assert(self.changes_view().drop_last() =~= before.changes_view());
        proof {
            lemma_recomputed_consistent(*old(self), *self, n as int);
        }
        Ok(Some(n))
    }
}


/// The outputs of `b` are those of `a`, but that of node `n` is `s`.
pub open spec fn outputs_but(a: Flow, b: Flow, n: int, s: Set<Seq<Val>>) -> bool {
    &&& b.rows_view().len() == a.rows_view().len()
    &&& b.outputs_view()[n] == s
    &&& forall|i: int| 0 <= i < a.rows_view().len() && i != n ==> #[trigger] b.rows_view()[i] == a.rows_view()[i]
}

impl Flow {
    /// Adds `t` to the table at node `n` and marks its downstream nodes dirty;
    /// returns whether `t` was new. An error, and no change, where `n` is not a
    /// table.
    pub fn insert(&mut self, n: usize, t: Vec<Value>) -> (r: Result<bool, ShapeError>)
        requires
            old(self).wf(),
        ensures
            final(self).wf(),
            match r {
                Ok(added) => n < old(self).nodes_view().len() && old(self).nodes_view()[n as int].view is Table
                    && final(self).nodes_view() == old(self).nodes_view()
                    && outputs_but(*old(self), *final(self), n as int, old(self).outputs_view()[n as int].insert(models(t@)))
                    && added == !old(self).outputs_view()[n as int].contains(models(t@))
                    && final(self).dirty_view() == marked(old(self).dirty_view(), old(self).nodes_view()[n as int].downstream@)
                    && final(self).changes_view() == old(self).changes_view(),
                Err(_) => same_state(*final(self), *old(self)) && !(n < old(self).nodes_view().len()
                    && old(self).nodes_view()[n as int].view is Table),
            },
    {
        if n >= self.nodes.len() || !self.nodes[n].view.is_table() {
            return Err(ShapeError);
        }
        let ghost before = *self;
        let mut rel = Relation::new();
        std::mem::swap(&mut rel, &mut self.outputs[n]);
        let added = rel.insert(t);
        std::mem::swap(&mut rel, &mut self.outputs[n]);
        assert(self.rows_view() =~= before.rows_view().update(n as int, self.outputs@[n as int].rows()));
        self.mark_downstream(n);
        proof {
            lemma_table_write_consistent(before, *self, n as int);
        }
        Ok(added)
    }

    /// Takes `t` out of the table at node `n` and marks its downstream nodes
    /// dirty; returns whether `t` was held. An error, and no change, where `n`
    /// is not a table.
    pub fn remove(&mut self, n: usize, t: &Vec<Value>) -> (r: Result<bool, ShapeError>)
        requires
            old(self).wf(),
        ensures
            final(self).wf(),
            match r {
                Ok(removed) => n < old(self).nodes_view().len() && old(self).nodes_view()[n as int].view is Table
                    && final(self).nodes_view() == old(self).nodes_view()
                    && outputs_but(*old(self), *final(self), n as int, old(self).outputs_view()[n as int].remove(models(t@)))
                    && removed == old(self).outputs_view()[n as int].contains(models(t@))
                    && final(self).dirty_view() == marked(old(self).dirty_view(), old(self).nodes_view()[n as int].downstream@)
                    && final(self).changes_view() == old(self).changes_view(),
                Err(_) => same_state(*final(self), *old(self)) && !(n < old(self).nodes_view().len()
                    && old(self).nodes_view()[n as int].view is Table),
            },
    {
        if n >= self.nodes.len() || !self.nodes[n].view.is_table() {
            return Err(ShapeError);
        }
        let ghost before = *self;
        let mut rel = Relation::new();
        std::mem::swap(&mut rel, &mut self.outputs[n]);
        let removed = rel.remove(t);
        std::mem::swap(&mut rel, &mut self.outputs[n]);
        assert(self.rows_view() =~= before.rows_view().update(n as int, self.outputs@[n as int].rows()));
        self.mark_downstream(n);
        proof {
            lemma_table_write_consistent(before, *self, n as int);
        }
        Ok(removed)
    }

    /// Recomputes dirty nodes, at most `max_steps` of them, until none is
    /// dirty. Returns whether that fixpoint was reached; there every node that
    /// is not a table holds what its view yields over its upstream outputs. An
    /// error comes only from a view that is malformed for its inputs, and
    /// leaves that node the first dirty one.
    pub fn run(&mut self, max_steps: usize) -> (r: Result<bool, ShapeError>)
        requires
            old(self).wf(),
        ensures
            final(self).wf(),
            final(self).nodes_view() == old(self).nodes_view(),
            r is Err ==> exists|n: int|
                first_dirty(*final(self), n) && !(final(self).nodes_view()[n].view is Table) && view_output(
                    final(self).nodes_view()[n].view,
                    final(self).upstream_rows(n),
                ) is None,
            r == Ok::<bool, ShapeError>(true) ==> forall|i: int|
                0 <= i < final(self).dirty_view().len() ==> !#[trigger] final(self).dirty_view()[i],
            r == Ok::<bool, ShapeError>(true) ==> forall|i: int|
                0 <= i < final(self).nodes_view().len() && !((#[trigger] final(self).nodes_view()[i]).view is Table)
                    ==> view_output(final(self).nodes_view()[i].view, final(self).upstream_rows(i)) == Some(
                    final(self).outputs_view()[i],
                ),
            r == Ok::<bool, ShapeError>(false) ==> exists|i: int|
                0 <= i < final(self).dirty_view().len() && #[trigger] final(self).dirty_view()[i],
            forward_edges(*old(self)) && max_steps >= old(self).nodes_view().len() ==> r is Err || r
                == Ok::<bool, ShapeError>(true),
    {
        let mut k: usize = 0;
        while k < max_steps
            invariant
                self.wf(),
                self.nodes_view() == old(self).nodes_view(),
                forward_edges(*old(self)) ==> forall|i: int|
                    0 <= i < k && i < self.dirty_view().len() ==> !#[trigger] self.dirty_view()[i],
            decreases max_steps - k,
        {
            let ghost before = *self;
            match self.step() {
                Err(e) => {
                    proof {
                        let n = choose|n: int|
                            first_dirty(before, n) && !(before.nodes_view()[n].view is Table) && view_output(
                                before.nodes_view()[n].view,
                                before.upstream_rows(n),
                            ) is None;
                        assert(self.upstream_rows(n) =~= before.upstream_rows(n));
                        assert(first_dirty(*self, n));
                    }
                    return Err(e);
                },
                Ok(None) => {
                    return Ok(true);
                },
                Ok(Some(n)) => {
                    proof {
                        if forward_edges(*old(self)) {
                            assert(forward_edges(before));
                            lemma_step_moves_forward(before, *self, n as int);
                        }
                    }
                },
            }
            k = k + 1;
        }
        match self.find_dirty() {
            None => Ok(true),
            Some(n) => {
                assert(self.dirty_view()[n as int]);
                Ok(false)
            },
        }
    }

    /// Hands out the change log and leaves it empty.
    pub fn take_changes(&mut self) -> (r: Vec<Change>)
        requires
            old(self).wf(),
        ensures
            final(self).wf(),
            r@ == old(self).changes_view(),
            final(self).changes_view().len() == 0,
            final(self).nodes_view() == old(self).nodes_view(),
            final(self).rows_view() == old(self).rows_view(),
            final(self).dirty_view() == old(self).dirty_view(),
    {
        let mut r: Vec<Change> = Vec::new();
        std::mem::swap(&mut r, &mut self.changes);
        r
    }
}

} // verus!

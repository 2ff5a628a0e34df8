//! The graph of the calls around a function.

use vstd::prelude::*;
use crate::indexing::index::FunctionId;

verus! {

/// A function, and the positions in the graph of those that call it and of those
/// that it calls.
#[derive(Debug)]
pub struct CallNode {
    pub f: FunctionId,
    pub incomings: Vec<usize>,
    pub outgoings: Vec<usize>,
}

impl CallNode {
    /// The function, without calls.
    pub fn new(f: FunctionId) -> (r: Self)
        ensures
            r.f == f,
            r.incomings@ == Seq::<usize>::empty(),
            r.outgoings@ == Seq::<usize>::empty(),
    {
        CallNode { f, incomings: Vec::new(), outgoings: Vec::new() }
    }
}

/// Functions and the calls between them.
#[derive(Debug)]
pub struct CallGraph {
    pub elts: Vec<CallNode>,
}

impl Default for CallGraph {
    fn default() -> (r: Self)
        ensures
            r.elts@ == Seq::<CallNode>::empty(),
            r.well_formed(),
    {
        CallGraph { elts: Vec::new() }
    }
}

/// `s` with `x` at the end, unless `x` is in it.
pub open spec fn with<T>(s: Seq<T>, x: T) -> Seq<T> {
    if s.contains(x) {
        s
    } else {
        s.push(x)
    }
}

/// `s`, and then the items that are not in it: each once, in their order.
pub open spec fn united<T>(s: Seq<T>, items: Seq<T>) -> Seq<T>
    decreases items.len(),
{
    if items.len() == 0 {
        s
    } else {
        with(united(s, items.drop_last()), items.last())
    }
}

/// The items other than `x`.
pub open spec fn others<T>(items: Seq<T>, x: T) -> Seq<T>
    decreases items.len(),
{
    if items.len() == 0 {
        items
    } else if items.last() == x {
        others(items.drop_last(), x)
    } else {
        others(items.drop_last(), x).push(items.last())
    }
}

/// The functions at the given positions.
pub open spec fn at_positions(functions: Seq<FunctionId>, positions: Seq<usize>) -> Seq<
    FunctionId,
> {
    positions.map_values(|p: usize| functions[p as int])
}

/// Positions in a graph of `n` functions: none twice, and not `i`.
pub open spec fn are_links(positions: Seq<usize>, i: int, n: nat) -> bool {
    &&& positions.no_duplicates()
    &&& forall|k: int| 0 <= k < positions.len() ==> #[trigger] positions[k] < n && positions[k] != i
}

impl CallGraph {
    /// The functions of the graph, in the order in which they came.
    pub open spec fn functions(&self) -> Seq<FunctionId> {
        self.elts@.map_values(|e: CallNode| e.f)
    }

    /// The positions of what the function at position `i` calls, or of what
    /// calls it.
    pub open spec fn links(&self, forward: bool, i: int) -> Seq<usize> {
        if forward {
            self.elts@[i].outgoings@
        } else {
            self.elts@[i].incomings@
        }
    }

    /// What `f` calls, or what calls it, as far as the graph knows.
    pub open spec fn linked(&self, forward: bool, f: FunctionId) -> Seq<FunctionId> {
        if self.functions().contains(f) {
            at_positions(self.functions(), self.links(forward, self.functions().index_of(f)))
        } else {
            Seq::empty()
        }
    }

    /// What `f` calls.
    pub open spec fn callees(&self, f: FunctionId) -> Seq<FunctionId> {
        self.linked(true, f)
    }

    /// What calls `f`.
    pub open spec fn callers(&self, f: FunctionId) -> Seq<FunctionId> {
        self.linked(false, f)
    }

    /// Each function is in the graph once. Calls stay within the graph; none is
    /// there twice, and none from a function to itself.
    pub open spec fn well_formed(&self) -> bool {
        &&& self.functions().no_duplicates()
        &&& forall|forward: bool, i: int|
            0 <= i < self.elts@.len() ==> are_links(
                #[trigger] self.links(forward, i),
                i,
                self.elts@.len(),
            )
    }

    /// The graph that knows, beyond `before`, that `parent` calls the functions
    /// of `items`, or that they call it.
    pub open spec fn extends(
        &self,
        before: CallGraph,
        parent: FunctionId,
        forward: bool,
        items: Seq<FunctionId>,
    ) -> bool {
        &&& self.functions() == united(before.functions(), items)
        &&& self.linked(forward, parent) == united(
            before.linked(forward, parent),
            others(items, parent),
        )
        &&& forall|towards: bool, f: FunctionId|
            towards != forward || f != parent ==> #[trigger] self.linked(towards, f)
                == before.linked(towards, f)
    }

    /// The graph of one function.
    pub fn single(f: FunctionId) -> (r: Self)
        ensures
            r.well_formed(),
            r.functions() == seq![f],
            r.linked(true, f) == Seq::<FunctionId>::empty(),
            r.linked(false, f) == Seq::<FunctionId>::empty(),
    {
        let mut elts: Vec<CallNode> = Vec::new();
        elts.push(CallNode::new(f));
        let r = CallGraph { elts };
        assert(r.functions() =~= seq![f]);
        assert(r.functions()[0] == f);
        assert(r.linked(true, f) =~= Seq::<FunctionId>::empty());
        assert(r.linked(false, f) =~= Seq::<FunctionId>::empty());
        r
    }

    /// The position of a function.
    fn position(&self, f: FunctionId) -> (r: Option<usize>)
        ensures
            match r {
                Some(i) => i < self.elts@.len() && self.functions()[i as int] == f,
                None => !self.functions().contains(f),
            },
    {
        let mut i: usize = 0;
        while i < self.elts.len()
            invariant
                i <= self.elts@.len(),
                forall|k: int| 0 <= k < i ==> #[trigger] self.functions()[k] != f,
            decreases self.elts@.len() - i,
        {
            assert(self.functions()[i as int] == self.elts@[i as int].f);
            if self.elts[i].f == f {
                return Some(i);
            }
            i = i + 1;
        }
        None
    }

    /// The position of a function, which comes last if it was not in the graph.
    fn ensure(&mut self, f: FunctionId) -> (r: usize)
        requires
            old(self).well_formed(),
        ensures
            final(self).well_formed(),
            final(self).functions() == with(old(self).functions(), f),
            r < final(self).elts@.len(),
            final(self).functions()[r as int] == f,
            final(self).elts@.len() >= old(self).elts@.len(),
            forall|k: int|
                0 <= k < old(self).elts@.len() ==> (#[trigger] final(self).elts@[k]) == old(
                    self,
                ).elts@[k],
            forall|forward: bool, k: int|
                old(self).elts@.len() <= k < final(self).elts@.len() ==> (
                #[trigger] final(self).links(forward, k)) == Seq::<usize>::empty(),
    {
        match self.position(f) {
            Some(i) => {
                assert(self.functions().contains(f));
                i
            },
            None => {
                let n: usize = self.elts.len();
                self.elts.push(CallNode::new(f));
                proof {
                    assert(self.functions() =~= old(self).functions().push(f));
                    assert forall|forward: bool, i: int|
                        0 <= i < self.elts@.len() implies are_links(
                        #[trigger] self.links(forward, i),
                        i,
                        self.elts@.len(),
                    ) by {
                        if i < n {
                            assert(self.links(forward, i) == old(self).links(forward, i));
                        }
                    }
                }
                n
            },
        }
    }

    /// Links the function at one position to that at another one, unless they are
    /// the same or linked already.
    fn link(&mut self, parent_id: usize, forward: bool, child_id: usize)
        requires
            old(self).well_formed(),
            parent_id < old(self).elts@.len(),
            child_id < old(self).elts@.len(),
        ensures
            final(self).well_formed(),
            final(self).functions() == old(self).functions(),
            final(self).elts@.len() == old(self).elts@.len(),
            final(self).links(forward, parent_id as int) == (if parent_id == child_id {
                old(self).links(forward, parent_id as int)
            } else {
                with(old(self).links(forward, parent_id as int), child_id)
            }),
            forall|towards: bool, k: int|
                0 <= k < old(self).elts@.len() && (towards != forward || k != parent_id) ==> (
                #[trigger] final(self).links(towards, k)) == old(self).links(towards, k),
    {
        if parent_id == child_id {
            return;
        }
        if forward {
            if !is_among(&self.elts[parent_id].outgoings, child_id) {
                self.elts[parent_id].outgoings.push(child_id);
            }
        } else {
            if !is_among(&self.elts[parent_id].incomings, child_id) {
                self.elts[parent_id].incomings.push(child_id);
            }
        }
        proof {
            assert(self.functions() =~= old(self).functions());
            let links = old(self).links(forward, parent_id as int);
            assert(are_links(links, parent_id as int, old(self).elts@.len()));
            assert forall|towards: bool, i: int| 0 <= i < self.elts@.len() implies are_links(
                #[trigger] self.links(towards, i),
                i,
                self.elts@.len(),
            ) by {
                assert(are_links(old(self).links(towards, i), i, old(self).elts@.len()));
            }
        }
    }

    fn add_linked(&mut self, parent: FunctionId, forward: bool, items: &Vec<FunctionId>)
        requires
            old(self).well_formed(),
            old(self).functions().contains(parent),
        ensures
            final(self).well_formed(),
            final(self).extends(*old(self), parent, forward, items@),
    {
        let ghost before = *self;
        let ghost n = self.elts@.len();
        let ghost first = self.functions();
        let parent_id: usize = match self.position(parent) {
            Some(i) => i,
            None => 0,
        };
        let ghost linked = at_positions(first, before.links(forward, parent_id as int));
        let mut i: usize = 0;
        while i < items.len()
            invariant
                i <= items@.len(),
                self.well_formed(),
                n == first.len(),
                parent_id < n <= self.elts@.len(),
                first[parent_id as int] == parent,
                self.functions() == united(first, items@.take(i as int)),
                forall|k: int| 0 <= k < n ==> self.functions()[k] == #[trigger] first[k],
                at_positions(self.functions(), self.links(forward, parent_id as int)) == united(
                    linked,
                    others(items@.take(i as int), parent),
                ),
                forall|towards: bool, k: int|
                    0 <= k < n && (towards != forward || k != parent_id) ==> (
                    #[trigger] self.links(towards, k)) == before.links(towards, k),
                forall|towards: bool, k: int|
                    n <= k < self.elts@.len() ==> (#[trigger] self.links(towards, k)) == Seq::<
                        usize,
                    >::empty(),
            decreases items@.len() - i,
        {
            let ghost start = *self;
            let ghost upto = items@.take(i + 1);
            let o: FunctionId = items[i];
            let child_id: usize = self.ensure(o);
            let ghost grown = *self;
            self.link(parent_id, forward, child_id);
            proof {
                assert(upto.drop_last() =~= items@.take(i as int));
                let p = parent_id as int;
                let links = start.links(forward, p);
                assert(are_links(links, p, start.elts@.len()));
                assert(grown.elts@[p] == start.elts@[p]);
                assert forall|k: int| 0 <= k < start.elts@.len() implies grown.functions()[k]
                    == #[trigger] start.functions()[k] by {
                    assert(grown.elts@[k] == start.elts@[k]);
                }
                assert(at_positions(grown.functions(), links) =~= at_positions(
                    start.functions(),
                    links,
                ));
                assert(self.functions()[p] == first[p]);
                if child_id == parent_id {
                    assert(o == parent);
                } else {
                    assert(self.functions()[child_id as int] == o);
                    assert(o != parent);
                    lemma_with_positions(self.functions(), links, child_id);
                    let rest = others(items@.take(i as int), parent);
                    assert(others(upto, parent) == rest.push(o));
                    assert(rest.push(o).drop_last() =~= rest);
                }
                assert forall|towards: bool, k: int|
                    0 <= k < n && (towards != forward || k != parent_id) implies (
                #[trigger] self.links(towards, k)) == before.links(towards, k) by {
                    assert(grown.elts@[k] == start.elts@[k]);
                    assert(grown.links(towards, k) == start.links(towards, k));
                }
                assert forall|towards: bool, k: int| n <= k < self.elts@.len() implies (
                #[trigger] self.links(towards, k)) == Seq::<usize>::empty() by {
                    if k < start.elts@.len() {
                        assert(grown.elts@[k] == start.elts@[k]);
                        assert(grown.links(towards, k) == start.links(towards, k));
                    }
                    assert(self.links(towards, k) == grown.links(towards, k));
                }
            }
            i = i + 1;
        }
        proof {
            assert(items@.take(i as int) =~= items@);
            let last = self.functions();
            assert(last.index_of(parent) == parent_id);
            assert(first.index_of(parent) == parent_id);
            assert(last.contains(parent));
            assert forall|towards: bool, f: FunctionId|
                towards != forward || f != parent implies #[trigger] self.linked(towards, f)
                == before.linked(towards, f) by {
                if first.contains(f) {
                    let k = first.index_of(f);
                    assert(last[k] == first[k]);
                    assert(last.contains(f));
                    assert(last.index_of(f) == k);
                    assert(self.links(towards, k) == before.links(towards, k));
                    assert(are_links(before.links(towards, k), k, n));
                    assert(self.linked(towards, f) =~= before.linked(towards, f));
                } else if last.contains(f) {
                    let k = last.index_of(f);
                    if k < n {
                        assert(last[k] == first[k]);
                    }
                    assert(self.links(towards, k) =~= Seq::<usize>::empty());
                    assert(self.linked(towards, f) =~= Seq::<FunctionId>::empty());
                }
            }
        }
    }

    /// Adds the functions that `parent` calls. Those that are not in the graph
    /// come last, and a call of `parent` to itself is left out.
    pub fn add_outgoings(&mut self, parent: FunctionId, outgoings: &Vec<FunctionId>)
        requires
            old(self).well_formed(),
            old(self).functions().contains(parent),
        ensures
            final(self).well_formed(),
            final(self).extends(*old(self), parent, true, outgoings@),
    {
        self.add_linked(parent, true, outgoings);
    }

    /// Adds the functions that call `parent`. Those that are not in the graph
    /// come last, and a call of `parent` to itself is left out.
    pub fn add_incomings(&mut self, parent: FunctionId, incomings: &Vec<FunctionId>)
        requires
            old(self).well_formed(),
            old(self).functions().contains(parent),
        ensures
            final(self).well_formed(),
            final(self).extends(*old(self), parent, false, incomings@),
    {
        self.add_linked(parent, false, incomings);
    }
}

proof fn lemma_with_positions(functions: Seq<FunctionId>, positions: Seq<usize>, p: usize)
    requires
        functions.no_duplicates(),
        p < functions.len(),
        forall|k: int| 0 <= k < positions.len() ==> #[trigger] positions[k] < functions.len(),
    ensures
        at_positions(functions, with(positions, p)) == with(
            at_positions(functions, positions),
            functions[p as int],
        ),
{
    let s = at_positions(functions, positions);
    let f = functions[p as int];
    if positions.contains(p) {
        let k = choose|k: int| 0 <= k < positions.len() && positions[k] == p;
        assert(s[k] == f);
    } else {
        if s.contains(f) {
            let k = choose|k: int| 0 <= k < s.len() && s[k] == f;
            assert(functions[positions[k] as int] == functions[p as int]);
            assert(positions[k] == p);
        }
        assert(at_positions(functions, positions.push(p)) =~= s.push(f));
    }
}

/// Whether a position is in the list.
fn is_among(positions: &Vec<usize>, p: usize) -> (r: bool)
    ensures
        r == positions@.contains(p),
{
    let mut i: usize = 0;
    while i < positions.len()
        invariant
            i <= positions@.len(),
            forall|k: int| 0 <= k < i ==> positions@[k] != p,
        decreases positions@.len() - i,
    {
        if positions[i] == p {
            return true;
        }
        i = i + 1;
    }
    false
}

} // verus!

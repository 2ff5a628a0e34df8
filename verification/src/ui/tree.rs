//! The graph of calls as indented text.

use vstd::prelude::*;
use vstd::string::StringExecFns;
use crate::chords::words::lemma_injection_bound;
use crate::indexing::symbols::Function;
use crate::text::{decimal, push_decimal};
use crate::ui::callgraph::{are_links, CallGraph};

verus! {

/// Every way along the links from position `i` ends within `n` steps.
pub open spec fn ends_within(g: CallGraph, forward: bool, i: int, n: nat) -> bool
    decreases n,
{
    if n == 0 {
        g.links(forward, i).len() == 0
    } else {
        forall|k: int|
            0 <= k < g.links(forward, i).len() ==> ends_within(
                g,
                forward,
                (#[trigger] g.links(forward, i)[k]) as int,
                (n - 1) as nat,
            )
    }
}

/// No way along the links from position `i` goes on for ever.
pub open spec fn is_finite_from(g: CallGraph, forward: bool, i: int) -> bool {
    exists|n: nat| ends_within(g, forward, i, n)
}

/// Spaces in front of a line.
pub open spec fn indent(depth: nat) -> Seq<char> {
    Seq::new(4 * depth, |k: int| ' ')
}

/// The line of the function at position `i`.
pub open spec fn node_text(g: CallGraph, functions: Seq<Function>, i: int, depth: nat) -> Seq<
    char,
> {
    let id = g.elts@[i].f.0;
    indent(depth) + functions[id as int].0.name@ + " - "@ + decimal(id as nat) + "\n"@
}

/// The line of the function at position `i`, and below it what it is linked to,
/// down to `n` steps.
pub open spec fn tree_text(
    g: CallGraph,
    functions: Seq<Function>,
    forward: bool,
    i: int,
    depth: nat,
    n: nat,
) -> Seq<char>
    decreases n, 1int, 0nat,
{
    node_text(g, functions, i, depth) + branches_text(
        g,
        functions,
        forward,
        g.links(forward, i),
        depth + 1,
        n,
    )
}

/// One after the other, what stands below the functions at the given positions,
/// which are one of `n` steps away.
pub open spec fn branches_text(
    g: CallGraph,
    functions: Seq<Function>,
    forward: bool,
    positions: Seq<usize>,
    depth: nat,
    n: nat,
) -> Seq<char>
    decreases n, 0int, positions.len(),
{
    if positions.len() == 0 || n == 0 {
        Seq::empty()
    } else {
        branches_text(g, functions, forward, positions.drop_last(), depth, n) + tree_text(
            g,
            functions,
            forward,
            positions.last() as int,
            depth,
            (n - 1) as nat,
        )
    }
}

/// What the first function of the graph calls, and what calls it.
pub open spec fn graph_text(g: CallGraph, functions: Seq<Function>) -> Seq<char> {
    let n = g.elts@.len();
    "FORWARD\n"@ + tree_text(g, functions, true, 0, 0, n) + "\n\nBACKWARD\n"@ + tree_text(
        g,
        functions,
        false,
        0,
        0,
        n,
    )
}

proof fn lemma_ends_later(g: CallGraph, forward: bool, i: int, n: nat, m: nat)
    requires
        ends_within(g, forward, i, n),
        n <= m,
    ensures
        ends_within(g, forward, i, m),
    decreases n,
{
    let links = g.links(forward, i);
    if n > 0 {
        assert forall|k: int| 0 <= k < links.len() implies ends_within(
            g,
            forward,
            (#[trigger] links[k]) as int,
            (m - 1) as nat,
        ) by {
            lemma_ends_later(g, forward, links[k] as int, (n - 1) as nat, (m - 1) as nat);
        }
    }
}

/// Some way from position `x` takes `h` steps, and none takes more.
spec fn is_high(g: CallGraph, forward: bool, x: int, h: int) -> bool {
    &&& 0 <= x < g.elts@.len()
    &&& h >= 0
    &&& ends_within(g, forward, x, h as nat)
    &&& h > 0 ==> !ends_within(g, forward, x, (h - 1) as nat)
}

/// Some way over link `k` of position `i` takes more than `m` steps.
spec fn is_longer(g: CallGraph, forward: bool, i: int, k: int, m: nat) -> bool {
    let links = g.links(forward, i);
    &&& 0 <= k < links.len()
    &&& m > 0 ==> !ends_within(g, forward, links[k] as int, (m - 1) as nat)
}

proof fn lemma_longer(g: CallGraph, forward: bool, i: int, m: nat)
    requires
        !ends_within(g, forward, i, m),
    ensures
        exists|k: int| #[trigger] is_longer(g, forward, i, k, m),
{
    if m == 0 {
        assert(is_longer(g, forward, i, 0, m));
    } else {
        let links = g.links(forward, i);
        let k = choose|k: int|
            0 <= k < links.len() && !ends_within(
                g,
                forward,
                (#[trigger] links[k]) as int,
                (m - 1) as nat,
            );
        assert(is_longer(g, forward, i, k, m));
    }
}

proof fn lemma_lower(g: CallGraph, forward: bool, i: int, n: int, h: int) -> (x: int)
    requires
        g.well_formed(),
        is_high(g, forward, i, n),
        0 <= h <= n,
    ensures
        is_high(g, forward, x, h),
    decreases n,
{
    if h == n {
        i
    } else {
        let links = g.links(forward, i);
        let m = (n - 1) as nat;
        lemma_longer(g, forward, i, m);
        let k = choose|k: int| #[trigger] is_longer(g, forward, i, k, m);
        assert(are_links(links, i, g.elts@.len()));
        assert(ends_within(g, forward, links[k] as int, m));
        lemma_lower(g, forward, links[k] as int, n - 1, h)
    }
}

proof fn lemma_highest(g: CallGraph, forward: bool, i: int, n: nat) -> (h: int)
    requires
        0 <= i < g.elts@.len(),
        ends_within(g, forward, i, n),
    ensures
        is_high(g, forward, i, h),
    decreases n,
{
    if n > 0 && ends_within(g, forward, i, (n - 1) as nat) {
        lemma_highest(g, forward, i, (n - 1) as nat)
    } else {
        n as int
    }
}

/// Where no way goes on for ever, none takes more steps than there are functions
/// in the graph.
pub proof fn finite_ways_are_short(g: CallGraph, forward: bool, i: int)
    requires
        g.well_formed(),
        0 <= i < g.elts@.len(),
        is_finite_from(g, forward, i),
    ensures
        ends_within(g, forward, i, g.elts@.len()),
{
    let n = choose|n: nat| ends_within(g, forward, i, n);
    let h = lemma_highest(g, forward, i, n);
    let at = |y: int| choose|x: int| is_high(g, forward, x, y);
    assert forall|y: int| 0 <= y < h + 1 implies 0 <= #[trigger] at(y) < g.elts@.len() by {
        let x = lemma_lower(g, forward, i, h, y);
        assert(is_high(g, forward, at(y), y));
    }
    assert forall|y: int, z: int| 0 <= y < z < h + 1 implies #[trigger] at(y) != #[trigger] at(
        z,
    ) by {
        let a = lemma_lower(g, forward, i, h, y);
        let b = lemma_lower(g, forward, i, h, z);
        assert(is_high(g, forward, at(y), y));
        assert(is_high(g, forward, at(z), z));
        if at(y) == at(z) {
            lemma_ends_later(g, forward, at(y), y as nat, (z - 1) as nat);
        }
    }
    lemma_injection_bound(at, h + 1, g.elts@.len() as int);
    lemma_ends_later(g, forward, i, h as nat, g.elts@.len());
}

proof fn lemma_deeper_branches(
    g: CallGraph,
    functions: Seq<Function>,
    forward: bool,
    positions: Seq<usize>,
    depth: nat,
    m: nat,
    n: nat,
)
    requires
        m <= n,
        m == 0 ==> positions.len() == 0,
        forall|k: int|
            0 <= k < positions.len() ==> ends_within(
                g,
                forward,
                (#[trigger] positions[k]) as int,
                (m - 1) as nat,
            ),
    ensures
        branches_text(g, functions, forward, positions, depth, m) == branches_text(
            g,
            functions,
            forward,
            positions,
            depth,
            n,
        ),
    decreases m, 0int, positions.len(),
{
    if positions.len() > 0 {
        let before = positions.drop_last();
        assert forall|k: int| 0 <= k < before.len() implies ends_within(
            g,
            forward,
            (#[trigger] before[k]) as int,
            (m - 1) as nat,
        ) by {
            assert(positions[k] == before[k]);
        }
        lemma_deeper_branches(g, functions, forward, before, depth, m, n);
        let last = positions[positions.len() - 1] as int;
        assert(ends_within(g, forward, last, (m - 1) as nat));
        deeper_bounds_change_nothing(
            g,
            functions,
            forward,
            last,
            depth,
            (m - 1) as nat,
            (n - 1) as nat,
        );
    }
}

/// Where every way ends within `m` steps, the text is the same for any larger
/// bound on the steps.
pub proof fn deeper_bounds_change_nothing(
    g: CallGraph,
    functions: Seq<Function>,
    forward: bool,
    i: int,
    depth: nat,
    m: nat,
    n: nat,
)
    requires
        ends_within(g, forward, i, m),
        m <= n,
    ensures
        tree_text(g, functions, forward, i, depth, m) == tree_text(
            g,
            functions,
            forward,
            i,
            depth,
            n,
        ),
    decreases m, 1int, 0nat,
{
    lemma_deeper_branches(g, functions, forward, g.links(forward, i), depth + 1, m, n);
}

/// One after the other, the whole texts of the functions at the given positions.
pub open spec fn trees_text(
    g: CallGraph,
    functions: Seq<Function>,
    forward: bool,
    positions: Seq<usize>,
    depth: nat,
) -> Seq<char>
    decreases positions.len(),
{
    if positions.len() == 0 {
        Seq::empty()
    } else {
        trees_text(g, functions, forward, positions.drop_last(), depth) + tree_text(
            g,
            functions,
            forward,
            positions.last() as int,
            depth,
            g.elts@.len(),
        )
    }
}

/// The text of a function is its line, and then the text of each function that it
/// is linked to, one step further in: the text that this function has by itself.
pub proof fn a_text_is_a_line_and_its_branches(
    g: CallGraph,
    functions: Seq<Function>,
    forward: bool,
    i: int,
    depth: nat,
)
    requires
        g.well_formed(),
        0 <= i < g.elts@.len(),
        is_finite_from(g, forward, i),
    ensures
        tree_text(g, functions, forward, i, depth, g.elts@.len()) == node_text(
            g,
            functions,
            i,
            depth,
        ) + trees_text(g, functions, forward, g.links(forward, i), depth + 1),
        forall|k: int|
            0 <= k < g.links(forward, i).len() ==> is_finite_from(
                g,
                forward,
                (#[trigger] g.links(forward, i)[k]) as int,
            ),
{
    finite_ways_are_short(g, forward, i);
    let n = g.elts@.len();
    let links = g.links(forward, i);
    assert(are_links(links, i, n));
    assert forall|k: int| 0 <= k < links.len() implies ends_within(
        g,
        forward,
        (#[trigger] links[k]) as int,
        (n - 1) as nat,
    ) by {}
    lemma_whole_branches(g, functions, forward, links, depth + 1);
}

proof fn lemma_whole_branches(
    g: CallGraph,
    functions: Seq<Function>,
    forward: bool,
    positions: Seq<usize>,
    depth: nat,
)
    requires
        g.elts@.len() > 0,
        forall|k: int|
            0 <= k < positions.len() ==> ends_within(
                g,
                forward,
                (#[trigger] positions[k]) as int,
                (g.elts@.len() - 1) as nat,
            ),
    ensures
        branches_text(g, functions, forward, positions, depth, g.elts@.len()) == trees_text(
            g,
            functions,
            forward,
            positions,
            depth,
        ),
    decreases positions.len(),
{
    let n = g.elts@.len();
    if positions.len() > 0 {
        let before = positions.drop_last();
        assert forall|k: int| 0 <= k < before.len() implies ends_within(
            g,
            forward,
            (#[trigger] before[k]) as int,
            (n - 1) as nat,
        ) by {
            assert(positions[k] == before[k]);
        }
        lemma_whole_branches(g, functions, forward, before, depth);
        let last = positions[positions.len() - 1] as int;
        assert(ends_within(g, forward, last, (n - 1) as nat));
        deeper_bounds_change_nothing(g, functions, forward, last, depth, (n - 1) as nat, n);
    }
}

/// Two graphs with the same functions and the same links in one direction.
pub open spec fn agree_towards(g: CallGraph, h: CallGraph, forward: bool) -> bool {
    &&& g.well_formed()
    &&& g.elts@.len() == h.elts@.len()
    &&& forall|k: int| 0 <= k < g.elts@.len() ==> (#[trigger] g.elts@[k]).f == h.elts@[k].f
    &&& forall|k: int|
        0 <= k < g.elts@.len() ==> (#[trigger] g.links(forward, k)) == h.links(forward, k)
}

/// What calls a function does not matter for what is shown of its callees, nor the
/// other way round.
pub proof fn texts_follow_one_direction(
    g: CallGraph,
    h: CallGraph,
    functions: Seq<Function>,
    forward: bool,
    i: int,
    depth: nat,
    n: nat,
)
    requires
        agree_towards(g, h, forward),
        0 <= i < g.elts@.len(),
    ensures
        tree_text(g, functions, forward, i, depth, n) == tree_text(
            h,
            functions,
            forward,
            i,
            depth,
            n,
        ),
    decreases n, 1int, 0nat,
{
    let links = g.links(forward, i);
    assert(are_links(links, i, g.elts@.len()));
    assert(g.elts@[i].f == h.elts@[i].f);
    lemma_branches_follow(g, h, functions, forward, links, depth + 1, n);
}

proof fn lemma_branches_follow(
    g: CallGraph,
    h: CallGraph,
    functions: Seq<Function>,
    forward: bool,
    positions: Seq<usize>,
    depth: nat,
    n: nat,
)
    requires
        agree_towards(g, h, forward),
        forall|k: int|
            0 <= k < positions.len() ==> (#[trigger] positions[k]) < g.elts@.len(),
    ensures
        branches_text(g, functions, forward, positions, depth, n) == branches_text(
            h,
            functions,
            forward,
            positions,
            depth,
            n,
        ),
    decreases n, 0int, positions.len(),
{
    if positions.len() > 0 && n > 0 {
        let before = positions.drop_last();
        assert forall|k: int| 0 <= k < before.len() implies (#[trigger] before[k])
            < g.elts@.len() by {
            assert(positions[k] == before[k]);
        }
        lemma_branches_follow(g, h, functions, forward, before, depth, n);
        let last = positions[positions.len() - 1] as int;
        texts_follow_one_direction(g, h, functions, forward, last, depth, (n - 1) as nat);
    }
}

/// The functions of the graph are among `functions`.
pub open spec fn are_known(g: CallGraph, functions: Seq<Function>) -> bool {
    forall|i: int| 0 <= i < g.elts@.len() ==> (#[trigger] g.elts@[i]).f.0 < functions.len()
}

impl CallGraph {
    /// Whether every way along the links from position `i` ends within `n` steps.
    fn ends(&self, forward: bool, i: usize, n: usize) -> (r: bool)
        requires
            self.well_formed(),
            i < self.elts@.len(),
        ensures
            r == ends_within(*self, forward, i as int, n as nat),
        decreases n,
    {
        let links: &Vec<usize> = if forward {
            &self.elts[i].outgoings
        } else {
            &self.elts[i].incomings
        };
        assert(links@ == self.links(forward, i as int));
        assert(are_links(links@, i as int, self.elts@.len()));
        if n == 0 {
            return links.len() == 0;
        }
        let mut k: usize = 0;
        while k < links.len()
            invariant
                k <= links@.len(),
                n > 0,
                self.well_formed(),
                links@ == self.links(forward, i as int),
                are_links(links@, i as int, self.elts@.len()),
                forall|j: int|
                    0 <= j < k ==> ends_within(
                        *self,
                        forward,
                        (#[trigger] links@[j]) as int,
                        (n - 1) as nat,
                    ),
            decreases links@.len() - k,
        {
            if !self.ends(forward, links[k], n - 1) {
                assert(!ends_within(*self, forward, links@[k as int] as int, (n - 1) as nat));
                return false;
            }
            k = k + 1;
        }
        true
    }

    /// Whether the calls from the first function, and those to it, end.
    pub fn is_finite(&self) -> (r: bool)
        requires
            self.well_formed(),
            self.elts@.len() > 0,
        ensures
            r == (is_finite_from(*self, true, 0) && is_finite_from(*self, false, 0)),
    {
        proof {
            if is_finite_from(*self, true, 0) {
                finite_ways_are_short(*self, true, 0);
            }
            if is_finite_from(*self, false, 0) {
                finite_ways_are_short(*self, false, 0);
            }
        }
        let n: usize = self.elts.len();
        self.ends(true, 0, n) && self.ends(false, 0, n)
    }

    fn push_node(&self, functions: &Vec<Function>, i: usize, depth: usize, out: &mut String)
        requires
            are_known(*self, functions@),
            i < self.elts@.len(),
        ensures
            final(out)@ == old(out)@ + node_text(*self, functions@, i as int, depth as nat),
    {
        let mut d: usize = 0;
        while d < depth
            invariant
                d <= depth,
                out@ == old(out)@ + indent(d as nat),
            decreases depth - d,
        {
            proof {
                reveal_strlit("    ");
            }
            let ghost before = out@;
            out.append("    ");
            d = d + 1;
            assert(out@ =~= old(out)@ + indent(d as nat));
        }
        let id: usize = self.elts[i].f.0;
        out.append(functions[id].0.name.as_str());
        out.append(" - ");
        push_decimal(out, id as u64);
        out.append("\n");
        assert(out@ =~= old(out)@ + node_text(*self, functions@, i as int, depth as nat));
    }

    fn push_tree(
        &self,
        functions: &Vec<Function>,
        forward: bool,
        i: usize,
        depth: usize,
        out: &mut String,
        Ghost(n): Ghost<nat>,
    )
        requires
            self.well_formed(),
            are_known(*self, functions@),
            i < self.elts@.len(),
            ends_within(*self, forward, i as int, n),
            depth + n <= usize::MAX,
        ensures
            final(out)@ == old(out)@ + tree_text(
                *self,
                functions@,
                forward,
                i as int,
                depth as nat,
                n,
            ),
        decreases n,
    {
        self.push_node(functions, i, depth, out);
        let links: &Vec<usize> = if forward {
            &self.elts[i].outgoings
        } else {
            &self.elts[i].incomings
        };
        assert(links@ == self.links(forward, i as int));
        assert(are_links(links@, i as int, self.elts@.len()));
        let ghost start = out@;
        assert(start + branches_text(
            *self,
            functions@,
            forward,
            links@.take(0),
            (depth + 1) as nat,
            n,
        ) =~= start);
        let mut k: usize = 0;
        while k < links.len()
            invariant
                k <= links@.len(),
                self.well_formed(),
                are_known(*self, functions@),
                links@ == self.links(forward, i as int),
                are_links(links@, i as int, self.elts@.len()),
                ends_within(*self, forward, i as int, n),
                depth + n <= usize::MAX,
                out@ == start + branches_text(
                    *self,
                    functions@,
                    forward,
                    links@.take(k as int),
                    (depth + 1) as nat,
                    n,
                ),
            decreases links@.len() - k,
        {
            let ghost before = out@;
            self.push_tree(functions, forward, links[k], depth + 1, out, Ghost((n - 1) as nat));
            proof {
                let upto = links@.take(k + 1);
                assert(upto.drop_last() =~= links@.take(k as int));
                assert(out@ =~= start + branches_text(
                    *self,
                    functions@,
                    forward,
                    upto,
                    (depth + 1) as nat,
                    n,
                ));
            }
            k = k + 1;
        }
        proof {
            assert(links@.take(k as int) =~= links@);
            assert(out@ =~= old(out)@ + tree_text(
                *self,
                functions@,
                forward,
                i as int,
                depth as nat,
                n,
            ));
        }
    }

    /// The function at position `i`, with what it calls indented below it.
    pub fn rec_print_forward(&self, functions: &Vec<Function>, i: usize, depth: usize) -> (r:
        String)
        requires
            self.well_formed(),
            are_known(*self, functions@),
            i < self.elts@.len(),
            is_finite_from(*self, true, i as int),
            depth + self.elts@.len() <= usize::MAX,
        ensures
            r@ == tree_text(
                *self,
                functions@,
                true,
                i as int,
                depth as nat,
                self.elts@.len(),
            ),
    {
        proof {
            finite_ways_are_short(*self, true, i as int);
        }
        let mut r: String = String::new();
        self.push_tree(functions, true, i, depth, &mut r, Ghost(self.elts@.len()));
        assert(r@ =~= tree_text(
            *self,
            functions@,
            true,
            i as int,
            depth as nat,
            self.elts@.len(),
        ));
        r
    }

    /// The function at position `i`, with what calls it indented below it.
    pub fn rec_print_backward(&self, functions: &Vec<Function>, i: usize, depth: usize) -> (r:
        String)
        requires
            self.well_formed(),
            are_known(*self, functions@),
            i < self.elts@.len(),
            is_finite_from(*self, false, i as int),
            depth + self.elts@.len() <= usize::MAX,
        ensures
            r@ == tree_text(
                *self,
                functions@,
                false,
                i as int,
                depth as nat,
                self.elts@.len(),
            ),
    {
        proof {
            finite_ways_are_short(*self, false, i as int);
        }
        let mut r: String = String::new();
        self.push_tree(functions, false, i, depth, &mut r, Ghost(self.elts@.len()));
        assert(r@ =~= tree_text(
            *self,
            functions@,
            false,
            i as int,
            depth as nat,
            self.elts@.len(),
        ));
        r
    }

    /// What the first function calls, and what calls it, as indented text.
    pub fn print(&self, functions: &Vec<Function>) -> (r: String)
        requires
            self.well_formed(),
            are_known(*self, functions@),
            self.elts@.len() > 0,
            is_finite_from(*self, true, 0),
            is_finite_from(*self, false, 0),
        ensures
            r@ == graph_text(*self, functions@),
    {
        assert(self.elts.len() == self.elts@.len());
        let forward: String = self.rec_print_forward(functions, 0, 0);
        let backward: String = self.rec_print_backward(functions, 0, 0);
        let mut r: String = "FORWARD\n".to_owned();
        r.append(forward.as_str());
        r.append("\n\nBACKWARD\n");
        r.append(backward.as_str());
        r
    }
}

} // verus!

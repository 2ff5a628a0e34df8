//! The graph of calls as text.

use vstd::prelude::*;
use crate::indexing::symbols::Function;
use crate::laws::prompt::{occurs_in, stands_between};
use crate::text::decimal;
use crate::ui::callgraph::{are_links, CallGraph};
use crate::ui::tree::{
    are_known, branches_text, ends_within, finite_ways_are_short, graph_text, is_finite_from,
    node_text, tree_text, trees_text,
};

verus! {

/// The line of a function at any depth: four spaces for each step, then its name,
/// then a dash and its number, and the end of the line.
pub proof fn lines_are_indented_names(
    g: CallGraph,
    functions: Seq<Function>,
    i: int,
    depth: nat,
)
    ensures
        ({
            let t = node_text(g, functions, i, depth);
            let id = g.elts@[i].f.0;
            let name = functions[id as int].0.name@;
            &&& t.len() > 4 * depth
            &&& forall|x: int| 0 <= x < 4 * depth ==> #[trigger] t[x] == ' '
            &&& t.skip(4 * depth as int) == name + seq![' ', '-', ' '] + decimal(id as nat) + seq![
                '\n',
            ]
        }),
{
    reveal_strlit(" - ");
    reveal_strlit("\n");
    let t = node_text(g, functions, i, depth);
    let id = g.elts@[i].f.0;
    let name = functions[id as int].0.name@;
    assert(t.skip(4 * depth as int) =~= name + seq![' ', '-', ' '] + decimal(id as nat) + seq![
        '\n',
    ]);
}

/// Texts of functions follow each other in the order of their positions.
pub proof fn texts_follow_each_other(
    g: CallGraph,
    functions: Seq<Function>,
    forward: bool,
    a: Seq<usize>,
    b: Seq<usize>,
    p: usize,
    depth: nat,
)
    ensures
        trees_text(g, functions, forward, a + b, depth) == trees_text(
            g,
            functions,
            forward,
            a,
            depth,
        ) + trees_text(g, functions, forward, b, depth),
        trees_text(g, functions, forward, Seq::empty(), depth) == Seq::<char>::empty(),
        trees_text(g, functions, forward, seq![p], depth) == tree_text(
            g,
            functions,
            forward,
            p as int,
            depth,
            g.elts@.len(),
        ),
    decreases b.len(),
{
    let one = seq![p];
    assert(one.drop_last() =~= Seq::<usize>::empty());
    assert(trees_text(g, functions, forward, one.drop_last(), depth) =~= Seq::<char>::empty());
    assert(trees_text(g, functions, forward, one, depth) =~= tree_text(
        g,
        functions,
        forward,
        p as int,
        depth,
        g.elts@.len(),
    ));
    if b.len() == 0 {
        assert(a + b =~= a);
        assert(trees_text(g, functions, forward, a, depth) + trees_text(
            g,
            functions,
            forward,
            b,
            depth,
        ) =~= trees_text(g, functions, forward, a, depth));
    } else {
        assert((a + b).drop_last() =~= a + b.drop_last());
        assert((a + b).last() == b.last());
        texts_follow_each_other(g, functions, forward, a, b.drop_last(), p, depth);
        assert(trees_text(g, functions, forward, a + b, depth) =~= trees_text(
            g,
            functions,
            forward,
            a,
            depth,
        ) + trees_text(g, functions, forward, b, depth));
    }
}

/// One of the outgoing calls at position `i`, or one of the incoming ones, leads to
/// position `j`.
pub open spec fn is_link(g: CallGraph, forward: bool, i: int, j: int) -> bool {
    if forward {
        exists|k: int|
            0 <= k < g.elts@[i].outgoings@.len() && #[trigger] g.elts@[i].outgoings@[k] as int == j
    } else {
        exists|k: int|
            0 <= k < g.elts@[i].incomings@.len() && #[trigger] g.elts@[i].incomings@[k] as int == j
    }
}

/// A way along the outgoing calls, or along the incoming ones, from position to
/// position.
pub open spec fn is_way_of_links(g: CallGraph, forward: bool, way: Seq<int>) -> bool {
    forall|x: int, y: int|
        0 <= x && y == x + 1 && y < way.len() ==> is_link(
            g,
            forward,
            #[trigger] way[x],
            #[trigger] way[y],
        )
}

proof fn lemma_is_link(g: CallGraph, forward: bool, i: int, k: int)
    requires
        0 <= k < g.links(forward, i).len(),
    ensures
        is_link(g, forward, i, g.links(forward, i)[k] as int),
{
    if forward {
        assert(g.elts@[i].outgoings@[k] as int == g.links(forward, i)[k] as int);
    } else {
        assert(g.elts@[i].incomings@[k] as int == g.links(forward, i)[k] as int);
    }
}

proof fn lemma_first_link(g: CallGraph, forward: bool, way: Seq<int>) -> (k: int)
    requires
        is_way_of_links(g, forward, way),
        way.len() > 1,
    ensures
        0 <= k < g.links(forward, way[0]).len(),
        g.links(forward, way[0])[k] as int == way[1],
        is_way_of_links(g, forward, way.skip(1)),
{
    assert(is_link(g, forward, way[0], way[1]));
    let links = g.links(forward, way[0]);
    let k = choose|k: int| 0 <= k < links.len() && #[trigger] links[k] as int == way[1];
    let rest = way.skip(1);
    assert forall|x: int, y: int| 0 <= x && y == x + 1 && y < rest.len() implies is_link(
        g,
        forward,
        #[trigger] rest[x],
        #[trigger] rest[y],
    ) by {
        let z = y + 1;
        assert(rest[x] == way[y]);
        assert(rest[y] == way[z]);
    }
    k
}

/// Every way has its line, however long it is: the line of the function where it
/// ends, as deep as the way is long.
pub proof fn every_way_has_its_line(
    g: CallGraph,
    functions: Seq<Function>,
    forward: bool,
    way: Seq<int>,
    depth: nat,
    n: nat,
)
    requires
        way.len() > 0,
        is_way_of_links(g, forward, way),
        ends_within(g, forward, way[0], n),
    ensures
        occurs_in(
            tree_text(g, functions, forward, way[0], depth, n),
            node_text(g, functions, way.last(), (depth + way.len() - 1) as nat),
        ),
    decreases way.len(),
{
    let i = way[0];
    let text = tree_text(g, functions, forward, i, depth, n);
    let links = g.links(forward, i);
    let below = branches_text(g, functions, forward, links, depth + 1, n);
    let line = node_text(g, functions, way.last(), (depth + way.len() - 1) as nat);
    if way.len() == 1 {
        let none = Seq::<char>::empty();
        assert(text =~= none + line + below);
        assert(stands_between(text, line, none, below));
    } else {
        let k = lemma_first_link(g, forward, way);
        let rest = way.skip(1);
        assert(n > 0);
        assert(ends_within(g, forward, links[k] as int, (n - 1) as nat));
        every_way_has_its_line(g, functions, forward, rest, depth + 1, (n - 1) as nat);
        assert(rest.last() == way.last());
        assert((depth + 1 + rest.len() - 1) as nat == (depth + way.len() - 1) as nat);
        lemma_branch_occurs(g, functions, forward, links, depth + 1, n, k);
        let tree = tree_text(g, functions, forward, links[k] as int, depth + 1, (n - 1) as nat);
        let (a, b) = choose|a: Seq<char>, b: Seq<char>| stands_between(below, tree, a, b);
        let (c, d) = choose|c: Seq<char>, d: Seq<char>| stands_between(tree, line, c, d);
        let head = node_text(g, functions, i, depth);
        let x = head + a + c;
        let y = d + b;
        assert(text =~= x + line + y);
        assert(stands_between(text, line, x, y));
    }
}

proof fn lemma_branch_occurs(
    g: CallGraph,
    functions: Seq<Function>,
    forward: bool,
    positions: Seq<usize>,
    depth: nat,
    n: nat,
    k: int,
)
    requires
        0 <= k < positions.len(),
        n > 0,
    ensures
        occurs_in(
            branches_text(g, functions, forward, positions, depth, n),
            tree_text(g, functions, forward, positions[k] as int, depth, (n - 1) as nat),
        ),
    decreases positions.len(),
{
    let text = branches_text(g, functions, forward, positions, depth, n);
    let before = positions.drop_last();
    let tree = tree_text(g, functions, forward, positions[k] as int, depth, (n - 1) as nat);
    let front = branches_text(g, functions, forward, before, depth, n);
    if k < before.len() {
        lemma_branch_occurs(g, functions, forward, before, depth, n, k);
        let (a, b) = choose|a: Seq<char>, b: Seq<char>| stands_between(front, tree, a, b);
        let last = tree_text(
            g,
            functions,
            forward,
            positions.last() as int,
            depth,
            (n - 1) as nat,
        );
        let c = b + last;
        assert(text =~= a + tree + c);
        assert(stands_between(text, tree, a, c));
    } else {
        let none = Seq::<char>::empty();
        assert(text =~= front + tree + none);
        assert(stands_between(text, tree, front, none));
    }
}

/// The number of ways along the links from position `i`, down to `n` steps.
pub open spec fn way_count(g: CallGraph, forward: bool, i: int, n: nat) -> nat
    decreases n, 1int, 0nat,
{
    1 + branch_count(
        g,
        forward,
        if forward {
            g.elts@[i].outgoings@
        } else {
            g.elts@[i].incomings@
        },
        n,
    )
}

/// The number of ways that go on over the given positions.
pub open spec fn branch_count(g: CallGraph, forward: bool, positions: Seq<usize>, n: nat) -> nat
    decreases n, 0int, positions.len(),
{
    if positions.len() == 0 || n == 0 {
        0
    } else {
        branch_count(g, forward, positions.drop_last(), n) + way_count(
            g,
            forward,
            positions.last() as int,
            (n - 1) as nat,
        )
    }
}

/// The number of line ends in a text.
pub open spec fn line_ends(text: Seq<char>) -> nat
    decreases text.len(),
{
    if text.len() == 0 {
        0
    } else {
        line_ends(text.drop_last()) + (if text.last() == '\n' {
            1nat
        } else {
            0
        })
    }
}

proof fn lemma_line_ends_add(a: Seq<char>, b: Seq<char>)
    ensures
        line_ends(a + b) == line_ends(a) + line_ends(b),
    decreases b.len(),
{
    if b.len() == 0 {
        assert(a + b =~= a);
    } else {
        assert((a + b).drop_last() =~= a + b.drop_last());
        lemma_line_ends_add(a, b.drop_last());
    }
}

proof fn lemma_no_line_ends(a: Seq<char>)
    requires
        forall|x: int| 0 <= x < a.len() ==> a[x] != '\n',
    ensures
        line_ends(a) == 0,
    decreases a.len(),
{
    if a.len() > 0 {
        lemma_no_line_ends(a.drop_last());
    }
}

proof fn lemma_one_line(g: CallGraph, functions: Seq<Function>, i: int, depth: nat)
    requires
        line_ends(functions[g.elts@[i].f.0 as int].0.name@) == 0,
    ensures
        line_ends(node_text(g, functions, i, depth)) == 1,
{
    let t = node_text(g, functions, i, depth);
    let id = g.elts@[i].f.0;
    let name = functions[id as int].0.name@;
    lines_are_indented_names(g, functions, i, depth);
    crate::laws::text::written_numbers_read_back(id as nat);
    let front = t.take(4 * depth as int);
    let back = t.skip(4 * depth as int);
    let dash = seq![' ', '-', ' '];
    let number = decimal(id as nat);
    let end = seq!['\n'];
    assert(t =~= front + back);
    lemma_line_ends_add(front, back);
    lemma_no_line_ends(front);
    lemma_line_ends_add(name + dash + number, end);
    lemma_line_ends_add(name + dash, number);
    lemma_line_ends_add(name, dash);
    lemma_no_line_ends(dash);
    lemma_no_line_ends(number);
    assert(end.drop_last() =~= Seq::<char>::empty());
    assert(line_ends(end.drop_last()) == 0);
    assert(line_ends(end) == 1);
}

/// A text has exactly one line for each way, where names are single lines.
pub proof fn each_way_has_one_line(
    g: CallGraph,
    functions: Seq<Function>,
    forward: bool,
    i: int,
    depth: nat,
    n: nat,
)
    requires
        g.well_formed(),
        are_known(g, functions),
        0 <= i < g.elts@.len(),
        forall|k: int| 0 <= k < functions.len() ==> line_ends((#[trigger] functions[k]).0.name@)
            == 0,
    ensures
        line_ends(tree_text(g, functions, forward, i, depth, n)) == way_count(g, forward, i, n),
    decreases n, 1int, 0nat,
{
    let links = g.links(forward, i);
    assert(are_links(links, i, g.elts@.len()));
    let id = g.elts@[i].f.0;
    assert(id < functions.len());
    assert(line_ends(functions[id as int].0.name@) == 0);
    lemma_one_line(g, functions, i, depth);
    lemma_line_ends_add(
        node_text(g, functions, i, depth),
        branches_text(g, functions, forward, links, depth + 1, n),
    );
    lemma_branch_lines(g, functions, forward, links, depth + 1, n);
}

proof fn lemma_branch_lines(
    g: CallGraph,
    functions: Seq<Function>,
    forward: bool,
    positions: Seq<usize>,
    depth: nat,
    n: nat,
)
    requires
        g.well_formed(),
        are_known(g, functions),
        forall|k: int| 0 <= k < positions.len() ==> (#[trigger] positions[k]) < g.elts@.len(),
        forall|k: int| 0 <= k < functions.len() ==> line_ends((#[trigger] functions[k]).0.name@)
            == 0,
    ensures
        line_ends(branches_text(g, functions, forward, positions, depth, n)) == branch_count(
            g,
            forward,
            positions,
            n,
        ),
    decreases n, 0int, positions.len(),
{
    if positions.len() > 0 && n > 0 {
        let before = positions.drop_last();
        assert forall|k: int| 0 <= k < before.len() implies (#[trigger] before[k])
            < g.elts@.len() by {
            assert(positions[k] == before[k]);
        }
        let last = positions[positions.len() - 1] as int;
        lemma_branch_lines(g, functions, forward, before, depth, n);
        each_way_has_one_line(g, functions, forward, last, depth, (n - 1) as nat);
        lemma_line_ends_add(
            branches_text(g, functions, forward, before, depth, n),
            tree_text(g, functions, forward, last, depth, (n - 1) as nat),
        );
    }
}

/// Ways end within `n` steps where none is longer.
pub proof fn ways_end_where_none_is_longer(
    g: CallGraph,
    forward: bool,
    way: Seq<int>,
    n: nat,
)
    requires
        way.len() > 0,
        is_way_of_links(g, forward, way),
        ends_within(g, forward, way[0], n),
    ensures
        way.len() <= n + 1,
    decreases way.len(),
{
    if way.len() > 1 {
        let k = lemma_first_link(g, forward, way);
        let rest = way.skip(1);
        assert(n > 0);
        assert(ends_within(g, forward, g.links(forward, way[0])[k] as int, (n - 1) as nat));
        ways_end_where_none_is_longer(g, forward, rest, (n - 1) as nat);
    }
}

/// Where not all ways end within `n` steps, there is a longer one.
pub proof fn endless_ways_are_long(g: CallGraph, forward: bool, i: int, n: nat) -> (way: Seq<int>)
    requires
        !ends_within(g, forward, i, n),
    ensures
        is_way_of_links(g, forward, way),
        way.len() == n + 2,
        way[0] == i,
    decreases n,
{
    let links = g.links(forward, i);
    if n == 0 {
        let next = links[0] as int;
        let way = seq![i, next];
        lemma_is_link(g, forward, i, 0);
        assert(is_way_of_links(g, forward, way));
        way
    } else {
        let k = choose|k: int|
            0 <= k < links.len() && !ends_within(
                g,
                forward,
                (#[trigger] links[k]) as int,
                (n - 1) as nat,
            );
        let next = links[k] as int;
        let rest = endless_ways_are_long(g, forward, next, (n - 1) as nat);
        let way = seq![i] + rest;
        lemma_is_link(g, forward, i, k);
        assert forall|x: int, y: int| 0 <= x && y == x + 1 && y < way.len() implies is_link(
            g,
            forward,
            #[trigger] way[x],
            #[trigger] way[y],
        ) by {
            assert(way[y] == rest[x]);
            if x > 0 {
                let w = x - 1;
                assert(way[x] == rest[w]);
            }
        }
        way
    }
}

/// Calls end where there is a bound on the length of all ways.
pub proof fn calls_end_where_ways_are_bounded(g: CallGraph, forward: bool, i: int, bound: nat)
    requires
        forall|way: Seq<int>|
            way.len() > 0 && way[0] == i && #[trigger] is_way_of_links(g, forward, way)
                ==> way.len() <= bound,
    ensures
        is_finite_from(g, forward, i),
{
    if !ends_within(g, forward, i, bound) {
        let way = endless_ways_are_long(g, forward, i, bound);
        assert(is_way_of_links(g, forward, way));
    }
}

/// Where calls end, no way is longer than there are functions, but for its last step.
pub proof fn ways_are_bounded_where_calls_end(
    g: CallGraph,
    forward: bool,
    way: Seq<int>,
)
    requires
        g.well_formed(),
        way.len() > 0,
        0 <= way[0] < g.elts@.len(),
        is_way_of_links(g, forward, way),
        is_finite_from(g, forward, way[0]),
    ensures
        way.len() <= g.elts@.len() + 1,
{
    finite_ways_are_short(g, forward, way[0]);
    ways_end_where_none_is_longer(g, forward, way, g.elts@.len());
}

/// The whole text: what the first function calls below the word FORWARD, and what
/// calls it below the word BACKWARD, with two empty lines between.
pub proof fn graphs_are_shown_both_ways(g: CallGraph, functions: Seq<Function>)
    ensures
        graph_text(g, functions) == seq!['F', 'O', 'R', 'W', 'A', 'R', 'D', '\n'] + tree_text(
            g,
            functions,
            true,
            0,
            0,
            g.elts@.len(),
        ) + seq!['\n', '\n', 'B', 'A', 'C', 'K', 'W', 'A', 'R', 'D', '\n'] + tree_text(
            g,
            functions,
            false,
            0,
            0,
            g.elts@.len(),
        ),
{
    reveal_strlit("FORWARD\n");
    reveal_strlit("\n\nBACKWARD\n");
    assert("FORWARD\n"@ =~= seq!['F', 'O', 'R', 'W', 'A', 'R', 'D', '\n']);
    assert("\n\nBACKWARD\n"@ =~= seq!['\n', '\n', 'B', 'A', 'C', 'K', 'W', 'A', 'R', 'D', '\n']);
}

} // verus!

use terrier::indexing::index::FunctionId;
use terrier::indexing::symbols::{Function, Position, Range, SymbolInformation, FUNCTION_KIND};
use terrier::indexing::uri::Uri;
use terrier::ui::callgraph::{CallGraph, CallNode};
use terrier::ui::explore::Exploration;

fn ids(numbers: &[usize]) -> Vec<FunctionId> {
    numbers.iter().map(|i| FunctionId(*i)).collect()
}

fn functions() -> Vec<Function> {
    ["main", "read", "write", "check", "log"]
        .iter()
        .map(|name| {
            let start = Position { line: 0, character: 0 };
            Function(SymbolInformation {
                name: name.to_string(),
                kind: FUNCTION_KIND,
                tags: None,
                deprecated: None,
                uri: Uri::parse("file:///p/src/a.rs").unwrap(),
                range: Range { start, end: start },
                container_name: None,
            })
        })
        .collect()
}

fn nodes(g: &CallGraph) -> Vec<usize> {
    g.elts.iter().map(|e| e.f.0).collect()
}

#[test]
fn nodes_start_without_calls() {
    let node = CallNode::new(FunctionId(7));
    assert_eq!(node.f, FunctionId(7));
    assert!(node.incomings.is_empty());
    assert!(node.outgoings.is_empty());
    assert!(CallGraph::default().elts.is_empty());
}

#[test]
fn callees_are_added() {
    let mut g = CallGraph::single(FunctionId(0));
    g.add_outgoings(FunctionId(0), &ids(&[2, 0, 3, 2]));
    assert_eq!(nodes(&g), [0, 2, 3]);
    assert_eq!(g.elts[0].outgoings, [1, 2]);
    g.add_outgoings(FunctionId(3), &ids(&[4, 0]));
    assert_eq!(nodes(&g), [0, 2, 3, 4]);
    assert_eq!(g.elts[2].outgoings, [3, 0]);
    assert!(g.elts.iter().all(|e| e.incomings.is_empty()));
}

#[test]
fn callers_are_added() {
    let mut g = CallGraph::single(FunctionId(0));
    g.add_incomings(FunctionId(0), &ids(&[2, 0, 3, 2]));
    assert_eq!(nodes(&g), [0, 2, 3]);
    assert_eq!(g.elts[0].incomings, [1, 2]);
    assert!(g.elts.iter().all(|e| e.outgoings.is_empty()));
}

#[test]
fn adding_twice_is_adding_once() {
    let mut g = CallGraph::single(FunctionId(0));
    g.add_outgoings(FunctionId(0), &ids(&[1, 2]));
    let once = format!("{g:?}");
    g.add_outgoings(FunctionId(0), &ids(&[1, 2]));
    assert_eq!(format!("{g:?}"), once);
}

#[test]
fn known_calls_stay() {
    let mut g = CallGraph::single(FunctionId(0));
    g.add_outgoings(FunctionId(0), &ids(&[1, 2]));
    g.add_outgoings(FunctionId(0), &ids(&[3]));
    g.add_incomings(FunctionId(0), &ids(&[4]));
    assert_eq!(nodes(&g), [0, 1, 2, 3, 4]);
    assert_eq!(g.elts[0].outgoings, [1, 2, 3]);
    assert_eq!(g.elts[0].incomings, [4]);
}

#[test]
fn graphs_are_printed() {
    let mut g = CallGraph::single(FunctionId(0));
    g.add_outgoings(FunctionId(0), &ids(&[1, 2]));
    g.add_outgoings(FunctionId(1), &ids(&[3]));
    g.add_outgoings(FunctionId(2), &ids(&[3]));
    g.add_incomings(FunctionId(0), &ids(&[4]));
    assert!(g.is_finite());
    assert_eq!(
        g.print(&functions()),
        "FORWARD\n\
         main - 0\n\
         \x20   read - 1\n\
         \x20       check - 3\n\
         \x20   write - 2\n\
         \x20       check - 3\n\
         \n\n\
         BACKWARD\n\
         main - 0\n\
         \x20   log - 4\n"
    );
    assert_eq!(
        g.rec_print_forward(&functions(), 1, 2),
        "        read - 1\n            check - 3\n"
    );
    assert_eq!(g.rec_print_backward(&functions(), 1, 0), "read - 1\n");
}

#[test]
fn recursive_calls_never_end() {
    let mut g = CallGraph::single(FunctionId(0));
    g.add_outgoings(FunctionId(0), &ids(&[0, 1]));
    assert!(g.is_finite());
    g.add_outgoings(FunctionId(1), &ids(&[2]));
    assert!(g.is_finite());
    g.add_outgoings(FunctionId(2), &ids(&[1]));
    assert!(!g.is_finite());
    let mut b = CallGraph::single(FunctionId(0));
    b.add_incomings(FunctionId(0), &ids(&[1]));
    b.add_incomings(FunctionId(1), &ids(&[0]));
    assert!(!b.is_finite());
}

/// Who calls whom, by number.
fn callees(f: usize) -> Vec<usize> {
    match f {
        0 => vec![1, 2],
        1 => vec![3],
        2 => vec![2, 3],
        3 => vec![4],
        _ => vec![],
    }
}

fn callers(f: usize) -> Vec<usize> {
    (0..5).filter(|g| callees(*g).contains(&f)).collect()
}

fn explore(f: usize, forward: usize, backward: usize) -> (CallGraph, Vec<usize>) {
    let id = FunctionId(f);
    let mut e = Exploration::start(CallGraph::single(id), id, forward, backward);
    let mut asked = Vec::new();
    while let Some(next) = e.next() {
        asked.push(next.0);
        e.absorb(&ids(&callers(next.0)), &ids(&callees(next.0)));
    }
    (e.graph, asked)
}

#[test]
fn explorations_go_forward() {
    let (g, asked) = explore(0, 2, 0);
    assert_eq!(nodes(&g), [0, 1, 2, 3]);
    assert_eq!(asked, [0, 0, 1, 2, 3, 2, 3]);
    assert_eq!(g.elts[0].outgoings, [1, 2]);
    assert_eq!(g.elts[1].outgoings, [3]);
    assert_eq!(g.elts[2].outgoings, [3]);
    assert!(g.elts[3].outgoings.is_empty());
}

#[test]
fn explorations_go_backward() {
    let (g, _) = explore(3, 0, 2);
    assert_eq!(nodes(&g), [3, 1, 2, 0]);
    assert_eq!(g.elts[0].incomings, [1, 2]);
    assert_eq!(g.elts[1].incomings, [3]);
    assert_eq!(g.elts[2].incomings, [3]);
    assert!(g.elts.iter().all(|e| e.outgoings.is_empty()));
}

#[test]
fn explorations_are_complete() {
    let (g, _) = explore(0, 20, 20);
    let at = |f: usize| g.elts.iter().position(|e| e.f.0 == f).unwrap();
    for f in 0..5 {
        for c in callees(f) {
            assert_eq!(g.elts[at(f)].outgoings.contains(&at(c)), c != f);
        }
    }
    for e in &g.elts {
        assert!(e.outgoings.iter().all(|o| callees(e.f.0).contains(&g.elts[*o].f.0)));
    }
}

#[test]
fn explorations_stay_near() {
    // Within two calls of the first function, and of the calls only those of
    // functions within one call.
    let (g, _) = explore(0, 2, 1);
    assert_eq!(nodes(&g), [0, 1, 2, 3]);
    assert!(g.elts[3].outgoings.is_empty());
    let (far, _) = explore(0, 3, 0);
    assert_eq!(nodes(&far), [0, 1, 2, 3, 4]);
    assert_eq!(far.elts[3].outgoings, [4]);
}

#[test]
fn explorations_without_steps_leave_the_graph_alone() {
    let mut e = Exploration::start(CallGraph::single(FunctionId(3)), FunctionId(0), 0, 0);
    while let Some(next) = e.next() {
        assert_eq!(next, FunctionId(0));
        e.absorb(&ids(&[1]), &ids(&[2]));
    }
    assert_eq!(nodes(&e.graph), [3]);
    assert!(e.graph.elts[0].incomings.is_empty());
    assert!(e.graph.elts[0].outgoings.is_empty());
    let mut none = Exploration::start(CallGraph::default(), FunctionId(0), 0, 0);
    none.absorb(&ids(&[1]), &ids(&[2]));
    none.absorb(&ids(&[1]), &ids(&[2]));
    assert!(none.next().is_none());
    assert!(none.graph.elts.is_empty());
}

#[test]
fn branches_are_texts_of_their_own() {
    let mut g = CallGraph::single(FunctionId(0));
    g.add_outgoings(FunctionId(0), &ids(&[1, 2]));
    g.add_outgoings(FunctionId(1), &ids(&[3]));
    g.add_outgoings(FunctionId(2), &ids(&[1]));
    let f = functions();
    let mut text = "  ".repeat(2) + "main - 0\n";
    for o in &g.elts[0].outgoings {
        text += &g.rec_print_forward(&f, *o, 2);
    }
    assert_eq!(g.rec_print_forward(&f, 0, 1), text);
    // What calls a function does not matter.
    g.add_incomings(FunctionId(3), &ids(&[0]));
    assert_eq!(g.rec_print_forward(&f, 0, 1), text);
}

#[test]
fn explorations_without_steps_ask_once_each_way() {
    let (g, asked) = explore(0, 0, 0);
    assert_eq!(nodes(&g), [0]);
    assert_eq!(asked, [0, 0]);
}

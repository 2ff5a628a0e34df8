use terrier::indexing::index::FunctionId;
use terrier::indexing::symbols::{Function, Position, Range, SymbolInformation, FUNCTION_KIND};
use terrier::indexing::uri::Uri;
use terrier::ui::navigation::NavigationStack;

fn function(name: &str, file: &str, line: u32) -> Function {
    let start = Position { line, character: 0 };
    Function(SymbolInformation {
        name: name.to_string(),
        kind: FUNCTION_KIND,
        tags: None,
        deprecated: None,
        uri: Uri::parse(file).unwrap(),
        range: Range { start, end: start },
        container_name: None,
    })
}

#[test]
fn stacks_start_empty() {
    let mut stack = NavigationStack::default();
    assert!(stack.is_empty());
    assert_eq!(stack.current(), None);
    assert_eq!(stack.pop(), None);
    assert_eq!(stack.to_table("/p", &Vec::new()), None);
}

#[test]
fn a_push_leads_there_once() {
    let mut stack = NavigationStack::default();
    stack.push(FunctionId(3));
    assert_eq!(stack.current(), Some(&FunctionId(3)));
    stack.push(FunctionId(3));
    assert_eq!(stack.0, [FunctionId(3)]);
    stack.push(FunctionId(5));
    stack.push(FunctionId(3));
    assert_eq!(stack.0, [FunctionId(3), FunctionId(5), FunctionId(3)]);
    assert!(!stack.is_empty());
}

#[test]
fn a_pop_undoes_a_push() {
    let mut stack = NavigationStack::default();
    stack.push(FunctionId(3));
    let before = stack.clone();
    stack.push(FunctionId(5));
    assert_eq!(stack.pop(), Some(FunctionId(5)));
    assert_eq!(stack.0, before.0);
}

#[test]
fn frames_do_not_repeat() {
    let mut stack = NavigationStack::default();
    for i in [1, 1, 2, 2, 2, 1, 3, 3] {
        stack.push(FunctionId(i));
    }
    assert_eq!(stack.0, [1, 2, 1, 3].map(FunctionId));
    assert!(stack.0.windows(2).all(|w| w[0] != w[1]));
}

#[test]
fn stacks_with_odd_names_are_not_shown() {
    let functions = vec![
        function("main", "file:///p/src/main.rs", 4),
        function("\u{1b}[!!p\u{3042}\u{3042}\u{1b}[0m", "file:///p/src/main.rs", 5),
    ];
    let mut stack = NavigationStack::default();
    assert!(stack.can_show("/p/", &functions));
    stack.push(FunctionId(0));
    assert!(stack.can_show("/p/", &functions));
    stack.push(FunctionId(1));
    assert!(!stack.can_show("/p/", &functions));
    stack.pop();
    stack.push(FunctionId(2));
    assert!(!stack.can_show("/p/", &functions));
}

#[test]
fn stacks_are_shown_as_tables() {
    colored::control::set_override(false);
    let functions = vec![
        function("main", "file:///p/src/main.rs", 4),
        function("read", "file:///lib/io.rs", 120),
    ];
    let mut stack = NavigationStack::default();
    stack.push(FunctionId(0));
    stack.push(FunctionId(1));
    let table = stack.to_table("/p/", &functions).unwrap();
    let lines: Vec<&str> = table.lines().map(|l| l.trim_end()).collect();
    assert_eq!(
        lines,
        [" Navigation Stack", " main   src/main.rs:4", " read   /lib/io.rs:120"]
    );
}

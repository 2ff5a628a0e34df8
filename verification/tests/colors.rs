use compact_str::CompactString;
use terrier::indexing::index::{FunctionId, Index};
use terrier::indexing::symbols::{
    CallHierarchyItem, CallSite, Function, Position, Range, SymbolInformation, FUNCTION_KIND,
};
use terrier::indexing::uri::Uri;
use terrier::ui::navigation::NavigationStack;
use terrier::ui::prompt::{menu_prompt, unknown_chord, Entry};
use terrier::ui::session::Ui;

fn function(container: Option<&str>) -> Function {
    let start = Position { line: 12, character: 4 };
    Function(SymbolInformation {
        name: "read".to_string(),
        kind: FUNCTION_KIND,
        tags: None,
        deprecated: None,
        uri: Uri::parse("file:///p/src/a.rs").unwrap(),
        range: Range { start, end: start },
        container_name: container.map(|c| c.to_string()),
    })
}

#[test]
fn functions_are_painted() {
    colored::control::set_override(true);
    assert_eq!(
        function(Some("Tree")).pretty("/p/"),
        "\u{1b}[90msrc/a.rs\u{1b}[0m:12 \u{1b}[33mTree::\u{1b}[0m\u{1b}[1;93mread\u{1b}[0m"
    );
    assert_eq!(
        function(None).pretty("/p/src/"),
        "\u{1b}[90ma.rs\u{1b}[0m:12 \u{1b}[33m\u{1b}[0m\u{1b}[1;93mread\u{1b}[0m"
    );
}

#[test]
fn call_sites_are_painted() {
    colored::control::set_override(true);
    let site = CallSite(CallHierarchyItem::from(&function(None)));
    assert_eq!(
        site.pretty("/p/"),
        "\u{1b}[90msrc/a.rs\u{1b}[0m:\u{1b}[31m(12, 4)\u{1b}[0m \u{1b}[1;93mread\u{1b}[0m"
    );
}

#[test]
fn prompts_are_painted() {
    colored::control::set_override(true);
    let entries = vec![Entry {
        chord: CompactString::from("q"),
        label: CompactString::from("quit"),
        payload: 0u8,
        show: true,
    }];
    assert_eq!(
        menu_prompt("Menu ", &entries),
        "\u{1b}[1;37mMenu \u{1b}[0m\u{1b}[1;33m[q]\u{1b}[0m quit"
    );
}

#[test]
fn unknown_chords_are_red() {
    colored::control::set_override(true);
    assert_eq!(unknown_chord("xx"), "Unknown key chord `\u{1b}[31mxx\u{1b}[0m`");
    // Text that ends a style of its own goes on in red.
    assert_eq!(
        unknown_chord("a\u{1b}[0mb"),
        "Unknown key chord `\u{1b}[31ma\u{1b}[0m\u{1b}[31mb\u{1b}[0m`"
    );
}

#[test]
fn overviews_are_painted() {
    colored::control::set_override(true);
    let symbols = vec![function(None).0];
    let ui = Ui::new(Index::new("/p/".to_string(), Vec::new(), &symbols));
    let sites = vec![CallSite(CallHierarchyItem::from(&function(None)))];
    let chords = vec![CompactString::from("a"), CompactString::from("s")];
    let text = ui.overview(FunctionId(0), &sites, &sites, &chords);
    for part in [
        "\u{1b}[34mCALLERS\u{1b}[0m",
        "[\u{1b}[1;33ma\u{1b}[0m] \u{1b}[1;94mread\u{1b}[0m",
        "\u{1b}[37mCURRENT\u{1b}[0m",
        "\u{1b}[97mread\u{1b}[0m",
        "\u{1b}[35mCALLEES\u{1b}[0m",
        "[\u{1b}[1;33ms\u{1b}[0m] \u{1b}[1;95mread\u{1b}[0m",
    ] {
        assert!(text.contains(part), "{part:?} is not in {text:?}");
    }
}

#[test]
fn stacks_are_shaded() {
    colored::control::set_override(true);
    let functions = vec![function(None), function(None)];
    let mut stack = NavigationStack::default();
    stack.push(FunctionId(0));
    stack.push(FunctionId(1));
    let table = stack.to_table("/p/", &functions).unwrap();
    assert!(table.contains("\u{1b}[97mNavigation Stack\u{1b}[0m"));
    assert!(table.contains("\u{1b}[90msrc/a.rs:12\u{1b}[0m"));
    let gray = |s: u8| format!("\u{1b}[38;2;{s};{s};{s}mread\u{1b}[0m");
    let near = "\u{1b}[90mread\u{1b}[0m".to_string();
    let exact = table.contains(&gray(80)) && table.contains(&gray(167));
    assert!(exact || table.matches(&near).count() == 2);
}

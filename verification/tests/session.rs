use compact_str::CompactString;
use terrier::chords::debruijn::DeBruijner;
use terrier::indexing::index::{FunctionId, Index};
use terrier::indexing::symbols::{
    CallHierarchyItem, CallSite, Function, Position, Range, SymbolInformation, FUNCTION_KIND,
};
use terrier::indexing::uri::Uri;
use terrier::ui::navigation::NavigationStack;
use terrier::ui::prompt::{KeyMap, Pressed};
use terrier::ui::session::{
    act, editor_arguments, ready_notice, select, Explored, FnAction, Next, Settings, Ui,
};

fn at(line: u32) -> Range {
    Range { start: Position { line, character: 3 }, end: Position { line, character: 9 } }
}

fn symbol(name: &str, line: u32) -> SymbolInformation {
    SymbolInformation {
        name: name.to_string(),
        kind: FUNCTION_KIND,
        tags: None,
        deprecated: None,
        uri: Uri::parse("file:///p/src/a.rs").unwrap(),
        range: at(line),
        container_name: if line == 2 { Some("Tree".to_string()) } else { None },
    }
}

fn item(name: &str, line: u32) -> CallHierarchyItem {
    CallHierarchyItem::from(&Function(symbol(name, line)))
}

fn ui() -> Ui {
    colored::control::set_override(false);
    let symbols = vec![symbol("main", 0), symbol("read", 1), symbol("write", 2), symbol("log", 3)];
    Ui::new(Index::new("/p/".to_string(), Vec::new(), &symbols))
}

fn sites(items: &[(&str, u32)]) -> Vec<CallSite> {
    items.iter().map(|(name, line)| CallSite(item(name, *line))).collect()
}

fn chords(n: usize) -> Vec<CompactString> {
    DeBruijner::default().generate_n(n, 1)
}

fn shape(action: FnAction) -> String {
    format!("{action:?}")
}

#[test]
fn settings_stay_in_the_project() {
    assert!(Settings::default().only_in_project);
}

#[test]
fn functions_have_lines() {
    let ui = ui();
    assert_eq!(ui.root, "/p/");
    assert_eq!(
        ui.function_names,
        ["src/a.rs:0 main", "src/a.rs:1 read", "src/a.rs:2 Tree::write", "src/a.rs:3 log"]
    );
}

#[test]
fn call_sites_have_lines() {
    colored::control::set_override(false);
    let site = CallSite(item("log", 3));
    assert_eq!(site.pretty("/p/"), "src/a.rs:(3, 3) log");
}

#[test]
fn menus_list_calls_and_actions() {
    let ui = ui();
    let entries = ui.choices(
        &sites(&[("main", 0), ("gone", 99)]),
        &sites(&[("log", 3), ("gone", 98), ("main", 0)]),
        &chords(5),
    );
    let all: Vec<(String, String, String, bool)> = entries
        .iter()
        .map(|e| (e.chord.to_string(), e.label.to_string(), shape(e.payload), e.show))
        .collect();
    let line = |chord: &str, label: &str, action: FnAction, show: bool| {
        (chord.to_string(), label.to_string(), shape(action), show)
    };
    assert_eq!(
        all,
        [
            line("f", "main", FnAction::GoTo(FunctionId(0)), false),
            line("d", "log", FnAction::GoTo(FunctionId(3)), false),
            line("s", "main", FnAction::GoTo(FunctionId(0)), false),
            line("o", "open...", FnAction::OpenIn, true),
            line("b", "back", FnAction::Back, true),
            line("j", "jump", FnAction::Jump, true),
            line("q", "quit", FnAction::Quit, true),
        ]
    );
}

#[test]
fn every_entry_can_be_chosen() {
    let ui = ui();
    let callers = sites(&[("main", 0), ("read", 1), ("write", 2)]);
    let callees = sites(&[("log", 3), ("main", 0)]);
    let entries = ui.choices(&callers, &callees, &DeBruijner::default().generate_n(5, 2));
    assert_eq!(entries.len(), 9);
    for e in &entries {
        let mut keys = KeyMap::from_choices(&entries);
        let mut chosen = None;
        for c in e.chord.as_str().chars() {
            if let Pressed::Chosen(action) = keys.press(c) {
                chosen = Some(shape(action));
                break;
            }
        }
        assert_eq!(chosen, Some(shape(e.payload)));
    }
}

#[test]
fn overviews_have_three_columns() {
    let ui = ui();
    let text = ui.overview(
        FunctionId(1),
        &sites(&[("main", 0)]),
        &sites(&[("log", 3), ("gone", 98), ("write", 2)]),
        &chords(4),
    );
    let lines: Vec<&str> = text.lines().map(|l| l.trim_end()).collect();
    assert_eq!(
        lines,
        [
            " CALLERS  │ CURRENT │ CALLEES",
            "──────────┼─────────┼───────────",
            " [f] main │ read    │ [d] log",
            "          │         │ [s] write",
        ]
    );
}

#[test]
fn labels_agree_where_callers_are_known() {
    let ui = ui();
    let callers = sites(&[("main", 0), ("write", 2)]);
    let callees = sites(&[("gone", 98), ("log", 3)]);
    let entries = ui.choices(&callers, &callees, &chords(4));
    let text = ui.overview(FunctionId(1), &callers, &callees, &chords(4));
    for i in 0..3 {
        assert!(text.contains(&format!("[{}] {}", entries[i].chord, entries[i].label)));
    }
}

#[test]
fn labels_of_callees_count_unknown_callers() {
    let ui = ui();
    let callers = sites(&[("gone", 99)]);
    let callees = sites(&[("log", 3)]);
    assert_eq!(ui.choices(&callers, &callees, &chords(2))[0].chord.as_str(), "f");
    let text = ui.overview(FunctionId(1), &callers, &callees, &chords(2));
    assert!(text.contains("[d] log"));
}

#[test]
fn explorations_ask_for_what_is_unknown() {
    let mut ui = ui();
    let mut e = ui.explore(FunctionId(0));
    let mut asked = Vec::new();
    let mut steps = 0;
    loop {
        match ui.advance(&mut e) {
            Explored::Done => break,
            Explored::Advanced => steps += 1,
            Explored::Fetch(f_id, asked_for) => {
                asked.push(asked_for.name.clone());
                let outgoing = match f_id.0 {
                    0 => Some(vec![item("read", 1), item("gone", 98)]),
                    1 => Some(vec![item("log", 3)]),
                    _ => None,
                };
                let _ = ui.indexer.record(f_id, &None, &outgoing, true);
            }
        }
    }
    assert_eq!(asked, ["main", "read", "log"]);
    assert_eq!(steps, 4);
    assert!(e.graph.is_finite());
    assert_eq!(
        e.graph.print(&ui.indexer.functions),
        "FORWARD\nmain - 0\n    read - 1\n        log - 3\n\n\nBACKWARD\nmain - 0\n"
    );
}

#[test]
fn explorations_run_as_far_as_calls_are_known() {
    let mut ui = ui();
    let mut e = ui.explore(FunctionId(1));
    let calls = |f: FunctionId| match f.0 {
        1 => (Some(vec![item("main", 0)]), Some(vec![item("log", 3), item("write", 2)])),
        2 => (Some(vec![item("read", 1)]), Some(vec![item("log", 3)])),
        _ => (None, None),
    };
    let mut asked = Vec::new();
    while let Some((f_id, asked_for)) = ui.rec_context(&mut e) {
        assert_eq!(asked_for.name, ui.indexer.functions[f_id.0].0.name);
        asked.push(f_id.0);
        let (incoming, outgoing) = calls(f_id);
        let _ = ui.indexer.record(f_id, &incoming, &outgoing, true);
    }
    assert_eq!(asked, [1, 2, 3, 0]);
    assert_eq!(e.next(), None);
    assert_eq!(
        e.graph.print(&ui.indexer.functions),
        "FORWARD\nread - 1\n    write - 2\n        log - 3\n    log - 3\n\n\n\
         BACKWARD\nread - 1\n    main - 0\n"
    );
    // Now that all calls are known, nothing is asked for.
    let mut again = ui.explore(FunctionId(1));
    assert!(ui.rec_context(&mut again).is_none());
    assert_eq!(
        again.graph.print(&ui.indexer.functions),
        e.graph.print(&ui.indexer.functions)
    );
}

#[test]
fn choices_are_followed() {
    let mut stack = NavigationStack::default();
    assert_eq!(act(&mut stack, FnAction::Back), Next::Leave);
    assert_eq!(act(&mut stack, FnAction::GoTo(FunctionId(4))), Next::Browse);
    assert_eq!(act(&mut stack, FnAction::GoTo(FunctionId(4))), Next::Browse);
    assert_eq!(stack.0, [FunctionId(4)]);
    assert_eq!(act(&mut stack, FnAction::Jump), Next::Select);
    assert_eq!(act(&mut stack, FnAction::OpenIn), Next::Open);
    assert_eq!(act(&mut stack, FnAction::Quit), Next::Leave);
    assert_eq!(stack.0, [FunctionId(4)]);
    assert_eq!(act(&mut stack, FnAction::Back), Next::Browse);
    assert!(stack.is_empty());
}

#[test]
fn selections_are_followed() {
    let mut stack = NavigationStack::default();
    assert_eq!(select(&mut stack, None), Next::Leave);
    assert!(stack.is_empty());
    assert_eq!(select(&mut stack, Some(FunctionId(2))), Next::Browse);
    assert_eq!(select(&mut stack, Some(FunctionId(2))), Next::Browse);
    assert_eq!(stack.0, [FunctionId(2)]);
    assert_eq!(select(&mut stack, None), Next::Leave);
    assert_eq!(stack.0, [FunctionId(2)]);
}

#[test]
fn names_with_other_sequences_are_not_shown() {
    let odd = "\u{1b}[!!pああ\u{1b}[0m";
    let ui = ui();
    assert!(ui.can_show(FunctionId(1), &sites(&[("main", 0)]), &sites(&[]), &chords(1)));
    assert!(!ui.can_show(FunctionId(1), &sites(&[(odd, 0)]), &sites(&[]), &chords(1)));
    assert!(!ui.can_show(FunctionId(1), &sites(&[]), &sites(&[(odd, 0)]), &chords(1)));
    // A call site that shows no function is not shown itself.
    assert!(ui.can_show(FunctionId(1), &sites(&[(odd, 99)]), &sites(&[]), &chords(1)));
    assert!(!ui.can_show(FunctionId(4), &sites(&[]), &sites(&[]), &chords(0)));
    let chord = vec![CompactString::from(odd)];
    assert!(!ui.can_show(FunctionId(1), &sites(&[("main", 0)]), &sites(&[]), &chord));
}

#[test]
fn painted_names_are_measured_without_their_styles() {
    let ui = ui();
    let callers = sites(&[("\u{1b}[4;31mああ\u{1b}[0m", 0)]);
    assert!(ui.can_show(FunctionId(1), &callers, &sites(&[]), &chords(1)));
    let text = ui.overview(FunctionId(1), &callers, &sites(&[]), &chords(1));
    let lines: Vec<&str> = text.lines().map(|l| l.trim_end()).collect();
    assert_eq!(
        lines,
        [
            " CALLERS  │ CURRENT │ CALLEES",
            "──────────┼─────────┼─────────",
            " [f] \u{1b}[4;31mああ\u{1b}[0m │ read    │",
        ]
    );
}

#[test]
fn names_of_two_lines_are_shown_on_two() {
    let ui = ui();
    let callers = sites(&[("a\u{1b}[31mb\nあ\u{1b}[0mc", 0)]);
    assert!(ui.can_show(FunctionId(1), &callers, &sites(&[]), &chords(1)));
    let text = ui.overview(FunctionId(1), &callers, &sites(&[]), &chords(1));
    assert_eq!(text.lines().count(), 4);
}

#[test]
fn editors_count_lines_from_one() {
    let (line, file) = editor_arguments(&Function(symbol("log", 41)));
    assert_eq!(line, "+42");
    assert_eq!(file, "/p/src/a.rs");
}

#[test]
fn notices_follow_long_waits() {
    let f = Function(symbol("log", 3));
    assert_eq!(ready_notice(10, &f), None);
    assert_eq!(ready_notice(11, &f).unwrap(), "log has been successfully tracked");
}

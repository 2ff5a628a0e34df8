use terrier::indexing::index::{Context, FunctionId, Index};
use terrier::indexing::json::{JsonToken, NEGATIVE_ZERO};
use terrier::indexing::symbols::{
    CallHierarchyItem, CallSite, Function, Position, Range, SymbolInformation, FUNCTION_KIND,
};
use terrier::indexing::uri::Uri;

fn uri(text: &str) -> Uri {
    Uri::parse(text).unwrap()
}

fn range(line: u32) -> Range {
    Range { start: Position { line, character: 3 }, end: Position { line: line + 1, character: 0 } }
}

fn symbol(name: &str, file: &str, line: u32) -> SymbolInformation {
    SymbolInformation {
        name: name.to_string(),
        kind: FUNCTION_KIND,
        tags: Some(vec![1]),
        deprecated: None,
        uri: uri(file),
        range: range(line),
        container_name: None,
    }
}

fn item(name: &str, file: &str, line: u32) -> CallHierarchyItem {
    CallHierarchyItem {
        name: name.to_string(),
        kind: FUNCTION_KIND,
        tags: None,
        detail: None,
        uri: uri(file),
        range: range(line),
        selection_range: range(line),
        data: None,
    }
}

fn names(functions: &[Function]) -> Vec<&str> {
    functions.iter().map(|f| f.0.name.as_str()).collect()
}

fn site_names(sites: &[CallSite]) -> Vec<&str> {
    sites.iter().map(|s| s.0.name.as_str()).collect()
}

fn index() -> Index {
    let symbols = vec![
        symbol("late", "file:///p/src/b.rs", 7),
        symbol("clone", "file:///p/src/a.rs", 1),
        symbol("ten", "file:///p/src/a.rs", 10),
        symbol("two", "file:///p/src/a.rs", 2),
        symbol("two", "file:///p/src/a.rs", 2),
    ];
    Index::new("/p/".to_string(), vec!["clone".to_string()], &symbols)
}

#[test]
fn identifiers_are_normalized() {
    let u = uri("FILE:///p/./src/../lib.rs");
    assert_eq!(u.as_str(), "file:///p/lib.rs");
    assert_eq!(u.path(), "/p/lib.rs");
    assert!(Uri::parse("no identifier").is_none());
    assert_eq!(u.clone().as_str(), u.as_str());
}

#[test]
fn functions_are_sorted_and_taken_once() {
    let index = index();
    assert_eq!(names(&index.functions), ["two", "ten", "late"]);
    assert_eq!(index.root, "/p/");
}

#[test]
fn only_functions_are_indexed() {
    let mut other = symbol("S", "file:///p/src/a.rs", 1);
    other.kind = 23;
    let mut alike = symbol("two", "file:///p/src/a.rs", 2);
    alike.deprecated = Some(true);
    let symbols = vec![other, symbol("two", "file:///p/src/a.rs", 2), alike];
    let index = Index::new("/p/".to_string(), Vec::new(), &symbols);
    // Symbols that differ in anything are different functions.
    assert_eq!(names(&index.functions), ["two", "two"]);
    assert!(index.functions[0] != index.functions[1]);
}

#[test]
fn unknown_calls_are_fetched() {
    let index = index();
    match index.context(FunctionId(1), true) {
        Context::Fetch(item) => {
            assert_eq!(item.name, "ten");
            assert_eq!(item.kind, FUNCTION_KIND);
            assert_eq!(item.tags, Some(vec![1]));
            assert!(item.detail.is_none());
            assert!(item.data.is_none());
            assert_eq!(item.uri.as_str(), "file:///p/src/a.rs");
            assert_eq!(item.range, range(10));
            assert_eq!(item.selection_range, range(10));
        }
        Context::Known(..) => panic!("nothing was recorded"),
    }
}

#[test]
fn recorded_calls_are_known() {
    let mut index = index();
    let incoming = Some(vec![
        item("late", "file:///p/src/b.rs", 7),
        item("clone", "file:///p/src/b.rs", 9),
        item("outside", "file:///lib/x.rs", 5),
        item("two", "file:///p/src/a.rs", 2),
        item("two", "file:///p/src/a.rs", 2),
    ]);
    let (incomings, outgoings) = index.record(FunctionId(1), &incoming, &None, false);
    assert_eq!(site_names(&incomings), ["outside", "two", "late"]);
    assert!(outgoings.is_empty());
    match index.context(FunctionId(1), true) {
        Context::Known(incomings, outgoings) => {
            assert_eq!(site_names(&incomings), ["two", "late"]);
            assert!(outgoings.is_empty());
        }
        Context::Fetch(_) => panic!("the calls were recorded"),
    }
    match index.context(FunctionId(1), false) {
        Context::Known(incomings, _) => {
            assert_eq!(site_names(&incomings), ["outside", "two", "late"]);
        }
        Context::Fetch(_) => panic!("the calls were recorded"),
    }
    assert!(matches!(index.context(FunctionId(0), true), Context::Fetch(_)));
    assert!(matches!(index.context(FunctionId(2), true), Context::Fetch(_)));
}

#[test]
fn call_sites_show_functions() {
    let index = index();
    let site = CallSite(item("any name", "file:///p/src/a.rs", 10));
    assert_eq!(index.fn_id_from_callsite(&site), Some(FunctionId(1)));
    let elsewhere = CallSite(item("ten", "file:///p/src/a.rs", 11));
    assert_eq!(index.fn_id_from_callsite(&elsewhere), None);
    let sites = vec![
        CallSite(item("x", "file:///p/src/b.rs", 7)),
        elsewhere,
        CallSite(item("y", "file:///p/src/a.rs", 2)),
    ];
    assert_eq!(index.resolve(&sites), [FunctionId(2), FunctionId(0)]);
}

#[test]
fn functions_show_themselves() {
    let index = index();
    for (i, f) in index.functions.iter().enumerate() {
        let site = CallSite(CallHierarchyItem::from(f));
        assert_eq!(index.fn_id_from_callsite(&site), Some(FunctionId::from(i)));
    }
}

#[test]
fn the_project_keeps_its_functions() {
    let mut index = index();
    let outgoing = Some(vec![
        item("late", "file:///p/src/b.rs", 7),
        item("outside", "file:///lib/x.rs", 5),
        item("two", "file:///p/src/a.rs", 2),
    ]);
    let (_, all) = index.record(FunctionId(1), &None, &outgoing, false);
    let (_, ours) = index.record(FunctionId(1), &None, &outgoing, true);
    assert_eq!(all.len(), 3);
    assert_eq!(ours.len(), 2);
    assert_eq!(index.resolve(&all), index.resolve(&ours));
}

fn with_data(tokens: Vec<JsonToken>) -> CallHierarchyItem {
    let mut item = item("late", "file:///p/src/b.rs", 7);
    item.data = Some(tokens);
    item
}

#[test]
fn data_is_compared_as_values() {
    let one = |token: JsonToken| CallSite(with_data(vec![token]));
    let zero = one(JsonToken::Float(0.0f64.to_bits()));
    let minus = one(JsonToken::Float((-0.0f64).to_bits()));
    assert!(zero == minus);
    assert!(zero == zero.clone());
    // A copy keeps the sign all the same.
    match &minus.clone().0.data.unwrap()[0] {
        JsonToken::Float(bits) => assert_eq!(*bits, NEGATIVE_ZERO),
        _ => panic!("the data is a number"),
    }
    assert!(zero != one(JsonToken::Natural(0)));
    assert!(zero != one(JsonToken::Float(1.0f64.to_bits())));
    assert!(one(JsonToken::Float(1.0f64.to_bits())) != one(JsonToken::Float((-1.0f64).to_bits())));
    assert!(one(JsonToken::Natural(1)) != one(JsonToken::Negative(-1)));
    assert!(one(JsonToken::Negative(-1)) == one(JsonToken::Negative(-1)));
    assert!(one(JsonToken::Null) != one(JsonToken::Bool(false)));
    assert!(one(JsonToken::Bool(true)) == one(JsonToken::Bool(true)));
    let list = |text: &str| {
        CallSite(with_data(vec![JsonToken::List(1), JsonToken::Text(text.to_string())]))
    };
    assert!(list("a") == list("a"));
    assert!(list("a") != list("b"));
    assert!(list("a") != one(JsonToken::List(1)));
    assert!(one(JsonToken::List(0)) != one(JsonToken::Object(0)));
}

#[test]
fn zero_is_one_call_site_whatever_its_sign() {
    let mut index = index();
    let incoming = Some(vec![
        with_data(vec![JsonToken::Float(0.0f64.to_bits())]),
        with_data(vec![JsonToken::Float((-0.0f64).to_bits())]),
        with_data(vec![JsonToken::Natural(0)]),
    ]);
    let (incomings, _) = index.record(FunctionId(1), &incoming, &None, true);
    assert_eq!(incomings.len(), 2);
}

#[test]
fn call_sites_differ_in_any_field() {
    let a = CallSite(item("f", "file:///p/src/a.rs", 2));
    assert!(a == a.clone());
    let mut b = a.clone();
    b.0.detail = Some("fn f()".to_string());
    assert!(a != b);
    let mut c = a.clone();
    c.0.tags = Some(vec![1]);
    assert!(a != c);
    let mut d = a.clone();
    d.0.data = Some(vec![JsonToken::Object(0)]);
    assert!(a != d);
    let mut e = a.clone();
    e.0.selection_range = range(9);
    assert!(a != e);
}

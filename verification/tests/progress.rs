use terrier::indexing::progress::{progress_line, ClientState, Progress, ProgressToken};

fn token(text: &str) -> ProgressToken {
    ProgressToken::Text(text.to_string())
}

fn end() -> Progress {
    Progress::End { message: None }
}

fn report() -> Progress {
    Progress::Report { message: Some("3/7".to_string()), percentage: Some(42) }
}

#[test]
fn indexing_ends_once() {
    let mut state = ClientState { indexed: false };
    assert!(!state.notice(&token("rustAnalyzer/Fetching"), &end()));
    assert!(!state.notice(&token("rustAnalyzer/Indexing"), &report()));
    assert!(!state.indexed);
    assert!(state.notice(&token("rustAnalyzer/Indexing"), &end()));
    assert!(state.indexed);
    assert!(!state.notice(&token("rustAnalyzer/Indexing"), &end()));
    assert!(!state.notice(&token("rustAnalyzer/cachePriming"), &end()));
    assert!(state.indexed);
}

#[test]
fn cache_priming_counts_as_indexing() {
    let mut state = ClientState { indexed: false };
    assert!(!state.notice(&ProgressToken::Number(1), &end()));
    assert!(!state.notice(&token("rustAnalyzer/cachePriming "), &end()));
    assert!(state.notice(&token("rustAnalyzer/cachePriming"), &end()));
}

#[test]
fn lines_of_a_beginning() {
    let begin = Progress::Begin {
        title: "Indexing".to_string(),
        message: Some("core".to_string()),
        percentage: Some(0),
    };
    let indexing = token("rustAnalyzer/Indexing");
    assert_eq!(progress_line(&indexing, &begin), "[IndexingIndexing]  0% core");
    let bare = Progress::Begin { title: "Roots".to_string(), message: None, percentage: None };
    assert_eq!(progress_line(&ProgressToken::Number(-17), &bare), "[-17Roots]  ");
}

#[test]
fn lines_of_a_report() {
    assert_eq!(progress_line(&token("rustAnalyzer/Indexing"), &report()), "[Indexing 42%] 3/7");
    let bare = Progress::Report { message: None, percentage: None };
    assert_eq!(progress_line(&ProgressToken::Number(2147483647), &bare), "[2147483647] ");
    assert_eq!(progress_line(&ProgressToken::Number(-2147483648), &bare), "[-2147483648] ");
}

#[test]
fn lines_of_an_end() {
    assert_eq!(progress_line(&token("rustAnalyzer/Indexing"), &end()), "Indexing done");
    assert_eq!(progress_line(&token("other"), &end()), " done");
    let told = Progress::End { message: Some("gave up".to_string()) };
    assert_eq!(progress_line(&ProgressToken::Number(0), &told), "0 gave up");
}

//! The progress that the language server reports.

use vstd::prelude::*;
use vstd::string::StringExecFns;
use crate::indexing::symbols::same_str;
use crate::text::{decimal, push_decimal, strip_prefix};

verus! {

/// Ends the conversation with the language server.
pub struct Stop;

/// What a report belongs to.
pub enum ProgressToken {
    Number(i32),
    Text(String),
}

/// A report of progress.
pub enum Progress {
    Begin { title: String, message: Option<String>, percentage: Option<u32> },
    Report { message: Option<String>, percentage: Option<u32> },
    End { message: Option<String> },
}

/// Whether the project has been indexed.
pub struct ClientState {
    pub indexed: bool,
}

/// The report belongs to the indexing of the project.
pub open spec fn is_indexing_token(token: ProgressToken) -> bool {
    match token {
        ProgressToken::Text(s) => s@ == "rustAnalyzer/Indexing"@ || s@
            == "rustAnalyzer/cachePriming"@,
        ProgressToken::Number(_) => false,
    }
}

/// The report says that the indexing of the project has ended.
pub open spec fn ends_indexing(token: ProgressToken, progress: Progress) -> bool {
    is_indexing_token(token) && progress is End
}

/// A number with its sign.
pub open spec fn signed_decimal(n: i32) -> Seq<char> {
    if n < 0 {
        seq!['-'] + decimal((-n) as nat)
    } else {
        decimal(n as nat)
    }
}

/// What a report belongs to, as it is logged.
pub open spec fn token_text(token: ProgressToken) -> Seq<char> {
    match token {
        ProgressToken::Number(n) => signed_decimal(n),
        ProgressToken::Text(s) => if "rustAnalyzer/"@.is_prefix_of(s@) {
            s@.skip("rustAnalyzer/"@.len() as int)
        } else {
            Seq::empty()
        },
    }
}

/// A percentage, if there is one.
pub open spec fn percentage_text(percentage: Option<u32>) -> Seq<char> {
    match percentage {
        Some(p) => seq![' '] + decimal(p as nat) + seq!['%'],
        None => Seq::empty(),
    }
}

/// The message, or the text that stands for a missing one.
pub open spec fn message_text(message: Option<String>, missing: Seq<char>) -> Seq<char> {
    match message {
        Some(m) => m@,
        None => missing,
    }
}

/// The line that is logged for a report.
pub open spec fn progress_text(token: ProgressToken, progress: Progress) -> Seq<char> {
    match progress {
        Progress::Begin { title, message, percentage } => seq!['['] + token_text(token) + title@
            + seq![']', ' '] + percentage_text(percentage) + seq![' '] + message_text(
            message,
            Seq::empty(),
        ),
        Progress::Report { message, percentage } => seq!['['] + token_text(token)
            + percentage_text(percentage) + seq![']', ' '] + message_text(message, Seq::empty()),
        Progress::End { message } => token_text(token) + seq![' '] + message_text(
            message,
            "done"@,
        ),
    }
}

impl ClientState {
    /// A report is in. Whether the indexing of the project has ended with it, for
    /// the first time.
    pub fn notice(&mut self, token: &ProgressToken, progress: &Progress) -> (r: bool)
        ensures
            r == (!old(self).indexed && ends_indexing(*token, *progress)),
            final(self).indexed == (old(self).indexed || r),
    {
        let ended: bool = match progress {
            Progress::End { .. } => true,
            _ => false,
        };
        let ours: bool = match token {
            ProgressToken::Text(s) => same_str(s.as_str(), "rustAnalyzer/Indexing") || same_str(
                s.as_str(),
                "rustAnalyzer/cachePriming",
            ),
            ProgressToken::Number(_) => false,
        };
        if ended && ours && !self.indexed {
            self.indexed = true;
            true
        } else {
            false
        }
    }
}

fn token_label(token: &ProgressToken) -> (r: String)
    ensures
        r@ == token_text(*token),
{
    match token {
        ProgressToken::Number(n) => {
            let n: i32 = *n;
            let mut r: String = String::new();
            if n < 0 {
                proof {
                    reveal_strlit("-");
                }
                r.append("-");
                push_decimal(&mut r, (-(n as i64)) as u64);
            } else {
                push_decimal(&mut r, n as u64);
            }
            assert(r@ =~= token_text(*token));
            r
        },
        ProgressToken::Text(s) => match strip_prefix(s.as_str(), "rustAnalyzer/") {
            Some(rest) => rest,
            None => String::new(),
        },
    }
}

fn percentage_label(percentage: &Option<u32>) -> (r: String)
    ensures
        r@ == percentage_text(*percentage),
{
    let mut r: String = String::new();
    match percentage {
        Some(p) => {
            proof {
                reveal_strlit(" ");
                reveal_strlit("%");
            }
            r.append(" ");
            push_decimal(&mut r, *p as u64);
            r.append("%");
        },
        None => {},
    }
    assert(r@ =~= percentage_text(*percentage));
    r
}

fn message_or(message: &Option<String>, missing: &str) -> (r: String)
    ensures
        r@ == message_text(*message, missing@),
{
    match message {
        Some(m) => m.clone(),
        None => missing.to_owned(),
    }
}

/// The line to log for a report.
pub fn progress_line(token: &ProgressToken, progress: &Progress) -> (r: String)
    ensures
        r@ == progress_text(*token, *progress),
{
    proof {
        reveal_strlit("");
        reveal_strlit("[");
        reveal_strlit("] ");
        reveal_strlit(" ");
        assert(""@ =~= Seq::<char>::empty());
    }
    let label: String = token_label(token);
    let mut r: String = String::new();
    match progress {
        Progress::Begin { title, message, percentage } => {
            r.append("[");
            r.append(label.as_str());
            r.append(title.as_str());
            r.append("] ");
            r.append(percentage_label(percentage).as_str());
            r.append(" ");
            r.append(message_or(message, "").as_str());
        },
        Progress::Report { message, percentage } => {
            r.append("[");
            r.append(label.as_str());
            r.append(percentage_label(percentage).as_str());
            r.append("] ");
            r.append(message_or(message, "").as_str());
        },
        Progress::End { message } => {
            r.append(label.as_str());
            r.append(" ");
            r.append(message_or(message, "done").as_str());
        },
    }
    assert(r@ =~= progress_text(*token, *progress));
    r
}

/// How many of the reports are taken for the end of the indexing, from a client
/// that knows whether the project has been indexed.
pub open spec fn endings(indexed: bool, reports: Seq<(ProgressToken, Progress)>) -> nat
    decreases reports.len(),
{
    if reports.len() == 0 {
        0
    } else {
        let r = !indexed && ends_indexing(reports[0].0, reports[0].1);
        (if r {
            1nat
        } else {
            0
        }) + endings(indexed || r, reports.skip(1))
    }
}

/// Some report says that the indexing has ended.
pub open spec fn has_ending(reports: Seq<(ProgressToken, Progress)>) -> bool {
    exists|i: int|
        0 <= i < reports.len() && ends_indexing((#[trigger] reports[i]).0, reports[i].1)
}

/// However often the server says that the indexing has ended, the client takes
/// note once, and it does take note.
pub proof fn indexing_ends_once(reports: Seq<(ProgressToken, Progress)>)
    ensures
        endings(true, reports) == 0,
        endings(false, reports) == (if has_ending(reports) {
            1nat
        } else {
            0
        }),
    decreases reports.len(),
{
    if reports.len() > 0 {
        let rest = reports.skip(1);
        indexing_ends_once(rest);
        if has_ending(reports) {
            let i = choose|i: int|
                0 <= i < reports.len() && ends_indexing((#[trigger] reports[i]).0, reports[i].1);
            if i > 0 {
                assert(rest[i - 1] == reports[i]);
            }
        }
        if has_ending(rest) {
            let i = choose|i: int|
                0 <= i < rest.len() && ends_indexing((#[trigger] rest[i]).0, rest[i].1);
            assert(reports[i + 1] == rest[i]);
        }
    }
}

} // verus!

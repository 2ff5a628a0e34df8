//! The progress of the language server.

use vstd::prelude::*;
use crate::indexing::progress::{
    ends_indexing, message_text, percentage_text, progress_text, token_text, Progress,
    ProgressToken,
};
use crate::text::decimal;

verus! {

/// The indexing has ended where one of two tokens comes with an end, and nowhere
/// else.
pub proof fn only_two_tokens_end_the_indexing(token: ProgressToken, progress: Progress)
    ensures
        ends_indexing(token, progress) <==> {
            &&& progress is End
            &&& token matches ProgressToken::Text(s)
            &&& s@ == "rustAnalyzer/Indexing"@ || s@ == "rustAnalyzer/cachePriming"@
        },
{
}

/// A token is logged as its number, or as what stands behind the server's name. One
/// without that name is not logged.
pub proof fn tokens_lose_the_name_of_the_server(n: i32, s: String, rest: Seq<char>)
    ensures
        n >= 0 ==> token_text(ProgressToken::Number(n)) == decimal(n as nat),
        n < 0 ==> token_text(ProgressToken::Number(n)) == seq!['-'] + decimal((-n) as nat),
        s@ == "rustAnalyzer/"@ + rest ==> token_text(ProgressToken::Text(s)) == rest,
        !"rustAnalyzer/"@.is_prefix_of(s@) ==> token_text(ProgressToken::Text(s)) == Seq::<
            char,
        >::empty(),
{
    let head = "rustAnalyzer/"@;
    if s@ == head + rest {
        assert(head =~= s@.take(head.len() as int));
        assert(s@.skip(head.len() as int) =~= rest);
    }
}

/// The parts of a report follow each other in its line: the token, the title of a
/// beginning, the percentage, the message. What is missing leaves nothing, but for
/// the message of an end.
pub proof fn lines_hold_the_parts_of_a_report(
    token: ProgressToken,
    title: String,
    message: String,
    p: u32,
)
    ensures
        ({
            let t = token_text(token);
            let percentage = seq![' '] + decimal(p as nat) + seq!['%'];
            let none: Option<String> = None;
            &&& progress_text(
                token,
                Progress::Begin { title, message: Some(message), percentage: Some(p) },
            ) == "["@ + t + title@ + "] "@ + percentage + " "@ + message@
            &&& progress_text(token, Progress::Begin { title, message: none, percentage: None })
                == "["@ + t + title@ + "]  "@
            &&& progress_text(
                token,
                Progress::Begin { title, message: Some(message), percentage: None },
            ) == "["@ + t + title@ + "]  "@ + message@
            &&& progress_text(
                token,
                Progress::Begin { title, message: none, percentage: Some(p) },
            ) == "["@ + t + title@ + "] "@ + percentage + " "@
            &&& progress_text(
                token,
                Progress::Report { message: Some(message), percentage: Some(p) },
            ) == "["@ + t + percentage + "] "@ + message@
            &&& progress_text(token, Progress::Report { message: none, percentage: Some(p) })
                == "["@ + t + percentage + "] "@
            &&& progress_text(
                token,
                Progress::Report { message: Some(message), percentage: None },
            ) == "["@ + t + "] "@ + message@
            &&& progress_text(token, Progress::Report { message: none, percentage: None }) == "["@
                + t + "] "@
            &&& progress_text(token, Progress::End { message: Some(message) }) == t + " "@
                + message@
            &&& progress_text(token, Progress::End { message: none }) == t + " done"@
        }),
{
    reveal_strlit("[");
    reveal_strlit("] ");
    reveal_strlit("]  ");
    reveal_strlit(" ");
    reveal_strlit(" done");
    reveal_strlit("done");
    let t = token_text(token);
    let percentage = seq![' '] + decimal(p as nat) + seq!['%'];
    let none: Option<String> = None;
    assert(percentage_text(Some(p)) =~= percentage);
    assert(percentage_text(None) =~= Seq::empty());
    assert(message_text(Some(message), Seq::empty()) == message@);
    assert(progress_text(
        token,
        Progress::Begin { title, message: Some(message), percentage: Some(p) },
    ) =~= "["@ + t + title@ + "] "@ + percentage + " "@ + message@);
    assert(progress_text(token, Progress::Begin { title, message: none, percentage: None })
        =~= "["@ + t + title@ + "]  "@);
    assert(progress_text(
        token,
        Progress::Begin { title, message: Some(message), percentage: None },
    ) =~= "["@ + t + title@ + "]  "@ + message@);
    assert(progress_text(token, Progress::Begin { title, message: none, percentage: Some(p) })
        =~= "["@ + t + title@ + "] "@ + percentage + " "@);
    assert(progress_text(
        token,
        Progress::Report { message: Some(message), percentage: Some(p) },
    ) =~= "["@ + t + percentage + "] "@ + message@);
    assert(progress_text(token, Progress::Report { message: none, percentage: Some(p) }) =~= "["@
        + t + percentage + "] "@);
    assert(progress_text(token, Progress::Report { message: Some(message), percentage: None })
        =~= "["@ + t + "] "@ + message@);
    assert(progress_text(token, Progress::Report { message: none, percentage: None }) =~= "["@ + t
        + "] "@);
    assert(progress_text(token, Progress::End { message: Some(message) }) =~= t + " "@
        + message@);
    assert(progress_text(token, Progress::End { message: none }) =~= t + " done"@);
}

} // verus!

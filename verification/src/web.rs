//! What the web front answers: the replies to the answers of commands, the
//! credential checks, and the keywords asked for over the live channel.

use vstd::prelude::*;
use vstd::string::StringExecFns;
use crate::command::{CommandResult, CommandResultView};
use crate::keywords::{sorted_keywords, terms_to_keywords, Keywords};

verus! {

/// An HTTP reply.
#[derive(Debug)]
pub enum Reply {
    /// `302 Found`, sending the browser to the locator.
    Redirect(String),
    /// The search page under this title, with this status.
    Page { status: u16, title: String },
    /// A plain body with this status.
    Text { status: u16, body: String },
}

/// A reply seen as plain values.
pub enum ReplyView {
    Redirect(Seq<char>),
    Page { status: u16, title: Seq<char> },
    Text { status: u16, body: Seq<char> },
}

impl View for Reply {
    type V = ReplyView;

    open spec fn view(&self) -> ReplyView {
        match self {
            Reply::Redirect(l) => ReplyView::Redirect(l@),
            Reply::Page { status, title } => ReplyView::Page { status: *status, title: title@ },
            Reply::Text { status, body } => ReplyView::Text { status: *status, body: body@ },
        }
    }
}

/// The reply to the answer of a search or an update: the locator found or
/// stored, a "not found" page, a "but nothing happened" page, or an
/// "internal error" page.
pub open spec fn search_reply_of(result: CommandResultView) -> ReplyView {
    match result {
        CommandResultView::NavigateTo(l) => ReplyView::Redirect(l),
        CommandResultView::SearchFailed => ReplyView::Page { status: 404, title: "not found"@ },
        CommandResultView::NothingHappened => ReplyView::Page {
            status: 200,
            title: "but nothing happened"@,
        },
        _ => ReplyView::Page { status: 500, title: "internal error"@ },
    }
}

/// The status of a reply; `302` for a redirect.
pub open spec fn reply_status(r: ReplyView) -> u16 {
    match r {
        ReplyView::Redirect(_) => 302,
        ReplyView::Page { status, .. } => status,
        ReplyView::Text { status, .. } => status,
    }
}

/// The page for a title under a status.
pub open spec fn page(status: u16, title: Seq<char>) -> ReplyView {
    ReplyView::Page { status, title }
}

/// Whether an answer is one of those a search or an update expects.
pub open spec fn expected_answer(result: CommandResultView) -> bool {
    result is NavigateTo || result is SearchFailed || result is NothingHappened
}

/// What each answer of a search or an update is told: a redirect exactly
/// for a locator, to that locator; `404` "not found" exactly when the
/// search failed; `200` "but nothing happened" exactly when nothing was to
/// be done; and every other answer, a failed call among them, a `500`
/// "internal error" page.
pub proof fn lemma_search_replies(result: CommandResultView)
    ensures
        (search_reply_of(result) is Redirect) == (result is NavigateTo),
        result is NavigateTo ==> search_reply_of(result) == ReplyView::Redirect(result->NavigateTo_0),
        (reply_status(search_reply_of(result)) == 404) == (result is SearchFailed),
        result is SearchFailed ==> search_reply_of(result) == page(404, "not found"@),
        (reply_status(search_reply_of(result)) == 200) == (result is NothingHappened),
        result is NothingHappened ==> search_reply_of(result) == page(200, "but nothing happened"@),
        (reply_status(search_reply_of(result)) == 500) == !expected_answer(result),
        !expected_answer(result) ==> search_reply_of(result) == page(500, "internal error"@),
        result is InternalError ==> search_reply_of(result) == page(500, "internal error"@),
{
}

/// The reply to the answer of a search or an update.
pub fn search_reply(result: CommandResult) -> (reply: Reply)
    ensures
        reply@ == search_reply_of(result@),
{
    match result {
        CommandResult::NavigateTo(locator) => Reply::Redirect(locator),
        CommandResult::SearchFailed => Reply::Page {
            status: 404,
            title: String::from_str("not found"),
        },
        CommandResult::NothingHappened => Reply::Page {
            status: 200,
            title: String::from_str("but nothing happened"),
        },
        _ => Reply::Page { status: 500, title: String::from_str("internal error") },
    }
}

/// The reply to the answer of a deletion.
pub fn delete_reply(result: &CommandResult) -> (reply: Reply)
    ensures
        reply@ == (if result@ is Deleted {
            ReplyView::Text { status: 200, body: "deleted"@ }
        } else {
            ReplyView::Text { status: 500, body: "delete failed"@ }
        }),
{
    match result {
        CommandResult::Deleted => Reply::Text { status: 200, body: String::from_str("deleted") },
        _ => Reply::Text { status: 500, body: String::from_str("delete failed") },
    }
}

/// The reply to the answer of an increment.
pub fn increment_reply(result: &CommandResult) -> (reply: Reply)
    ensures
        reply@ == (if result@ is Incremented {
            ReplyView::Text { status: 200, body: "increment successful"@ }
        } else {
            ReplyView::Text { status: 500, body: "increment failed"@ }
        }),
{
    match result {
        CommandResult::Incremented => Reply::Text {
            status: 200,
            body: String::from_str("increment successful"),
        },
        _ => Reply::Text { status: 500, body: String::from_str("increment failed") },
    }
}

/// Whether a credential was given and equals the expected one.
pub fn credentials_match(given: &Option<String>, expected: &String) -> (ok: bool)
    ensures
        ok == (given matches Some(g) && g@ == expected@),
{
    match given {
        Some(g) => g.eq(expected),
        None => false,
    }
}

/// The reply to a login with the passphrase given (if any): where it equals
/// the expected one, `true` (set the session cookie) with "login
/// successful"; otherwise `false` with `401` and "invalid credentials".
pub fn login_reply(given: &Option<String>, openphrase: &String) -> (r: (bool, Reply))
    ensures
        r.0 == (given matches Some(g) && g@ == openphrase@),
        r.1@ == (if r.0 {
            ReplyView::Text { status: 200, body: "login successful"@ }
        } else {
            ReplyView::Text { status: 401, body: "invalid credentials"@ }
        }),
{
    if credentials_match(given, openphrase) {
        (true, Reply::Text { status: 200, body: String::from_str("login successful") })
    } else {
        (false, Reply::Text { status: 401, body: String::from_str("invalid credentials") })
    }
}

/// The keywords a message of the live channel asks the matches for: those
/// of its `terms` (none where it has no such text) when its `type` is
/// "terms"; nothing for any other message.
pub fn message_keywords(kind: Option<String>, terms: Option<String>) -> (k: Option<Keywords>)
    ensures
        k is Some <==> (kind matches Some(t) && t@ == "terms"@),
        k matches Some(kw) ==> kw@ == sorted_keywords(match terms {
            Some(t) => t@,
            None => Seq::<char>::empty(),
        }),
{
    let wanted = String::from_str("terms");
    let asks_terms = match &kind {
        Some(t) => t.eq(&wanted),
        None => false,
    };
    if !asks_terms {
        return None;
    }
    let text = match terms {
        Some(t) => t,
        None => String::new(),
    };
    Some(terms_to_keywords(text.as_str()))
}

#[verifier::external_type_specification]
#[verifier::external_body]
pub struct ExJsonError(serde_json::Error);

/// What `serde_json` makes of the member `key` of a JSON text: `None` where
/// the text is not JSON; otherwise the member's text where it is a JSON
/// string, and `Some(None)` where it is missing or of another kind, or where
/// the text is not an object.
pub uninterp spec fn json_string_member(text: Seq<char>, key: Seq<char>) -> Option<
    Option<Seq<char>>,
>;

/// Calls `serde_json::from_str` for a `serde_json::Value`, then reads the
/// member `key` of the value (indexing, which gives null for a missing
/// member or a value that is not an object) as a string
/// (`serde_json::Value::as_str`). Trusted: parsing fails exactly where
/// `json_string_member(text@, key@)` is `None`, and otherwise the member read
/// is the one that name gives.
#[verifier::external_body]
fn json_member_text(text: &str, key: &str) -> (res: Result<Option<String>, serde_json::Error>)
    ensures
        res is Err <==> json_string_member(text@, key@) is None,
        res matches Ok(m) ==> json_string_member(text@, key@) == Some(match m {
            Some(t) => Some(t@),
            None => None::<Seq<char>>,
        }),
{
    match serde_json::from_str::<serde_json::Value>(text) {
        Ok(value) => Ok(value[key].as_str().map(|t| t.to_owned())),
        Err(e) => Err(e),
    }
}

/// The `terms` text of a message, or the empty text where it has none.
pub open spec fn message_terms(text: Seq<char>) -> Seq<char> {
    match json_string_member(text, "terms"@) {
        Some(Some(t)) => t,
        _ => Seq::empty(),
    }
}

/// The keywords a text message of the live channel asks the matches for:
/// the message is a JSON object whose `type` is the string "terms"; its
/// `terms` string (or nothing) gives the keywords. Anything else, text that
/// is not JSON among it, asks for nothing.
pub fn live_message_keywords(text: &str) -> (k: Option<Keywords>)
    ensures
        k is Some <==> json_string_member(text@, "type"@) == Some(Some("terms"@)),
        k matches Some(kw) ==> kw@ == sorted_keywords(message_terms(text@)),
{
    let kind = match json_member_text(text, "type") {
        Ok(kind) => kind,
        Err(_) => {
            return None;
        },
    };
    let terms = match json_member_text(text, "terms") {
        Ok(terms) => terms,
        Err(_) => None,
    };
    message_keywords(kind, terms)
}

} // verus!

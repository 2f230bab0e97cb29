//! Commands: what a line of search terms asks for, and what carrying out a
//! command answers.

use vstd::prelude::*;
use vstd::string::StrSliceExecFns;
use crate::keywords::{keyword_set, sorted_keywords, terms_to_keywords, Keywords};
use crate::text::{is_white_space, is_whitespace};

verus! {

#[verifier::external_type_specification]
#[verifier::external_body]
pub struct ExUrlParseError(url::ParseError);

/// A request to the bookmark store.
#[derive(Debug)]
pub enum Command {
    /// Nothing to do.
    NoOp,
    /// Look up the best match for the keywords.
    Search(Keywords),
    /// Store a locator under exactly these keywords.
    Alter(String, Keywords),
    /// Forget a locator.
    Delete(String),
    /// Count one more visit of a locator.
    Increment(String),
}

/// A command seen as plain values.
pub enum CommandView {
    NoOp,
    Search(Seq<Seq<char>>),
    Alter(Seq<char>, Seq<Seq<char>>),
    Delete(Seq<char>),
    Increment(Seq<char>),
}

impl View for Command {
    type V = CommandView;

    open spec fn view(&self) -> CommandView {
        match self {
            Command::NoOp => CommandView::NoOp,
            Command::Search(k) => CommandView::Search(k@),
            Command::Alter(l, k) => CommandView::Alter(l@, k@),
            Command::Delete(l) => CommandView::Delete(l@),
            Command::Increment(l) => CommandView::Increment(l@),
        }
    }
}

/// The answer to a command.
#[derive(Debug)]
pub enum CommandResult {
    NavigateTo(String),
    SearchFailed,
    Deleted,
    InternalError,
    NothingHappened,
    Incremented,
}

/// An answer seen as plain values.
pub enum CommandResultView {
    NavigateTo(Seq<char>),
    SearchFailed,
    Deleted,
    InternalError,
    NothingHappened,
    Incremented,
}

impl View for CommandResult {
    type V = CommandResultView;

    open spec fn view(&self) -> CommandResultView {
        match self {
            CommandResult::NavigateTo(l) => CommandResultView::NavigateTo(l@),
            CommandResult::SearchFailed => CommandResultView::SearchFailed,
            CommandResult::Deleted => CommandResultView::Deleted,
            CommandResult::InternalError => CommandResultView::InternalError,
            CommandResult::NothingHappened => CommandResultView::NothingHappened,
            CommandResult::Incremented => CommandResultView::Incremented,
        }
    }
}

/// The serialization of the URL that `url::Url::parse` makes of `input`, or
/// `None` where it refuses the input.
pub uninterp spec fn url_parse(input: Seq<char>) -> Option<Seq<char>>;

/// Calls `url::Url::parse` and, on success, `Url::as_str`. Trusted: the
/// call succeeds exactly where `url_parse(input@)` is a serialization, and
/// then gives that serialization.
#[verifier::external_body]
fn parse_url(input: &str) -> (res: Result<String, url::ParseError>)
    ensures
        res is Ok <==> url_parse(input@) is Some,
        res matches Ok(u) ==> url_parse(input@) == Some(u@),
{
    match url::Url::parse(input) {
        Ok(url) => Ok(url.as_str().to_owned()),
        Err(e) => Err(e),
    }
}

/// The number of characters before the first white space.
pub open spec fn token_len(s: Seq<char>) -> nat
    decreases s.len(),
{
    if s.len() == 0 || is_white_space(s[0]) {
        0
    } else {
        1 + token_len(s.drop_first())
    }
}

/// The first word of a text, words being separated by white space; empty
/// when the text holds nothing but white space.
pub open spec fn first_token(s: Seq<char>) -> Seq<char>
    decreases s.len(),
{
    if s.len() == 0 {
        Seq::empty()
    } else if is_white_space(s[0]) {
        first_token(s.drop_first())
    } else {
        s.take(token_len(s) as int)
    }
}

proof fn lemma_token_len(s: Seq<char>)
    ensures
        token_len(s) <= s.len(),
        forall|i: int| 0 <= i < token_len(s) ==> !is_white_space(#[trigger] s[i]),
        token_len(s) == s.len() || is_white_space(s[token_len(s) as int]),
    decreases s.len(),
{
    if s.len() > 0 && !is_white_space(s[0]) {
        let t = s.drop_first();
        lemma_token_len(t);
        assert forall|i: int| 0 <= i < token_len(s) implies !is_white_space(#[trigger] s[i]) by {
            if i > 0 {
                assert(s[i] == t[i - 1]);
            }
        }
        if token_len(t) < t.len() {
            assert(s[token_len(s) as int] == t[token_len(t) as int]);
        }
    }
}

/// The first word of a text is its first maximal run of characters that
/// are not white space: empty when the text is all white space; otherwise
/// the run from the first character that is not white space up to the next
/// white space or the end, every character of it kept.
pub proof fn lemma_first_token_is_first_word(s: Seq<char>)
    ensures
        (forall|i: int| 0 <= i < s.len() ==> is_white_space(#[trigger] s[i])) ==> first_token(s)
            == Seq::<char>::empty(),
        (exists|i: int| 0 <= i < s.len() && !is_white_space(#[trigger] s[i])) ==> exists|a: int, b: int|
            {
                &&& 0 <= a < b <= s.len()
                &&& first_token(s) == #[trigger] s.subrange(a, b)
                &&& forall|i: int| 0 <= i < a ==> is_white_space(#[trigger] s[i])
                &&& forall|i: int| a <= i < b ==> !is_white_space(#[trigger] s[i])
                &&& b == s.len() || is_white_space(s[b])
            },
    decreases s.len(),
{
    if s.len() > 0 {
        let t = s.drop_first();
        if is_white_space(s[0]) {
            lemma_first_token_is_first_word(t);
            if forall|i: int| 0 <= i < s.len() ==> is_white_space(#[trigger] s[i]) {
                assert forall|i: int| 0 <= i < t.len() implies is_white_space(#[trigger] t[i]) by {
                    assert(t[i] == s[i + 1]);
                }
            }
            if exists|i: int| 0 <= i < s.len() && !is_white_space(#[trigger] s[i]) {
                let k = choose|i: int| 0 <= i < s.len() && !is_white_space(#[trigger] s[i]);
                assert(t[k - 1] == s[k]);
                let (a, b) = choose|a: int, b: int|
                    {
                        &&& 0 <= a < b <= t.len()
                        &&& first_token(t) == #[trigger] t.subrange(a, b)
                        &&& forall|i: int| 0 <= i < a ==> is_white_space(#[trigger] t[i])
                        &&& forall|i: int| a <= i < b ==> !is_white_space(#[trigger] t[i])
                        &&& b == t.len() || is_white_space(t[b])
                    };
                assert(t.subrange(a, b) =~= s.subrange(a + 1, b + 1));
                assert forall|i: int| 0 <= i < a + 1 implies is_white_space(#[trigger] s[i]) by {
                    if i > 0 {
                        assert(s[i] == t[i - 1]);
                    }
                }
                assert forall|i: int| a + 1 <= i < b + 1 implies !is_white_space(#[trigger] s[i]) by {
                    assert(s[i] == t[i - 1]);
                }
                if b < t.len() {
                    assert(s[b + 1] == t[b]);
                }
            }
        } else {
            lemma_token_len(s);
            let b = token_len(s) as int;
            assert(s.take(b) =~= s.subrange(0, b));
            if b == 0 {
                assert(false);
            }
        }
    }
}

/// The first word of `text`, as `split_whitespace().next()` gives it, or
/// the empty string.
pub fn first_word(text: &str) -> (w: &str)
    ensures
        w@ == first_token(text@),
{
    let n = text.unicode_len();
    let mut start: usize = 0;
    proof {
        assert(text@.skip(0) =~= text@);
    }
    while start < n && is_whitespace(text.get_char(start))
        invariant
            n == text@.len(),
            start <= n,
            first_token(text@) == first_token(text@.skip(start as int)),
        decreases n - start,
    {
        assert(text@.skip(start as int).drop_first() =~= text@.skip(start + 1));
        start = start + 1;
    }
    let mut end: usize = start;
    proof {
        assert(text@.skip(start as int).skip(0) =~= text@.skip(start as int));
    }
    while end < n && !is_whitespace(text.get_char(end))
        invariant
            n == text@.len(),
            start <= end <= n,
            token_len(text@.skip(start as int)) == (end - start) + token_len(text@.skip(end as int)),
        decreases n - end,
    {
        assert(text@.skip(end as int).drop_first() =~= text@.skip(end + 1));
        end = end + 1;
    }
    proof {
        let rest = text@.skip(start as int);
        if start < n {
            assert(rest[0] == text@[start as int]);
            assert(token_len(text@.skip(end as int)) == 0);
            assert(rest.take(token_len(rest) as int) =~= text@.subrange(start as int, end as int));
        } else {
            assert(text@.subrange(start as int, end as int) =~= Seq::<char>::empty());
        }
    }
    text.substring_char(start, end)
}

/// The command for a set of keywords and what the URL parser made of the
/// first word of the terms: nothing without keywords, an update of the
/// locator where the first word is a URL, a search otherwise.
pub fn command_from_parts(keywords: Keywords, parsed_url: Option<String>) -> (cmd: Command)
    ensures
        keywords@.len() == 0 ==> cmd@ == CommandView::NoOp,
        keywords@.len() > 0 ==> cmd@ == (match parsed_url {
            Some(u) => CommandView::Alter(u@, keywords@),
            None => CommandView::Search(keywords@),
        }),
{
    if keywords.len() == 0 {
        return Command::NoOp;
    }
    match parsed_url {
        Some(locator) => Command::Alter(locator, keywords),
        None => Command::Search(keywords),
    }
}

/// What a line of search terms asks for: nothing when it holds no keyword;
/// to store the locator under the keywords when its first word parses as a
/// URL; to search for the keywords otherwise.
pub fn terms_to_command(terms: &str) -> (cmd: Command)
    ensures
        keyword_set(terms@).is_empty() ==> cmd@ == CommandView::NoOp,
        !keyword_set(terms@).is_empty() ==> cmd@ == (match url_parse(first_token(terms@)) {
            Some(u) => CommandView::Alter(u, sorted_keywords(terms@)),
            None => CommandView::Search(sorted_keywords(terms@)),
        }),
{
    let keywords = terms_to_keywords(terms);
    proof {
        if keywords@.len() == 0 {
            assert(keywords@.to_set() =~= Set::<Seq<char>>::empty());
        } else {
            assert(keywords@.to_set().contains(keywords@[0]));
        }
    }
    if keywords.len() == 0 {
        return command_from_parts(keywords, None);
    }
    let first = first_word(terms);
    let parsed = match parse_url(first) {
        Ok(locator) => Some(locator),
        Err(_) => None,
    };
    command_from_parts(keywords, parsed)
}

} // verus!

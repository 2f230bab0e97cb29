use minx::keywords::Keywords;
use minx::matches::extra_keywords_of;
use minx::ranking::split_spaces;
use minx::{
    credentials_match, delete_reply, dispatch, increment_reply, make_matches, matches_query,
    message_keywords, rank_match, search_reply, sort_matches, Command, CommandResult,
    LocatorModel, MatchList, Outcome, QueryPiece, Rank, Reply, Request, Step,
};

fn keywords_of(list: &[&str]) -> Keywords {
    let mut k = Keywords::new();
    for w in list {
        k.insert(w.to_string());
    }
    k
}

fn model(id: i64, content: &str, visits: i64, keywords: &str) -> LocatorModel {
    LocatorModel {
        id,
        content: content.to_string(),
        visits,
        keywords: keywords.to_string(),
    }
}

fn perform(step: Step) -> (minx::Dispatcher, Request) {
    match step {
        Step::Perform(d, r) => (d, r),
        Step::Done(r) => panic!("finished early with {:?}", r),
    }
}

fn answer(step: Step) -> CommandResult {
    match step {
        Step::Done(r) => r,
        Step::Perform(_, r) => panic!("still asks for {:?}", r),
    }
}

#[test]
fn split_spaces_keeps_empty_pieces() {
    assert_eq!(split_spaces("a  b"), vec!["a", "", "b"]);
    assert_eq!(split_spaces(""), vec![""]);
    assert_eq!(split_spaces("x "), vec!["x", ""]);
}

#[test]
fn rank_counts_keywords_found_in_order() {
    let k = keywords_of(&["rust", "book"]);
    let r = rank_match(&k, &model(1, "u", 7, "book rust lang"));
    assert_eq!(r, Rank { neg_perfect: -2, relevance_group: -1, neg_visits: -7 });
}

#[test]
fn rank_search_stops_after_a_missing_keyword() {
    // "book" is found last, so the search for "rust" starts past the end.
    let k = keywords_of(&["rust", "book"]);
    let r = rank_match(&k, &model(1, "u", 3, "rust book"));
    assert_eq!(r, Rank { neg_perfect: -1, relevance_group: -1, neg_visits: -3 });
}

#[test]
fn rank_groups_leftover_keywords() {
    let k = keywords_of(&["a"]);
    let r = |kw: &str| rank_match(&k, &model(1, "u", 0, kw)).relevance_group;
    assert_eq!(r("a"), -1);
    assert_eq!(r("a x"), 0);
    assert_eq!(r("a x y"), 1);
    assert_eq!(r("a x y z"), 2);
    assert_eq!(r("a x y z w"), 2);
    assert_eq!(r("a x y z w v"), 3);
    assert_eq!(r("x y"), 0);
}

#[test]
fn sort_puts_best_first_and_is_stable() {
    let k = keywords_of(&["a", "b"]);
    let mut v = vec![
        model(1, "one", 5, "a"),
        model(2, "two", 1, "a b"),
        model(3, "three", 9, "a"),
        model(4, "four", 5, "a"),
        model(5, "five", 1, "a b"),
    ];
    sort_matches(&mut v, &k);
    let ids: Vec<i64> = v.iter().map(|m| m.id).collect();
    assert_eq!(ids, vec![2, 5, 3, 1, 4]);
}

#[test]
fn sort_of_nothing_is_nothing() {
    let k = keywords_of(&["a"]);
    let mut v: Vec<LocatorModel> = Vec::new();
    sort_matches(&mut v, &k);
    assert!(v.is_empty());
}

#[test]
fn match_query_binds_each_keyword_as_prefix() {
    assert!(matches_query(&Keywords::new()).is_none());
    let q = matches_query(&keywords_of(&["b", "a"])).unwrap();
    let binds: Vec<String> = q
        .iter()
        .filter_map(|p| match p {
            QueryPiece::Bind(b) => Some(b.clone()),
            _ => None,
        })
        .collect();
    assert_eq!(binds, vec!["a%", "b%"]);
    assert_eq!(q.len(), 7);
    assert!(matches!(&q[0], QueryPiece::Sql(s) if s.contains("with match as (")));
    assert!(matches!(&q[3], QueryPiece::Sql(s) if s == " intersect "));
    assert!(matches!(&q[6], QueryPiece::Sql(s) if s.contains("group by l.id")));
}

#[test]
fn dispatch_noop_answers_at_once() {
    assert!(matches!(answer(dispatch(Command::NoOp)), CommandResult::NothingHappened));
}

#[test]
fn dispatch_search_without_keywords_fails() {
    assert!(matches!(
        answer(dispatch(Command::Search(Keywords::new()))),
        CommandResult::SearchFailed
    ));
}

#[test]
fn dispatch_search_visits_best_match() {
    let (d, r) = perform(dispatch(Command::Search(keywords_of(&["rust"]))));
    assert!(matches!(r, Request::FindMatches(_)));
    let rows = vec![
        model(10, "https://a/", 50, "rust x y z w"),
        model(11, "https://b/", 1, "rust"),
    ];
    let (d, r) = perform(d.resume(Outcome::Rows(rows)));
    assert!(matches!(r, Request::CountVisit(11)));
    match answer(d.resume(Outcome::Done)) {
        CommandResult::NavigateTo(l) => assert_eq!(l, "https://b/"),
        other => panic!("unexpected {:?}", other),
    }
}

#[test]
fn dispatch_search_without_rows_fails() {
    let (d, _) = perform(dispatch(Command::Search(keywords_of(&["rust"]))));
    assert!(matches!(answer(d.resume(Outcome::Rows(vec![]))), CommandResult::SearchFailed));
}

#[test]
fn dispatch_alter_runs_the_whole_update() {
    let cmd = Command::Alter("https://x/".to_string(), keywords_of(&["b", "a"]));
    let (d, r) = perform(dispatch(cmd));
    assert!(matches!(r, Request::OpenTransaction));
    let (d, r) = perform(d.resume(Outcome::Done));
    assert!(matches!(r, Request::RemoveLocator(ref l) if l == "https://x/"));
    let (d, r) = perform(d.resume(Outcome::Done));
    assert!(matches!(r, Request::LocatorId(ref l) if l == "https://x/"));
    let (d, r) = perform(d.resume(Outcome::Id(7)));
    assert!(matches!(r, Request::KeywordId(ref k) if k == "a"));
    let (d, r) = perform(d.resume(Outcome::Id(100)));
    assert!(matches!(r, Request::Link(7, 100)));
    let (d, r) = perform(d.resume(Outcome::Done));
    assert!(matches!(r, Request::KeywordId(ref k) if k == "b"));
    let (d, r) = perform(d.resume(Outcome::Id(200)));
    assert!(matches!(r, Request::Link(7, 200)));
    let (d, r) = perform(d.resume(Outcome::Done));
    assert!(matches!(r, Request::CommitTransaction));
    let (d, r) = perform(d.resume(Outcome::Done));
    assert!(matches!(r, Request::CountVisit(7)));
    match answer(d.resume(Outcome::Done)) {
        CommandResult::NavigateTo(l) => assert_eq!(l, "https://x/"),
        other => panic!("unexpected {:?}", other),
    }
}

#[test]
fn dispatch_failure_is_internal_error() {
    let cmd = Command::Alter("https://x/".to_string(), keywords_of(&["a"]));
    let (d, _) = perform(dispatch(cmd));
    let (d, _) = perform(d.resume(Outcome::Done));
    assert!(matches!(answer(d.resume(Outcome::Failed)), CommandResult::InternalError));
    let (d, _) = perform(dispatch(Command::Increment("l".to_string())));
    assert!(matches!(answer(d.resume(Outcome::Failed)), CommandResult::InternalError));
}

#[test]
fn dispatch_unexpected_outcome_is_internal_error() {
    let (d, _) = perform(dispatch(Command::Delete("l".to_string())));
    assert!(matches!(answer(d.resume(Outcome::Id(3))), CommandResult::InternalError));
}

#[test]
fn dispatch_delete_removes_and_commits() {
    let (d, r) = perform(dispatch(Command::Delete("l".to_string())));
    assert!(matches!(r, Request::OpenTransaction));
    let (d, r) = perform(d.resume(Outcome::Done));
    assert!(matches!(r, Request::RemoveLocator(ref l) if l == "l"));
    let (d, r) = perform(d.resume(Outcome::Done));
    assert!(matches!(r, Request::CommitTransaction));
    assert!(matches!(answer(d.resume(Outcome::Done)), CommandResult::Deleted));
}

#[test]
fn dispatch_increment_counts_a_visit() {
    let (d, r) = perform(dispatch(Command::Increment("l".to_string())));
    assert!(matches!(r, Request::OpenConnection));
    let (d, r) = perform(d.resume(Outcome::Done));
    assert!(matches!(r, Request::LocatorId(ref l) if l == "l"));
    let (d, r) = perform(d.resume(Outcome::Id(4)));
    assert!(matches!(r, Request::CountVisit(4)));
    assert!(matches!(answer(d.resume(Outcome::Done)), CommandResult::Incremented));
}

#[test]
fn extra_keywords_leave_out_words_of_the_locator() {
    let m = model(1, "https://docs.rs/Foo", 0, "docs foo rust  tokio");
    assert_eq!(extra_keywords_of(&m), "rust  tokio");
    let m = model(1, "https://a/", 0, "https");
    assert_eq!(extra_keywords_of(&m), "");
}

#[test]
fn make_matches_cases() {
    assert!(matches!(make_matches(&Keywords::new(), None), MatchList::Blank));
    let k = keywords_of(&["rust"]);
    assert!(matches!(make_matches(&k, None), MatchList::Unavailable));
    assert!(matches!(make_matches(&k, Some(vec![])), MatchList::NoMatches));
    let rows = vec![
        model(1, "https://a/", 2, "rust web"),
        model(2, "https://rust-lang.org/", 9, "rust lang"),
    ];
    match make_matches(&k, Some(rows)) {
        MatchList::Entries(e) => {
            assert_eq!(e.len(), 2);
            assert_eq!(e[0].content, "https://rust-lang.org/");
            assert_eq!(e[0].visits, 9);
            assert_eq!(e[0].extra_keywords, "");
            assert_eq!(e[1].content, "https://a/");
            assert_eq!(e[1].extra_keywords, "rust web");
        }
        other => panic!("unexpected {:?}", other),
    }
}

#[test]
fn replies_to_command_results() {
    assert!(matches!(
        search_reply(CommandResult::NavigateTo("https://a/".to_string())),
        Reply::Redirect(ref l) if l == "https://a/"
    ));
    assert!(matches!(
        search_reply(CommandResult::SearchFailed),
        Reply::Page { status: 404, ref title } if title == "not found"
    ));
    assert!(matches!(
        search_reply(CommandResult::NothingHappened),
        Reply::Page { status: 200, ref title } if title == "but nothing happened"
    ));
    assert!(matches!(
        search_reply(CommandResult::Deleted),
        Reply::Page { status: 500, ref title } if title == "internal error"
    ));
    assert!(matches!(
        delete_reply(&CommandResult::Deleted),
        Reply::Text { status: 200, ref body } if body == "deleted"
    ));
    assert!(matches!(
        delete_reply(&CommandResult::InternalError),
        Reply::Text { status: 500, ref body } if body == "delete failed"
    ));
    assert!(matches!(
        increment_reply(&CommandResult::Incremented),
        Reply::Text { status: 200, ref body } if body == "increment successful"
    ));
    assert!(matches!(
        increment_reply(&CommandResult::SearchFailed),
        Reply::Text { status: 500, ref body } if body == "increment failed"
    ));
}

#[test]
fn credentials_must_be_given_and_equal() {
    let secret = "uv-5r+plus".to_string();
    assert!(credentials_match(&Some("uv-5r+plus".to_string()), &secret));
    assert!(!credentials_match(&Some("uv-5r".to_string()), &secret));
    assert!(!credentials_match(&None, &secret));
}

#[test]
fn live_messages_ask_for_keywords_of_their_terms() {
    let k = message_keywords(Some("terms".to_string()), Some("Rust Book".to_string())).unwrap();
    assert_eq!(k.len(), 2);
    assert_eq!(k.get(0), "book");
    let k = message_keywords(Some("terms".to_string()), None).unwrap();
    assert_eq!(k.len(), 0);
    assert!(message_keywords(Some("other".to_string()), Some("x".to_string())).is_none());
    assert!(message_keywords(None, Some("x".to_string())).is_none());
}

#[test]
fn live_json_messages_ask_for_keywords() {
    let k = minx::live_message_keywords(r#"{"type":"terms","terms":"Zed alpha"}"#).unwrap();
    assert_eq!(k.len(), 2);
    assert_eq!(k.get(0), "alpha");
    assert_eq!(k.get(1), "zed");
    let k = minx::live_message_keywords(r#"{"type":"terms","terms":5}"#).unwrap();
    assert_eq!(k.len(), 0);
    assert!(minx::live_message_keywords(r#"{"type":"ping"}"#).is_none());
    assert!(minx::live_message_keywords(r#"{"terms":"x"}"#).is_none());
    assert!(minx::live_message_keywords("not json").is_none());
    assert!(minx::live_message_keywords("[1, 2]").is_none());
}

#[test]
fn sorting_twice_changes_nothing() {
    let k = keywords_of(&["a", "b"]);
    let mut v = vec![
        model(1, "one", 5, "a"),
        model(2, "two", 1, "a b"),
        model(3, "three", 9, "a"),
    ];
    sort_matches(&mut v, &k);
    let once: Vec<i64> = v.iter().map(|m| m.id).collect();
    sort_matches(&mut v, &k);
    let twice: Vec<i64> = v.iter().map(|m| m.id).collect();
    assert_eq!(once, twice);
}

#[test]
fn live_json_message_edge_cases() {
    assert!(minx::live_message_keywords(r#"{"type":"terms"}"#).is_some());
    assert!(minx::live_message_keywords(r#"{"type":["terms"]}"#).is_none());
    assert!(minx::live_message_keywords(r#""terms""#).is_none());
    assert!(minx::live_message_keywords("").is_none());
}

#[test]
fn login_replies() {
    let secret = "open".to_string();
    let (ok, reply) = minx::login_reply(&Some("open".to_string()), &secret);
    assert!(ok);
    assert!(matches!(reply, Reply::Text { status: 200, ref body } if body == "login successful"));
    let (ok, reply) = minx::login_reply(&Some("shut".to_string()), &secret);
    assert!(!ok);
    assert!(matches!(reply, Reply::Text { status: 401, ref body } if body == "invalid credentials"));
    let (ok, _) = minx::login_reply(&None, &secret);
    assert!(!ok);
}

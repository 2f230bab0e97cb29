//! Searchable bookmarks: the verified core of the `minx` service.
//!
//! Search terms become sets of keywords, a leading URL turns a request into
//! an update of the bookmark store, matches are ranked, and every database
//! call of a command is decided here, one at a time, while the program
//! around the library makes the calls.

pub mod text;
pub mod keywords;
pub mod command;
pub mod ranking;
pub mod query;
pub mod dispatch;
pub mod matches;
pub mod web;

pub use command::{terms_to_command, Command, CommandResult};
pub use dispatch::{dispatch, Dispatcher, Outcome, Request, Step};
pub use keywords::{terms_to_keywords, Keywords};
pub use matches::{make_matches, MatchEntry, MatchList};
pub use query::{matches_query, QueryPiece};
pub use ranking::{rank_match, sort_matches, LocatorModel, Rank};
pub use web::{
    credentials_match, delete_reply, increment_reply, live_message_keywords, login_reply,
    message_keywords,
    search_reply, Reply,
};

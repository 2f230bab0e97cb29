//! Carrying out a command against the bookmark store, one database call at a
//! time: the dispatcher says which call to make next, the caller makes it
//! and reports how it went, until the dispatcher gives the answer.
//!
//! A search runs the match query, ranks the rows and counts a visit to the
//! best one. An update forgets the locator, stores it again, links it to
//! each keyword, commits, and counts a visit. A deletion forgets the locator
//! and commits. An increment looks the locator up (storing it if need be)
//! and counts a visit. A failed call answers `InternalError`; an update cut
//! short leaves its transaction uncommitted.

use vstd::prelude::*;
use crate::command::{Command, CommandResult, CommandResultView, CommandView};
use crate::keywords::Keywords;
use crate::query::{match_query, matches_query, pieces_view, QueryPiece, QueryPieceView};
use crate::ranking::{
    lemma_sorted_by_rank, match_rank, models_view, rank_le, sort_matches, sorted_by_rank,
    LocatorModel, LocatorModelView,
};

verus! {

/// The next database call to make.
#[derive(Debug)]
pub enum Request {
    /// Begin a transaction; the calls that follow, up to the commit, run in it.
    OpenTransaction,
    /// Take a connection from the pool; the calls that follow run on it.
    OpenConnection,
    /// Delete the locator and, with it, its links to keywords.
    RemoveLocator(String),
    /// Store the locator if it is new; report its id.
    LocatorId(String),
    /// Store the keyword if it is new; report its id.
    KeywordId(String),
    /// Link the locator (first id) to the keyword (second id).
    Link(i64, i64),
    /// Commit the transaction.
    CommitTransaction,
    /// Count one more visit of the locator with this id, on the pool.
    CountVisit(i64),
    /// Run this query on the pool; report the rows.
    FindMatches(Vec<QueryPiece>),
}

/// A database call seen as plain values.
pub enum RequestView {
    OpenTransaction,
    OpenConnection,
    RemoveLocator(Seq<char>),
    LocatorId(Seq<char>),
    KeywordId(Seq<char>),
    Link(i64, i64),
    CommitTransaction,
    CountVisit(i64),
    FindMatches(Seq<QueryPieceView>),
}

impl View for Request {
    type V = RequestView;

    open spec fn view(&self) -> RequestView {
        match self {
            Request::OpenTransaction => RequestView::OpenTransaction,
            Request::OpenConnection => RequestView::OpenConnection,
            Request::RemoveLocator(l) => RequestView::RemoveLocator(l@),
            Request::LocatorId(l) => RequestView::LocatorId(l@),
            Request::KeywordId(k) => RequestView::KeywordId(k@),
            Request::Link(l, k) => RequestView::Link(*l, *k),
            Request::CommitTransaction => RequestView::CommitTransaction,
            Request::CountVisit(i) => RequestView::CountVisit(*i),
            Request::FindMatches(q) => RequestView::FindMatches(pieces_view(q@)),
        }
    }
}

/// How a database call went.
#[derive(Debug)]
pub enum Outcome {
    /// It succeeded and gives nothing back.
    Done,
    /// It succeeded and gives this id.
    Id(i64),
    /// It succeeded and gives these rows.
    Rows(Vec<LocatorModel>),
    /// It failed.
    Failed,
}

/// How a call went, seen as plain values.
pub enum OutcomeView {
    Done,
    Id(i64),
    Rows(Seq<LocatorModelView>),
    Failed,
}

impl View for Outcome {
    type V = OutcomeView;

    open spec fn view(&self) -> OutcomeView {
        match self {
            Outcome::Done => OutcomeView::Done,
            Outcome::Id(i) => OutcomeView::Id(*i),
            Outcome::Rows(v) => OutcomeView::Rows(models_view(v@)),
            Outcome::Failed => OutcomeView::Failed,
        }
    }
}

/// Which call a dispatcher waits for.
#[derive(Debug)]
pub enum Stage {
    Opening,
    Removing,
    Identifying,
    Keyword { locator_id: i64, index: usize },
    Linking { locator_id: i64, index: usize },
    Committing { locator_id: i64 },
    Counting { target: String },
    Matching,
}

/// A stage seen as plain values.
pub enum StageView {
    Opening,
    Removing,
    Identifying,
    Keyword { locator_id: i64, index: int },
    Linking { locator_id: i64, index: int },
    Committing { locator_id: i64 },
    Counting { target: Seq<char> },
    Matching,
}

impl View for Stage {
    type V = StageView;

    open spec fn view(&self) -> StageView {
        match self {
            Stage::Opening => StageView::Opening,
            Stage::Removing => StageView::Removing,
            Stage::Identifying => StageView::Identifying,
            Stage::Keyword { locator_id, index } => StageView::Keyword {
                locator_id: *locator_id,
                index: *index as int,
            },
            Stage::Linking { locator_id, index } => StageView::Linking {
                locator_id: *locator_id,
                index: *index as int,
            },
            Stage::Committing { locator_id } => StageView::Committing { locator_id: *locator_id },
            Stage::Counting { target } => StageView::Counting { target: target@ },
            Stage::Matching => StageView::Matching,
        }
    }
}

/// A command under way, waiting for the outcome of a call.
#[derive(Debug)]
pub struct Dispatcher {
    pub command: Command,
    pub stage: Stage,
}

/// A dispatcher seen as plain values.
pub struct DispatcherView {
    pub command: CommandView,
    pub stage: StageView,
}

impl View for Dispatcher {
    type V = DispatcherView;

    open spec fn view(&self) -> DispatcherView {
        DispatcherView { command: self.command@, stage: self.stage@ }
    }
}

/// What comes next: a call to make, or the answer.
#[derive(Debug)]
pub enum Step {
    Perform(Dispatcher, Request),
    Done(CommandResult),
}

/// A step seen as plain values.
pub enum StepView {
    Perform(DispatcherView, RequestView),
    Done(CommandResultView),
}

impl View for Step {
    type V = StepView;

    open spec fn view(&self) -> StepView {
        match self {
            Step::Perform(d, r) => StepView::Perform(d@, r@),
            Step::Done(r) => StepView::Done(r@),
        }
    }
}

/// Waits for `stage` of `command` after asking for `request`.
pub open spec fn perform(command: CommandView, stage: StageView, request: RequestView) -> StepView {
    StepView::Perform(DispatcherView { command, stage }, request)
}

/// The answer to a failed call.
pub open spec fn failure() -> StepView {
    StepView::Done(CommandResultView::InternalError)
}

/// The first step of a command.
pub open spec fn start(command: CommandView) -> StepView {
    match command {
        CommandView::NoOp => StepView::Done(CommandResultView::NothingHappened),
        CommandView::Search(keys) => match match_query(keys) {
            None => StepView::Done(CommandResultView::SearchFailed),
            Some(q) => perform(command, StageView::Matching, RequestView::FindMatches(q)),
        },
        CommandView::Alter(_, _) => perform(command, StageView::Opening, RequestView::OpenTransaction),
        CommandView::Delete(_) => perform(command, StageView::Opening, RequestView::OpenTransaction),
        CommandView::Increment(_) => perform(command, StageView::Opening, RequestView::OpenConnection),
    }
}

/// During an update, after the keywords before `index` are linked to the
/// locator: ask for the id of the next keyword, or commit after the last.
pub open spec fn next_keyword(command: CommandView, keys: Seq<Seq<char>>, locator_id: i64, index: int) -> StepView {
    if index < keys.len() {
        perform(
            command,
            StageView::Keyword { locator_id, index },
            RequestView::KeywordId(keys[index]),
        )
    } else {
        perform(command, StageView::Committing { locator_id }, RequestView::CommitTransaction)
    }
}

/// The step after the outcome of an update's call.
pub open spec fn advance_alter(
    command: CommandView,
    locator: Seq<char>,
    keys: Seq<Seq<char>>,
    stage: StageView,
    outcome: OutcomeView,
) -> StepView {
    match (stage, outcome) {
        (StageView::Opening, OutcomeView::Done) => perform(
            command,
            StageView::Removing,
            RequestView::RemoveLocator(locator),
        ),
        (StageView::Removing, OutcomeView::Done) => perform(
            command,
            StageView::Identifying,
            RequestView::LocatorId(locator),
        ),
        (StageView::Identifying, OutcomeView::Id(id)) => next_keyword(command, keys, id, 0),
        (StageView::Keyword { locator_id, index }, OutcomeView::Id(keyword_id)) => perform(
            command,
            StageView::Linking { locator_id, index },
            RequestView::Link(locator_id, keyword_id),
        ),
        (StageView::Linking { locator_id, index }, OutcomeView::Done) => next_keyword(
            command,
            keys,
            locator_id,
            index + 1,
        ),
        (StageView::Committing { locator_id }, OutcomeView::Done) => perform(
            command,
            StageView::Counting { target: locator },
            RequestView::CountVisit(locator_id),
        ),
        (StageView::Counting { target }, OutcomeView::Done) => StepView::Done(
            CommandResultView::NavigateTo(target),
        ),
        _ => failure(),
    }
}

/// The step after the outcome of a deletion's call.
pub open spec fn advance_delete(
    command: CommandView,
    locator: Seq<char>,
    stage: StageView,
    outcome: OutcomeView,
) -> StepView {
    match (stage, outcome) {
        (StageView::Opening, OutcomeView::Done) => perform(
            command,
            StageView::Removing,
            RequestView::RemoveLocator(locator),
        ),
        (StageView::Removing, OutcomeView::Done) => perform(
            command,
            StageView::Committing { locator_id: 0 },
            RequestView::CommitTransaction,
        ),
        (StageView::Committing { .. }, OutcomeView::Done) => StepView::Done(
            CommandResultView::Deleted,
        ),
        _ => failure(),
    }
}

/// The step after the outcome of an increment's call.
pub open spec fn advance_increment(
    command: CommandView,
    locator: Seq<char>,
    stage: StageView,
    outcome: OutcomeView,
) -> StepView {
    match (stage, outcome) {
        (StageView::Opening, OutcomeView::Done) => perform(
            command,
            StageView::Identifying,
            RequestView::LocatorId(locator),
        ),
        (StageView::Identifying, OutcomeView::Id(id)) => perform(
            command,
            StageView::Counting { target: locator },
            RequestView::CountVisit(id),
        ),
        (StageView::Counting { .. }, OutcomeView::Done) => StepView::Done(
            CommandResultView::Incremented,
        ),
        _ => failure(),
    }
}

/// The step after the outcome of a search's call: the rows are ranked, and
/// the best one is visited; no rows, no match.
pub open spec fn advance_search(
    command: CommandView,
    keys: Seq<Seq<char>>,
    stage: StageView,
    outcome: OutcomeView,
) -> StepView {
    match (stage, outcome) {
        (StageView::Matching, OutcomeView::Rows(rows)) => {
            let ranked = sorted_by_rank(keys, rows);
            if ranked.len() == 0 {
                StepView::Done(CommandResultView::SearchFailed)
            } else {
                perform(
                    command,
                    StageView::Counting { target: ranked[0].content },
                    RequestView::CountVisit(ranked[0].id),
                )
            }
        },
        (StageView::Counting { target }, OutcomeView::Done) => StepView::Done(
            CommandResultView::NavigateTo(target),
        ),
        _ => failure(),
    }
}

/// The step after the outcome of the call a dispatcher waits for.
pub open spec fn advance(d: DispatcherView, outcome: OutcomeView) -> StepView {
    match d.command {
        CommandView::Alter(locator, keys) => advance_alter(d.command, locator, keys, d.stage, outcome),
        CommandView::Delete(locator) => advance_delete(d.command, locator, d.stage, outcome),
        CommandView::Increment(locator) => advance_increment(d.command, locator, d.stage, outcome),
        CommandView::Search(keys) => advance_search(d.command, keys, d.stage, outcome),
        CommandView::NoOp => failure(),
    }
}

/// Whether an outcome can be handed to the dispatcher: rows to rank must not
/// hold the least `i64` as their visits, whose negation overflows.
pub open spec fn outcome_ok(outcome: OutcomeView) -> bool {
    outcome matches OutcomeView::Rows(rows) ==> forall|i: int|
        0 <= i < rows.len() ==> (#[trigger] rows[i]).visits != i64::MIN
}

/// Starts carrying out a command: gives its first call, or its answer
/// where it needs none.
pub fn dispatch(command: Command) -> (step: Step)
    ensures
        step@ == start(command@),
{
    match command {
        Command::NoOp => Step::Done(CommandResult::NothingHappened),
        Command::Search(keywords) => {
            match matches_query(&keywords) {
                None => Step::Done(CommandResult::SearchFailed),
                Some(q) => Step::Perform(
                    Dispatcher { command: Command::Search(keywords), stage: Stage::Matching },
                    Request::FindMatches(q),
                ),
            }
        },
        Command::Alter(locator, keywords) => Step::Perform(
            Dispatcher { command: Command::Alter(locator, keywords), stage: Stage::Opening },
            Request::OpenTransaction,
        ),
        Command::Delete(locator) => Step::Perform(
            Dispatcher { command: Command::Delete(locator), stage: Stage::Opening },
            Request::OpenTransaction,
        ),
        Command::Increment(locator) => Step::Perform(
            Dispatcher { command: Command::Increment(locator), stage: Stage::Opening },
            Request::OpenConnection,
        ),
    }
}

/// The call for the keyword at `index` during an update, or the commit.
fn alter_next_keyword(locator: String, keywords: Keywords, locator_id: i64, index: usize) -> (step: Step)
    ensures
        step@ == next_keyword(
            CommandView::Alter(locator@, keywords@),
            keywords@,
            locator_id,
            index as int,
        ),
{
    if index < keywords.len() {
        let word = keywords.get(index).clone();
        Step::Perform(
            Dispatcher {
                command: Command::Alter(locator, keywords),
                stage: Stage::Keyword { locator_id, index },
            },
            Request::KeywordId(word),
        )
    } else {
        Step::Perform(
            Dispatcher {
                command: Command::Alter(locator, keywords),
                stage: Stage::Committing { locator_id },
            },
            Request::CommitTransaction,
        )
    }
}

fn resume_alter(locator: String, keywords: Keywords, stage: Stage, outcome: Outcome) -> (step: Step)
    ensures
        step@ == advance_alter(
            CommandView::Alter(locator@, keywords@),
            locator@,
            keywords@,
            stage@,
            outcome@,
        ),
{
    match (stage, outcome) {
        (Stage::Opening, Outcome::Done) => {
            let request = Request::RemoveLocator(locator.clone());
            Step::Perform(
                Dispatcher { command: Command::Alter(locator, keywords), stage: Stage::Removing },
                request,
            )
        },
        (Stage::Removing, Outcome::Done) => {
            let request = Request::LocatorId(locator.clone());
            Step::Perform(
                Dispatcher { command: Command::Alter(locator, keywords), stage: Stage::Identifying },
                request,
            )
        },
        (Stage::Identifying, Outcome::Id(id)) => alter_next_keyword(locator, keywords, id, 0),
        (Stage::Keyword { locator_id, index }, Outcome::Id(keyword_id)) => Step::Perform(
            Dispatcher {
                command: Command::Alter(locator, keywords),
                stage: Stage::Linking { locator_id, index },
            },
            Request::Link(locator_id, keyword_id),
        ),
        (Stage::Linking { locator_id, index }, Outcome::Done) => {
            if index < keywords.len() {
                alter_next_keyword(locator, keywords, locator_id, index + 1)
            } else {
                Step::Perform(
                    Dispatcher {
                        command: Command::Alter(locator, keywords),
                        stage: Stage::Committing { locator_id },
                    },
                    Request::CommitTransaction,
                )
            }
        },
        (Stage::Committing { locator_id }, Outcome::Done) => {
            let target = locator.clone();
            Step::Perform(
                Dispatcher {
                    command: Command::Alter(locator, keywords),
                    stage: Stage::Counting { target },
                },
                Request::CountVisit(locator_id),
            )
        },
        (Stage::Counting { target }, Outcome::Done) => Step::Done(CommandResult::NavigateTo(target)),
        _ => Step::Done(CommandResult::InternalError),
    }
}

fn resume_delete(locator: String, stage: Stage, outcome: Outcome) -> (step: Step)
    ensures
        step@ == advance_delete(CommandView::Delete(locator@), locator@, stage@, outcome@),
{
    match (stage, outcome) {
        (Stage::Opening, Outcome::Done) => {
            let request = Request::RemoveLocator(locator.clone());
            Step::Perform(
                Dispatcher { command: Command::Delete(locator), stage: Stage::Removing },
                request,
            )
        },
        (Stage::Removing, Outcome::Done) => Step::Perform(
            Dispatcher {
                command: Command::Delete(locator),
                stage: Stage::Committing { locator_id: 0 },
            },
            Request::CommitTransaction,
        ),
        (Stage::Committing { .. }, Outcome::Done) => Step::Done(CommandResult::Deleted),
        _ => Step::Done(CommandResult::InternalError),
    }
}

fn resume_increment(locator: String, stage: Stage, outcome: Outcome) -> (step: Step)
    ensures
        step@ == advance_increment(CommandView::Increment(locator@), locator@, stage@, outcome@),
{
    match (stage, outcome) {
        (Stage::Opening, Outcome::Done) => {
            let request = Request::LocatorId(locator.clone());
            Step::Perform(
                Dispatcher { command: Command::Increment(locator), stage: Stage::Identifying },
                request,
            )
        },
        (Stage::Identifying, Outcome::Id(id)) => {
            let target = locator.clone();
            Step::Perform(
                Dispatcher { command: Command::Increment(locator), stage: Stage::Counting { target } },
                Request::CountVisit(id),
            )
        },
        (Stage::Counting { .. }, Outcome::Done) => Step::Done(CommandResult::Incremented),
        _ => Step::Done(CommandResult::InternalError),
    }
}

fn resume_search(keywords: Keywords, stage: Stage, outcome: Outcome) -> (step: Step)
    requires
        outcome_ok(outcome@),
    ensures
        step@ == advance_search(CommandView::Search(keywords@), keywords@, stage@, outcome@),
{
    match (stage, outcome) {
        (Stage::Matching, Outcome::Rows(rows)) => {
            let mut ranked = rows;
            proof {
                assert forall|i: int| 0 <= i < ranked@.len() implies (#[trigger] ranked@[i]).visits
                    != i64::MIN by {
                    assert(models_view(ranked@)[i] == ranked@[i]@);
                }
            }
            sort_matches(&mut ranked, &keywords);
            if ranked.len() == 0 {
                Step::Done(CommandResult::SearchFailed)
            } else {
                proof {
                    assert(models_view(ranked@)[0] == ranked@[0]@);
                }
                let best = ranked.swap_remove(0);
                Step::Perform(
                    Dispatcher {
                        command: Command::Search(keywords),
                        stage: Stage::Counting { target: best.content },
                    },
                    Request::CountVisit(best.id),
                )
            }
        },
        (Stage::Counting { target }, Outcome::Done) => Step::Done(CommandResult::NavigateTo(target)),
        _ => Step::Done(CommandResult::InternalError),
    }
}

impl Dispatcher {
    /// Hands the outcome of the call asked for to the dispatcher: gives the
    /// next call, or the answer.
    pub fn resume(self, outcome: Outcome) -> (step: Step)
        requires
            outcome_ok(outcome@),
        ensures
            step@ == advance(self@, outcome@),
    {
        let Dispatcher { command, stage } = self;
        match command {
            Command::Alter(locator, keywords) => resume_alter(locator, keywords, stage, outcome),
            Command::Delete(locator) => resume_delete(locator, stage, outcome),
            Command::Increment(locator) => resume_increment(locator, stage, outcome),
            Command::Search(keywords) => resume_search(keywords, stage, outcome),
            Command::NoOp => Step::Done(CommandResult::InternalError),
        }
    }
}

/// Runs a step against the outcomes of its calls, in order: the calls
/// asked for, and the step reached when the outcomes run out or the answer
/// is given.
pub open spec fn run(step: StepView, outcomes: Seq<OutcomeView>) -> (Seq<RequestView>, StepView)
    decreases outcomes.len(),
{
    match step {
        StepView::Done(_) => (Seq::empty(), step),
        StepView::Perform(d, request) => if outcomes.len() == 0 {
            (seq![request], step)
        } else {
            let rest = run(advance(d, outcomes[0]), outcomes.drop_first());
            (seq![request] + rest.0, rest.1)
        },
    }
}

/// A failed call ends any command with `InternalError`.
pub proof fn lemma_failed_call_is_internal_error(d: DispatcherView)
    ensures
        advance(d, OutcomeView::Failed) == failure(),
{
}

/// The outcomes of the keyword calls of an update: an id for each keyword,
/// then the link made.
pub open spec fn link_outcomes(keyword_ids: Seq<i64>) -> Seq<OutcomeView>
    decreases keyword_ids.len(),
{
    if keyword_ids.len() == 0 {
        Seq::empty()
    } else {
        seq![OutcomeView::Id(keyword_ids[0]), OutcomeView::Done] + link_outcomes(
            keyword_ids.drop_first(),
        )
    }
}

/// The keyword calls of an update: the id of each keyword in order, then
/// the link between the locator and it.
pub open spec fn link_requests(keys: Seq<Seq<char>>, locator_id: i64, keyword_ids: Seq<i64>) -> Seq<
    RequestView,
>
    decreases keyword_ids.len(),
{
    if keyword_ids.len() == 0 || keys.len() == 0 {
        Seq::empty()
    } else {
        seq![
            RequestView::KeywordId(keys[0]),
            RequestView::Link(locator_id, keyword_ids[0]),
        ] + link_requests(keys.drop_first(), locator_id, keyword_ids.drop_first())
    }
}

proof fn lemma_run_links(
    locator: Seq<char>,
    keys: Seq<Seq<char>>,
    locator_id: i64,
    keyword_ids: Seq<i64>,
    i: int,
    tail: Seq<OutcomeView>,
)
    requires
        keyword_ids.len() == keys.len(),
        0 <= i <= keys.len(),
    ensures
        ({
            let command = CommandView::Alter(locator, keys);
            let after = run(next_keyword(command, keys, locator_id, keys.len() as int), tail);
            run(next_keyword(command, keys, locator_id, i), link_outcomes(keyword_ids.skip(i)) + tail)
                == (link_requests(keys.skip(i), locator_id, keyword_ids.skip(i)) + after.0, after.1)
        }),
    decreases keys.len() - i,
{
    reveal_with_fuel(run, 3);
    let command = CommandView::Alter(locator, keys);
    if i == keys.len() {
        assert(keyword_ids.skip(i) =~= Seq::<i64>::empty());
        assert(link_outcomes(keyword_ids.skip(i)) + tail =~= tail);
        assert(link_requests(keys.skip(i), locator_id, keyword_ids.skip(i)) =~= Seq::<RequestView>::empty());
        let after = run(next_keyword(command, keys, locator_id, keys.len() as int), tail);
        assert(Seq::<RequestView>::empty() + after.0 =~= after.0);
    } else {
        lemma_run_links(locator, keys, locator_id, keyword_ids, i + 1, tail);
        let ids = keyword_ids.skip(i);
        assert(ids.drop_first() =~= keyword_ids.skip(i + 1));
        assert(keys.skip(i).drop_first() =~= keys.skip(i + 1));
        let outs = link_outcomes(ids) + tail;
        let rest = link_outcomes(keyword_ids.skip(i + 1)) + tail;
        assert(outs =~= seq![OutcomeView::Id(keyword_ids[i]), OutcomeView::Done] + rest);
        assert(outs[0] == OutcomeView::Id(keyword_ids[i]));
        assert(outs.drop_first()[0] == OutcomeView::Done);
        assert(outs.drop_first().drop_first() =~= rest);
        let after = run(next_keyword(command, keys, locator_id, keys.len() as int), tail);
        let reqs = link_requests(keys.skip(i + 1), locator_id, keyword_ids.skip(i + 1));
        assert(seq![RequestView::KeywordId(keys[i as int])] + (seq![
            RequestView::Link(locator_id, keyword_ids[i as int]),
        ] + (reqs + after.0)) =~= link_requests(keys.skip(i), locator_id, keyword_ids.skip(i))
            + after.0);
    }
}

/// An update whose calls all succeed forgets the locator, stores it again,
/// links it to each keyword in order, commits, counts a visit, and answers
/// with the locator.
pub proof fn lemma_alter_run(
    locator: Seq<char>,
    keys: Seq<Seq<char>>,
    locator_id: i64,
    keyword_ids: Seq<i64>,
)
    requires
        keyword_ids.len() == keys.len(),
    ensures
        run(
            start(CommandView::Alter(locator, keys)),
            seq![OutcomeView::Done, OutcomeView::Done, OutcomeView::Id(locator_id)] + link_outcomes(
                keyword_ids,
            ) + seq![OutcomeView::Done, OutcomeView::Done],
        ) == (seq![
            RequestView::OpenTransaction,
            RequestView::RemoveLocator(locator),
            RequestView::LocatorId(locator),
        ] + link_requests(keys, locator_id, keyword_ids) + seq![
            RequestView::CommitTransaction,
            RequestView::CountVisit(locator_id),
        ], StepView::Done(CommandResultView::NavigateTo(locator))),
{
    reveal_with_fuel(run, 4);
    let command = CommandView::Alter(locator, keys);
    let tail = seq![OutcomeView::Done, OutcomeView::Done];
    let links = link_outcomes(keyword_ids);
    let outs = seq![OutcomeView::Done, OutcomeView::Done, OutcomeView::Id(locator_id)] + links + tail;
    lemma_run_links(locator, keys, locator_id, keyword_ids, 0, tail);
    assert(keyword_ids.skip(0) =~= keyword_ids);
    assert(keys.skip(0) =~= keys);
    assert(outs[0] == OutcomeView::Done);
    assert(outs.drop_first()[0] == OutcomeView::Done);
    assert(outs.drop_first().drop_first()[0] == OutcomeView::Id(locator_id));
    assert(outs.drop_first().drop_first().drop_first() =~= links + tail);
    assert(tail.drop_first()[0] == OutcomeView::Done);
    assert(tail.drop_first().drop_first() =~= Seq::<OutcomeView>::empty());
    let after = run(next_keyword(command, keys, locator_id, keys.len() as int), tail);
    assert(after == (
        seq![RequestView::CommitTransaction, RequestView::CountVisit(locator_id)],
        StepView::Done(CommandResultView::NavigateTo(locator)),
    )) by {
        assert(seq![RequestView::CommitTransaction] + (seq![RequestView::CountVisit(locator_id)]
            + Seq::<RequestView>::empty()) =~= seq![
            RequestView::CommitTransaction,
            RequestView::CountVisit(locator_id),
        ]);
    }
    let lr = link_requests(keys, locator_id, keyword_ids);
    assert(seq![RequestView::OpenTransaction] + (seq![RequestView::RemoveLocator(locator)] + (seq![
        RequestView::LocatorId(locator),
    ] + (lr + after.0))) =~= seq![
        RequestView::OpenTransaction,
        RequestView::RemoveLocator(locator),
        RequestView::LocatorId(locator),
    ] + lr + seq![RequestView::CommitTransaction, RequestView::CountVisit(locator_id)]);
}

/// A deletion whose calls succeed forgets the locator and commits.
pub proof fn lemma_delete_run(locator: Seq<char>)
    ensures
        run(
            start(CommandView::Delete(locator)),
            seq![OutcomeView::Done, OutcomeView::Done, OutcomeView::Done],
        ) == (seq![
            RequestView::OpenTransaction,
            RequestView::RemoveLocator(locator),
            RequestView::CommitTransaction,
        ], StepView::Done(CommandResultView::Deleted)),
{
    reveal_with_fuel(run, 4);
    let outs = seq![OutcomeView::Done, OutcomeView::Done, OutcomeView::Done];
    assert(outs.drop_first() =~= seq![OutcomeView::Done, OutcomeView::Done]);
    assert(outs.drop_first().drop_first() =~= seq![OutcomeView::Done]);
    assert(outs.drop_first().drop_first().drop_first() =~= Seq::<OutcomeView>::empty());
    assert(seq![RequestView::OpenTransaction] + (seq![RequestView::RemoveLocator(locator)] + (seq![
        RequestView::CommitTransaction,
    ] + Seq::<RequestView>::empty())) =~= seq![
        RequestView::OpenTransaction,
        RequestView::RemoveLocator(locator),
        RequestView::CommitTransaction,
    ]);
}

/// An increment whose calls succeed looks the locator up (storing it if
/// need be) and counts a visit of it.
pub proof fn lemma_increment_run(locator: Seq<char>, locator_id: i64)
    ensures
        run(
            start(CommandView::Increment(locator)),
            seq![OutcomeView::Done, OutcomeView::Id(locator_id), OutcomeView::Done],
        ) == (seq![
            RequestView::OpenConnection,
            RequestView::LocatorId(locator),
            RequestView::CountVisit(locator_id),
        ], StepView::Done(CommandResultView::Incremented)),
{
    reveal_with_fuel(run, 4);
    let outs = seq![OutcomeView::Done, OutcomeView::Id(locator_id), OutcomeView::Done];
    assert(outs.drop_first() =~= seq![OutcomeView::Id(locator_id), OutcomeView::Done]);
    assert(outs.drop_first().drop_first() =~= seq![OutcomeView::Done]);
    assert(outs.drop_first().drop_first().drop_first() =~= Seq::<OutcomeView>::empty());
    assert(seq![RequestView::OpenConnection] + (seq![RequestView::LocatorId(locator)] + (seq![
        RequestView::CountVisit(locator_id),
    ] + Seq::<RequestView>::empty())) =~= seq![
        RequestView::OpenConnection,
        RequestView::LocatorId(locator),
        RequestView::CountVisit(locator_id),
    ]);
}

/// A search for some keywords runs the match query; with no rows it answers
/// `SearchFailed`; otherwise it counts a visit of the best-ranked row, one of
/// the rows that ranks at most as every row, and answers with its locator.
pub proof fn lemma_search_run(keys: Seq<Seq<char>>, rows: Seq<LocatorModelView>)
    requires
        keys.len() > 0,
    ensures
        ({
            let q = match_query(keys)->Some_0;
            let ranked = sorted_by_rank(keys, rows);
            &&& rows.len() == 0 ==> run(
                start(CommandView::Search(keys)),
                seq![OutcomeView::Rows(rows)],
            ) == (seq![RequestView::FindMatches(q)], StepView::Done(CommandResultView::SearchFailed))
            &&& rows.len() > 0 ==> {
                &&& run(start(CommandView::Search(keys)), seq![OutcomeView::Rows(rows), OutcomeView::Done])
                    == (seq![RequestView::FindMatches(q), RequestView::CountVisit(ranked[0].id)],
                    StepView::Done(CommandResultView::NavigateTo(ranked[0].content)))
                &&& rows.contains(ranked[0])
                &&& forall|i: int|
                    0 <= i < rows.len() ==> rank_le(
                        match_rank(keys, ranked[0]),
                        #[trigger] match_rank(keys, rows[i]),
                    )
            }
        }),
{
    broadcast use vstd::seq_lib::group_to_multiset_ensures;

    reveal_with_fuel(run, 3);
    let q = match_query(keys)->Some_0;
    let ranked = sorted_by_rank(keys, rows);
    lemma_sorted_by_rank(keys, rows);
    assert(ranked.len() == rows.len()) by {
        assert(ranked.to_multiset().len() == rows.to_multiset().len());
    }
    if rows.len() == 0 {
        let outs = seq![OutcomeView::Rows(rows)];
        assert(outs.drop_first() =~= Seq::<OutcomeView>::empty());
        assert(seq![RequestView::FindMatches(q)] + Seq::<RequestView>::empty() =~= seq![
            RequestView::FindMatches(q),
        ]);
    } else {
        let outs = seq![OutcomeView::Rows(rows), OutcomeView::Done];
        assert(outs.drop_first() =~= seq![OutcomeView::Done]);
        assert(outs.drop_first().drop_first() =~= Seq::<OutcomeView>::empty());
        assert(seq![RequestView::FindMatches(q)] + (seq![RequestView::CountVisit(ranked[0].id)]
            + Seq::<RequestView>::empty()) =~= seq![
            RequestView::FindMatches(q),
            RequestView::CountVisit(ranked[0].id),
        ]);
        assert(ranked.contains(ranked[0]));
        assert(rows.to_multiset().count(ranked[0]) > 0);
        assert forall|i: int| 0 <= i < rows.len() implies rank_le(
            match_rank(keys, ranked[0]),
            #[trigger] match_rank(keys, rows[i]),
        ) by {
            assert(rows.contains(rows[i]));
            assert(ranked.to_multiset().count(rows[i]) > 0);
            assert(ranked.contains(rows[i]));
            let m = choose|m: int| 0 <= m < ranked.len() && ranked[m] == rows[i];
            if m > 0 {
                assert(rank_le(match_rank(keys, ranked[0]), match_rank(keys, ranked[m])));
            }
        }
    }
}

/// The number of keywords of an update; none for any other command.
pub open spec fn update_size(command: CommandView) -> int {
    match command {
        CommandView::Alter(_, keys) => keys.len() as int,
        _ => 0,
    }
}

/// At most how many more outcomes a dispatcher takes before it answers.
pub open spec fn calls_left(d: DispatcherView) -> nat {
    let n = update_size(d.command);
    let alter = d.command is Alter;
    match d.stage {
        StageView::Opening => if alter { (2 * n + 5) as nat } else { 3 },
        StageView::Removing => if alter { (2 * n + 4) as nat } else { 2 },
        StageView::Identifying => if alter { (2 * n + 3) as nat } else { 2 },
        StageView::Keyword { index, .. } => if index < n { (2 * (n - index) + 2) as nat } else { 4 },
        StageView::Linking { index, .. } => if index < n { (2 * (n - index) + 1) as nat } else { 3 },
        StageView::Committing { .. } => if alter { 2 } else { 1 },
        StageView::Counting { .. } => 1,
        StageView::Matching => 2,
    }
}

/// At most how many calls a command makes: two for a search, five and two
/// per keyword for an update, three for a deletion or an increment.
pub open spec fn max_calls(command: CommandView) -> nat {
    match start(command) {
        StepView::Done(_) => 0,
        StepView::Perform(d, _) => calls_left(d),
    }
}

proof fn lemma_advance_progress(d: DispatcherView, outcome: OutcomeView)
    ensures
        calls_left(d) >= 1,
        advance(d, outcome) matches StepView::Perform(d2, _) ==> calls_left(d2) < calls_left(d),
{
}

proof fn lemma_run_ends(step: StepView, outcomes: Seq<OutcomeView>)
    requires
        step matches StepView::Perform(d, _) ==> outcomes.len() >= calls_left(d),
    ensures
        run(step, outcomes).1 is Done,
    decreases outcomes.len(),
{
    if let StepView::Perform(d, _) = step {
        lemma_advance_progress(d, outcomes[0]);
        lemma_run_ends(advance(d, outcomes[0]), outcomes.drop_first());
    }
}

/// Every command ends with an answer, whatever the outcomes of its calls,
/// after at most `max_calls` of them.
pub proof fn lemma_commands_end(command: CommandView, outcomes: Seq<OutcomeView>)
    requires
        outcomes.len() >= max_calls(command),
    ensures
        run(start(command), outcomes).1 is Done,
{
    lemma_run_ends(start(command), outcomes);
}

} // verus!

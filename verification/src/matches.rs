//! The list of matches shown while search terms are typed.

use vstd::prelude::*;
use vstd::string::StringExecFns;
use crate::command::{CommandResultView, CommandView};
use crate::dispatch::{lemma_search_run, run, start, OutcomeView, StepView};
use crate::keywords::{keyword_set, terms_to_keywords, Keywords};
use crate::ranking::{
    lemma_sorted_by_rank, match_rank, models_view, rank_le, rank_sorted, sort_matches,
    sorted_by_rank, space_pieces, split_spaces, strings_view, LocatorModel, LocatorModelView,
};
use crate::text::join_pieces;

verus! {

/// One match as shown: the locator, its visits, and those of its keywords
/// that its own text does not already hold.
#[derive(Debug)]
pub struct MatchEntry {
    pub content: String,
    pub visits: i64,
    pub extra_keywords: String,
}

/// A match as shown, seen as plain values.
pub struct MatchEntryView {
    pub content: Seq<char>,
    pub visits: i64,
    pub extra_keywords: Seq<char>,
}

impl View for MatchEntry {
    type V = MatchEntryView;

    open spec fn view(&self) -> MatchEntryView {
        MatchEntryView {
            content: self.content@,
            visits: self.visits,
            extra_keywords: self.extra_keywords@,
        }
    }
}

/// What to show for the terms typed so far.
#[derive(Debug)]
pub enum MatchList {
    /// Nothing: the terms hold no keyword.
    Blank,
    /// The lookup failed.
    Unavailable,
    /// No locator matches.
    NoMatches,
    /// The matches, best first.
    Entries(Vec<MatchEntry>),
}

/// What to show, seen as plain values.
pub enum MatchListView {
    Blank,
    Unavailable,
    NoMatches,
    Entries(Seq<MatchEntryView>),
}

/// The plain values of a list of shown matches.
pub open spec fn entries_view(v: Seq<MatchEntry>) -> Seq<MatchEntryView> {
    v.map_values(|e: MatchEntry| e@)
}

impl View for MatchList {
    type V = MatchListView;

    open spec fn view(&self) -> MatchListView {
        match self {
            MatchList::Blank => MatchListView::Blank,
            MatchList::Unavailable => MatchListView::Unavailable,
            MatchList::NoMatches => MatchListView::NoMatches,
            MatchList::Entries(v) => MatchListView::Entries(entries_view(v@)),
        }
    }
}

/// Whether a stored keyword is not among the keywords of the locator's own
/// text.
pub open spec fn not_in_text(content: Seq<char>) -> spec_fn(Seq<char>) -> bool {
    |p: Seq<char>| !keyword_set(content).contains(p)
}

/// The stored keywords of a match that its own text does not hold, in their
/// stored order, separated by spaces.
pub open spec fn extra_keywords(m: LocatorModelView) -> Seq<char> {
    join_pieces(space_pieces(m.keywords).filter(not_in_text(m.content)), " "@)
}

/// A match as shown.
pub open spec fn entry_of(m: LocatorModelView) -> MatchEntryView {
    MatchEntryView { content: m.content, visits: m.visits, extra_keywords: extra_keywords(m) }
}

/// What to show for a set of keywords and the rows of the match query
/// (`None` where it failed): nothing without keywords; otherwise the rows
/// ranked, best first, each shown as `entry_of` shows it.
pub open spec fn match_list(keys: Seq<Seq<char>>, rows: Option<Seq<LocatorModelView>>) -> MatchListView {
    if keys.len() == 0 {
        MatchListView::Blank
    } else {
        match rows {
            None => MatchListView::Unavailable,
            Some(v) => {
                let ranked = sorted_by_rank(keys, v);
                if ranked.len() == 0 {
                    MatchListView::NoMatches
                } else {
                    MatchListView::Entries(ranked.map_values(|m: LocatorModelView| entry_of(m)))
                }
            },
        }
    }
}

/// The plain values of the rows handed in, if any.
pub open spec fn rows_view(rows: Option<Vec<LocatorModel>>) -> Option<Seq<LocatorModelView>> {
    match rows {
        Some(v) => Some(models_view(v@)),
        None => None,
    }
}

/// Joining one more piece.
proof fn lemma_join_push(ps: Seq<Seq<char>>, x: Seq<char>, sep: Seq<char>)
    ensures
        join_pieces(ps.push(x), sep) == (if ps.len() == 0 {
            x
        } else {
            join_pieces(ps, sep) + sep + x
        }),
{
    assert(ps.push(x).drop_last() =~= ps);
}

/// The stored keywords of a match that its own text does not hold,
/// separated by spaces.
pub fn extra_keywords_of(m: &LocatorModel) -> (s: String)
    ensures
        s@ == extra_keywords(m@),
{
    let url_keywords = terms_to_keywords(m.content.as_str());
    let pieces = split_spaces(m.keywords.as_str());
    let ghost pv = strings_view(pieces@);
    let ghost keep = not_in_text(m.content@);
    let n = pieces.len();
    let mut out = String::new();
    let mut kept: usize = 0;
    let mut i: usize = 0;
    proof {
        reveal(Seq::filter);
        assert(pv.take(0) =~= Seq::<Seq<char>>::empty());
    }
    while i < n
        invariant
            pv == strings_view(pieces@),
            pv == space_pieces(m.keywords@),
            keep == not_in_text(m.content@),
            url_keywords@.to_set() == keyword_set(m.content@),
            n == pv.len(),
            i <= n,
            kept == pv.take(i as int).filter(keep).len(),
            out@ == join_pieces(pv.take(i as int).filter(keep), " "@),
        decreases n - i,
    {
        let ghost done = pv.take(i as int).filter(keep);
        proof {
            reveal(Seq::filter);
            assert(pv.take(i + 1).drop_last() =~= pv.take(i as int));
            assert(pv.take(i + 1).last() == pv[i as int]);
            assert(pv[i as int] == pieces@[i as int]@);
            assert(url_keywords@.contains(pv[i as int]) == keyword_set(m.content@).contains(pv[i as int]));
        }
        if !url_keywords.contains(&pieces[i]) {
            proof {
                lemma_join_push(done, pv[i as int], " "@);
            }
            if kept > 0 {
                out.append(" ");
            }
            out.append(pieces[i].as_str());
            kept = kept + 1;
        }
        i = i + 1;
    }
    proof {
        assert(pv.take(n as int) =~= pv);
    }
    out
}

/// What to show for the keywords typed so far and the rows of the match
/// query (`None` where it failed): nothing without keywords; "no matches"
/// without rows; otherwise the matches ranked, best first.
pub fn make_matches(keywords: &Keywords, rows: Option<Vec<LocatorModel>>) -> (list: MatchList)
    requires
        rows matches Some(v) ==> forall|i: int|
            0 <= i < v@.len() ==> (#[trigger] v@[i]).visits != i64::MIN,
    ensures
        list@ == match_list(keywords@, rows_view(rows)),
{
    if keywords.len() == 0 {
        return MatchList::Blank;
    }
    let mut ranked = match rows {
        None => {
            return MatchList::Unavailable;
        },
        Some(v) => v,
    };
    let ghost input = models_view(ranked@);
    sort_matches(&mut ranked, keywords);
    let ghost sorted = models_view(ranked@);
    let n = ranked.len();
    if n == 0 {
        return MatchList::NoMatches;
    }
    let mut entries: Vec<MatchEntry> = Vec::new();
    let mut i: usize = 0;
    while i < n
        invariant
            sorted == models_view(ranked@),
            sorted == sorted_by_rank(keywords@, input),
            n == sorted.len(),
            i <= n,
            entries_view(entries@) == sorted.take(i as int).map_values(
                |m: LocatorModelView| entry_of(m),
            ),
        decreases n - i,
    {
        let m = &ranked[i];
        let entry = MatchEntry {
            content: m.content.clone(),
            visits: m.visits,
            extra_keywords: extra_keywords_of(m),
        };
        let ghost before = entries_view(entries@);
        proof {
            assert(sorted[i as int] == ranked@[i as int]@);
            assert(entry@ == entry_of(sorted[i as int]));
        }
        entries.push(entry);
        proof {
            assert(entries_view(entries@) =~= before.push(entry_of(sorted[i as int])));
            assert(sorted.take(i + 1) =~= sorted.take(i as int).push(sorted[i as int]));
            assert(entries_view(entries@) =~= sorted.take(i + 1).map_values(
                |m: LocatorModelView| entry_of(m),
            ));
        }
        i = i + 1;
    }
    proof {
        assert(sorted.take(n as int) =~= sorted);
    }
    MatchList::Entries(entries)
}

/// The matches shown for some keywords are the rows ranked for those
/// keywords: "no matches" exactly when there are no rows; otherwise one entry
/// per row, in an order of the same rows, each as often, in which every row
/// ranks at most as every later one under the rank for the keywords typed.
/// The first entry shows a row that ranks at most as every row, and it is the
/// locator that a search for the same keywords, over the same rows, goes to.
pub proof fn lemma_matches_agree_with_search(keys: Seq<Seq<char>>, rows: Seq<LocatorModelView>)
    requires
        keys.len() > 0,
    ensures
        (match_list(keys, Some(rows)) == MatchListView::NoMatches) <==> rows.len() == 0,
        rows.len() > 0 ==> match_list(keys, Some(rows)) is Entries,
        match_list(keys, Some(rows)) matches MatchListView::Entries(es) ==> {
            &&& es.len() == rows.len()
            &&& exists|ranked: Seq<LocatorModelView>| {
                &&& ranked.to_multiset() == rows.to_multiset()
                &&& rank_sorted(keys, ranked)
                &&& es == ranked.map_values(|m: LocatorModelView| entry_of(m))
                &&& rows.contains(ranked[0])
                &&& forall|i: int| 0 <= i < rows.len() ==> rank_le(
                    match_rank(keys, ranked[0]),
                    #[trigger] match_rank(keys, rows[i]),
                )
            }
            &&& run(start(CommandView::Search(keys)), seq![OutcomeView::Rows(rows), OutcomeView::Done]).1
                == StepView::Done(CommandResultView::NavigateTo(es[0].content))
        },
{
    broadcast use vstd::seq_lib::group_to_multiset_ensures;

    let ranked = sorted_by_rank(keys, rows);
    lemma_sorted_by_rank(keys, rows);
    lemma_search_run(keys, rows);
    assert(ranked.len() == rows.len()) by {
        assert(ranked.to_multiset().len() == rows.to_multiset().len());
    }
}

} // verus!

//! The query that finds the stored locators matching a set of keywords.

use vstd::prelude::*;
use vstd::string::StringExecFns;
use crate::keywords::Keywords;
use crate::text::is_white_space;

verus! {

/// A part of a query: SQL text, or a value bound to a placeholder.
#[derive(Debug)]
pub enum QueryPiece {
    Sql(String),
    Bind(String),
}

/// A part of a query seen as plain values.
pub enum QueryPieceView {
    Sql(Seq<char>),
    Bind(Seq<char>),
}

impl View for QueryPiece {
    type V = QueryPieceView;

    open spec fn view(&self) -> QueryPieceView {
        match self {
            QueryPiece::Sql(s) => QueryPieceView::Sql(s@),
            QueryPiece::Bind(s) => QueryPieceView::Bind(s@),
        }
    }
}

/// The plain values of a query.
pub open spec fn pieces_view(v: Seq<QueryPiece>) -> Seq<QueryPieceView> {
    v.map_values(|p: QueryPiece| p@)
}

/// The opening of the query: the locators that match every keyword.
pub open spec fn match_opening() -> Seq<char> {
    r#"
        with match as (
        "#@
}

/// The subquery for one keyword: locators with a keyword that starts with it.
pub open spec fn keyword_subquery() -> Seq<char> {
    r#"
            select distinct l.id
            from locator l
            join locator_keyword j on l.id = j.locator_id
            join keyword k on k.id = j.keyword_id
            where k.content like 
            "#@
}

/// What joins the subqueries of two keywords.
pub open spec fn intersect_sql() -> Seq<char> {
    " intersect "@
}

/// The closing of the query: each matching locator with its visits and all
/// its keywords, separated by spaces.
pub open spec fn match_closing() -> Seq<char> {
    r#"
        )
        select l.id, l.content, l.visits, group_concat(k.content, ' ') as keywords
        from locator l
        join match m on m.id = l.id
        join locator_keyword j on l.id = j.locator_id
        join keyword k on k.id = j.keyword_id
        group by l.id
        "#@
}

/// The subqueries of the keywords, joined by `intersect`, each with the
/// keyword as a prefix pattern bound to it.
pub open spec fn keyword_pieces(keys: Seq<Seq<char>>) -> Seq<QueryPieceView>
    decreases keys.len(),
{
    if keys.len() == 0 {
        Seq::empty()
    } else {
        let joint = if keys.len() > 1 {
            seq![QueryPieceView::Sql(intersect_sql())]
        } else {
            Seq::empty()
        };
        keyword_pieces(keys.drop_last()) + joint + seq![
            QueryPieceView::Sql(keyword_subquery()),
            QueryPieceView::Bind(keys.last() + "%"@),
        ]
    }
}

/// The query for a set of keywords; none for no keywords, which match
/// nothing.
pub open spec fn match_query(keys: Seq<Seq<char>>) -> Option<Seq<QueryPieceView>> {
    if keys.len() == 0 {
        None
    } else {
        Some(
            seq![QueryPieceView::Sql(match_opening())] + keyword_pieces(keys) + seq![
                QueryPieceView::Sql(match_closing()),
            ],
        )
    }
}

/// Builds the query that finds the locators stored under every keyword
/// (each as the prefix of a stored keyword), or nothing for no keywords.
pub fn matches_query(keywords: &Keywords) -> (q: Option<Vec<QueryPiece>>)
    ensures
        match q {
            Some(v) => match_query(keywords@) == Some(pieces_view(v@)),
            None => match_query(keywords@) is None,
        },
{
    let n = keywords.len();
    if n == 0 {
        return None;
    }
    let mut pieces: Vec<QueryPiece> = Vec::new();
    pieces.push(QueryPiece::Sql(String::from_str(r#"
        with match as (
        "#)));
    let mut i: usize = 0;
    proof {
        assert(keywords@.take(0) =~= Seq::<Seq<char>>::empty());
        assert(pieces_view(pieces@) =~= seq![QueryPieceView::Sql(match_opening())]
            + keyword_pieces(keywords@.take(0)));
    }
    while i < n
        invariant
            n == keywords@.len(),
            i <= n,
            pieces_view(pieces@) == seq![QueryPieceView::Sql(match_opening())] + keyword_pieces(
                keywords@.take(i as int),
            ),
        decreases n - i,
    {
        let ghost before = pieces_view(pieces@);
        if i > 0 {
            pieces.push(QueryPiece::Sql(String::from_str(" intersect ")));
        }
        pieces.push(QueryPiece::Sql(String::from_str(r#"
            select distinct l.id
            from locator l
            join locator_keyword j on l.id = j.locator_id
            join keyword k on k.id = j.keyword_id
            where k.content like 
            "#)));
        let mut pattern = keywords.get(i).clone();
        pattern.append("%");
        pieces.push(QueryPiece::Bind(pattern));
        proof {
            let t = keywords@.take(i + 1);
            assert(t.drop_last() =~= keywords@.take(i as int));
            assert(t.last() == keywords@[i as int]);
            let joint = if i > 0 {
                seq![QueryPieceView::Sql(intersect_sql())]
            } else {
                Seq::<QueryPieceView>::empty()
            };
            assert(pieces_view(pieces@) =~= before + joint + seq![
                QueryPieceView::Sql(keyword_subquery()),
                QueryPieceView::Bind(t.last() + "%"@),
            ]);
        }
        i = i + 1;
    }
    let ghost before = pieces_view(pieces@);
    pieces.push(QueryPiece::Sql(String::from_str(r#"
        )
        select l.id, l.content, l.visits, group_concat(k.content, ' ') as keywords
        from locator l
        join match m on m.id = l.id
        join locator_keyword j on l.id = j.locator_id
        join keyword k on k.id = j.keyword_id
        group by l.id
        "#)));
    proof {
        assert(keywords@.take(n as int) =~= keywords@);
        assert(pieces_view(pieces@) =~= before + seq![QueryPieceView::Sql(match_closing())]);
    }
    Some(pieces)
}

/// The values a query binds, in order.
pub open spec fn binds_of(ps: Seq<QueryPieceView>) -> Seq<Seq<char>>
    decreases ps.len(),
{
    if ps.len() == 0 {
        Seq::empty()
    } else {
        let before = binds_of(ps.drop_last());
        match ps.last() {
            QueryPieceView::Bind(b) => before.push(b),
            QueryPieceView::Sql(_) => before,
        }
    }
}

proof fn lemma_binds_of_concat(a: Seq<QueryPieceView>, b: Seq<QueryPieceView>)
    ensures
        binds_of(a + b) == binds_of(a) + binds_of(b),
    decreases b.len(),
{
    if b.len() == 0 {
        assert(a + b =~= a);
        assert(binds_of(a) + binds_of(b) =~= binds_of(a));
    } else {
        lemma_binds_of_concat(a, b.drop_last());
        assert((a + b).drop_last() =~= a + b.drop_last());
        assert((a + b).last() == b.last());
        match b.last() {
            QueryPieceView::Bind(x) => {
                assert(binds_of(a) + binds_of(b.drop_last()).push(x) =~= (binds_of(a) + binds_of(
                    b.drop_last(),
                )).push(x));
            },
            QueryPieceView::Sql(_) => {},
        }
    }
}

/// The patterns of the keywords: each keyword followed by `%`, so that it
/// matches the stored keywords it begins.
pub open spec fn prefix_patterns(keys: Seq<Seq<char>>) -> Seq<Seq<char>> {
    keys.map_values(|k: Seq<char>| k + "%"@)
}

proof fn lemma_keyword_pieces_binds(keys: Seq<Seq<char>>)
    ensures
        binds_of(keyword_pieces(keys)) == prefix_patterns(keys),
    decreases keys.len(),
{
    if keys.len() > 0 {
        lemma_keyword_pieces_binds(keys.drop_last());
        let joint = if keys.len() > 1 {
            seq![QueryPieceView::Sql(intersect_sql())]
        } else {
            Seq::<QueryPieceView>::empty()
        };
        let tail = seq![
            QueryPieceView::Sql(keyword_subquery()),
            QueryPieceView::Bind(keys.last() + "%"@),
        ];
        lemma_binds_of_concat(keyword_pieces(keys.drop_last()), joint);
        lemma_binds_of_concat(keyword_pieces(keys.drop_last()) + joint, tail);
        reveal_with_fuel(binds_of, 3);
        assert(tail.drop_last() =~= seq![QueryPieceView::Sql(keyword_subquery())]);
        assert(seq![QueryPieceView::Sql(keyword_subquery())].drop_last() =~= Seq::<QueryPieceView>::empty());
        assert(binds_of(tail) =~= seq![keys.last() + "%"@]);
        if keys.len() > 1 {
            assert(joint.drop_last() =~= Seq::<QueryPieceView>::empty());
        }
        assert(binds_of(joint) =~= Seq::<Seq<char>>::empty());
        assert(prefix_patterns(keys) =~= prefix_patterns(keys.drop_last()).push(keys.last() + "%"@));
        assert(prefix_patterns(keys.drop_last()) + Seq::<Seq<char>>::empty() + seq![keys.last() + "%"@]
            =~= prefix_patterns(keys.drop_last()).push(keys.last() + "%"@));
    }
}

/// The match query for some keywords binds, in order, exactly the prefix
/// patterns of the keywords: each keyword followed by `%`.
pub proof fn lemma_query_binds_prefix_patterns(keys: Seq<Seq<char>>)
    requires
        keys.len() > 0,
    ensures
        binds_of(match_query(keys)->Some_0) == prefix_patterns(keys),
{
    let head = seq![QueryPieceView::Sql(match_opening())];
    let last = seq![QueryPieceView::Sql(match_closing())];
    lemma_keyword_pieces_binds(keys);
    lemma_binds_of_concat(head, keyword_pieces(keys));
    lemma_binds_of_concat(head + keyword_pieces(keys), last);
    reveal_with_fuel(binds_of, 2);
    assert(head.drop_last() =~= Seq::<QueryPieceView>::empty());
    assert(last.drop_last() =~= Seq::<QueryPieceView>::empty());
    assert(binds_of(head) =~= Seq::<Seq<char>>::empty());
    assert(binds_of(last) =~= Seq::<Seq<char>>::empty());
    assert(Seq::<Seq<char>>::empty() + prefix_patterns(keys) + Seq::<Seq<char>>::empty()
        =~= prefix_patterns(keys));
}

/// The text that makes a subquery select by pattern.
pub open spec fn like_clause() -> Seq<char> {
    "where k.content like"@
}

/// Each keyword's subquery selects the stored keywords that its bound
/// pattern matches by `LIKE`: the subquery text ends in
/// `where k.content like`, followed by nothing but white space, so the
/// keyword's pattern (the keyword then `%`, see
/// `lemma_query_binds_prefix_patterns`) is the right side of `LIKE` and
/// matches exactly the stored keywords that begin with the keyword.
pub proof fn lemma_subquery_selects_by_like()
    ensures
        ({
            let q = keyword_subquery();
            exists|p: int|
                0 <= p && p + like_clause().len() <= q.len() && #[trigger] q.subrange(
                    p,
                    p + like_clause().len(),
                ) == like_clause() && forall|i: int|
                    p + like_clause().len() <= i < q.len() ==> is_white_space(#[trigger] q[i])
        }),
{
    reveal_strlit(r#"
            select distinct l.id
            from locator l
            join locator_keyword j on l.id = j.locator_id
            join keyword k on k.id = j.keyword_id
            where k.content like 
            "#);
    reveal_strlit("where k.content like");
    let q = keyword_subquery();
    assert(q.len() == 215);
    assert(like_clause().len() == 20);
    assert(q.subrange(181, 201) =~= like_clause());
    assert forall|i: int| 201 <= i < q.len() implies is_white_space(#[trigger] q[i]) by {}
    assert(q.subrange(181int, 181int + like_clause().len()) == like_clause());
}

/// Every bound value of a query comes right after a keyword's subquery, so
/// each pattern is what that subquery's `LIKE` compares with.
pub open spec fn binds_follow_subquery(ps: Seq<QueryPieceView>) -> bool {
    forall|q: int|
        0 <= q < ps.len() && (#[trigger] ps[q]) is Bind ==> q >= 1 && ps[q - 1]
            == QueryPieceView::Sql(keyword_subquery())
}

proof fn lemma_keyword_pieces_binds_follow(keys: Seq<Seq<char>>)
    ensures
        binds_follow_subquery(keyword_pieces(keys)),
    decreases keys.len(),
{
    if keys.len() > 0 {
        lemma_keyword_pieces_binds_follow(keys.drop_last());
        let rest = keyword_pieces(keys.drop_last());
        let joint = if keys.len() > 1 {
            seq![QueryPieceView::Sql(intersect_sql())]
        } else {
            Seq::<QueryPieceView>::empty()
        };
        let tail = seq![
            QueryPieceView::Sql(keyword_subquery()),
            QueryPieceView::Bind(keys.last() + "%"@),
        ];
        let ps = rest + joint + tail;
        assert(ps == keyword_pieces(keys));
        assert forall|q: int| 0 <= q < ps.len() && (#[trigger] ps[q]) is Bind implies q >= 1 && ps[q
            - 1] == QueryPieceView::Sql(keyword_subquery()) by {
            if q < rest.len() {
                assert(ps[q] == rest[q]);
                assert(ps[q - 1] == rest[q - 1]);
            } else if q < rest.len() + joint.len() {
                assert(ps[q] == joint[q - rest.len()]);
            } else if q == rest.len() + joint.len() {
                assert(ps[q] == tail[0]);
            } else {
                assert(ps[q - 1] == tail[0]);
            }
        }
    }
}

/// In the match query for some keywords, every bound pattern comes right
/// after the subquery that compares it by `LIKE`.
pub proof fn lemma_query_binds_follow_subquery(keys: Seq<Seq<char>>)
    requires
        keys.len() > 0,
    ensures
        binds_follow_subquery(match_query(keys)->Some_0),
{
    lemma_keyword_pieces_binds_follow(keys);
    let head = seq![QueryPieceView::Sql(match_opening())];
    let kp = keyword_pieces(keys);
    let last = seq![QueryPieceView::Sql(match_closing())];
    let ps = head + kp + last;
    assert(ps == match_query(keys)->Some_0);
    assert forall|q: int| 0 <= q < ps.len() && (#[trigger] ps[q]) is Bind implies q >= 1 && ps[q - 1]
        == QueryPieceView::Sql(keyword_subquery()) by {
        if q == 0 {
            assert(ps[q] == head[0]);
        } else if q <= kp.len() {
            assert(ps[q] == kp[q - 1]);
            assert(kp[q - 1] is Bind);
            assert(ps[q - 1] == kp[q - 2]);
        } else {
            assert(ps[q] == last[0]);
        }
    }
}

} // verus!

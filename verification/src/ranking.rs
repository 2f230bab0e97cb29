//! Ranking matches: how well the keywords stored with a locator fit the
//! keywords searched for, and the order of the matches.

use vstd::prelude::*;
use vstd::string::StrSliceExecFns;
use crate::keywords::Keywords;
use crate::text::{char_vec, split_pieces};

verus! {

/// A stored locator with its visits and its keywords, separated by spaces.
#[derive(Debug)]
pub struct LocatorModel {
    pub id: i64,
    pub content: String,
    pub visits: i64,
    pub keywords: String,
}

/// A stored locator seen as plain values.
pub struct LocatorModelView {
    pub id: i64,
    pub content: Seq<char>,
    pub visits: i64,
    pub keywords: Seq<char>,
}

impl View for LocatorModel {
    type V = LocatorModelView;

    open spec fn view(&self) -> LocatorModelView {
        LocatorModelView {
            id: self.id,
            content: self.content@,
            visits: self.visits,
            keywords: self.keywords@,
        }
    }
}

/// The plain values of a list of stored locators.
pub open spec fn models_view(v: Seq<LocatorModel>) -> Seq<LocatorModelView> {
    v.map_values(|m: LocatorModel| m@)
}

/// The place of a match in the order: fewer is better, field by field.
#[derive(Clone, Copy, Debug, PartialEq, Eq)]
pub struct Rank {
    /// Minus the number of keywords found in order among the stored ones.
    pub neg_perfect: i32,
    /// How many stored keywords are left over, capped: 0, 1, 2 (for 2 or 3), or 3.
    pub relevance_group: i32,
    /// Minus the number of visits.
    pub neg_visits: i64,
}

/// The order of ranks: field by field, the first difference decides.
pub open spec fn rank_le(a: Rank, b: Rank) -> bool {
    ||| a.neg_perfect < b.neg_perfect
    ||| (a.neg_perfect == b.neg_perfect && a.relevance_group < b.relevance_group)
    ||| (a.neg_perfect == b.neg_perfect && a.relevance_group == b.relevance_group
        && a.neg_visits <= b.neg_visits)
}

/// Compares two ranks in the order `rank_le`.
pub fn rank_at_most(a: Rank, b: Rank) -> (le: bool)
    ensures
        le == rank_le(a, b),
{
    if a.neg_perfect != b.neg_perfect {
        a.neg_perfect < b.neg_perfect
    } else if a.relevance_group != b.relevance_group {
        a.relevance_group < b.relevance_group
    } else {
        a.neg_visits <= b.neg_visits
    }
}

/// The pieces of a text between its spaces, as `str::split(" ")` gives them.
pub open spec fn space_pieces(s: Seq<char>) -> Seq<Seq<char>> {
    split_pieces(s, |c: char| c == ' ')
}

/// The plain values of a list of strings.
pub open spec fn strings_view(v: Seq<String>) -> Seq<Seq<char>> {
    v.map_values(|s: String| s@)
}

/// The pieces of `s` between its spaces, empty ones included.
pub fn split_spaces(s: &str) -> (pieces: Vec<String>)
    ensures
        strings_view(pieces@) == space_pieces(s@),
{
    let chars = char_vec(s);
    let n = chars.len();
    let mut pieces: Vec<String> = Vec::new();
    let mut start: usize = 0;
    let mut i: usize = 0;
    proof {
        assert(chars@.take(0) =~= Seq::<char>::empty());
        assert(chars@.subrange(0, 0) =~= Seq::<char>::empty());
        assert(space_pieces(Seq::<char>::empty()) =~= strings_view(pieces@).push(Seq::<char>::empty()));
    }
    while i < n
        invariant
            chars@ == s@,
            n == chars@.len(),
            start <= i <= n,
            space_pieces(chars@.take(i as int)) == strings_view(pieces@).push(
                chars@.subrange(start as int, i as int),
            ),
        decreases n - i,
    {
        let ghost before = strings_view(pieces@);
        proof {
            assert(chars@.take(i + 1).drop_last() =~= chars@.take(i as int));
        }
        if chars[i] == ' ' {
            let piece = s.substring_char(start, i).to_owned();
            pieces.push(piece);
            start = i + 1;
            proof {
                assert(strings_view(pieces@) =~= before.push(piece@));
                assert(chars@.subrange(start as int, i + 1) =~= Seq::<char>::empty());
            }
        } else {
            proof {
                let ps = before.push(chars@.subrange(start as int, i as int));
                assert(chars@.subrange(start as int, i as int).push(chars@[i as int]) =~= chars@.subrange(
                    start as int,
                    i + 1,
                ));
                assert(ps.update(ps.len() - 1, ps.last().push(chars@[i as int])) =~= before.push(
                    chars@.subrange(start as int, i + 1),
                ));
            }
        }
        i = i + 1;
    }
    let ghost before = strings_view(pieces@);
    let piece = s.substring_char(start, n).to_owned();
    pieces.push(piece);
    proof {
        assert(chars@.take(n as int) =~= chars@);
        assert(strings_view(pieces@) =~= before.push(piece@));
    }
    pieces
}

/// The first position at or after `p` where `pieces` holds `k`.
pub open spec fn first_match_from(pieces: Seq<Seq<char>>, k: Seq<char>, p: int) -> Option<int>
    decreases pieces.len() - p,
{
    if p < 0 || p >= pieces.len() {
        None
    } else if pieces[p] == k {
        Some(p)
    } else {
        first_match_from(pieces, k, p + 1)
    }
}

/// Looks for the keys one after another in `pieces`, each from just after
/// where the previous one was found; once a key is missing the search has
/// used up the pieces, so the keys after it are missing too. Gives how many
/// keys were found and the position where the search stopped.
pub open spec fn consume(keys: Seq<Seq<char>>, pieces: Seq<Seq<char>>, p: int) -> (nat, int)
    decreases keys.len(),
{
    if keys.len() == 0 {
        (0, p)
    } else {
        match first_match_from(pieces, keys[0], p) {
            Some(j) => {
                let r = consume(keys.drop_first(), pieces, j + 1);
                ((r.0 + 1) as nat, r.1)
            },
            None => consume(keys.drop_first(), pieces, pieces.len() as int),
        }
    }
}

/// A count as an `i32`, or 0 where it does not fit.
pub open spec fn i32_or_zero(n: int) -> int {
    if n <= i32::MAX {
        n
    } else {
        0
    }
}

/// The rank of a stored locator for the keys searched for: minus the keys
/// found in order among its stored keywords; how many stored keywords are
/// left after the last place the search looked, less the keys found,
/// grouped as 0, 1, 2 (for 2 or 3) or 3 (for more); minus its visits.
pub open spec fn match_rank(keys: Seq<Seq<char>>, m: LocatorModelView) -> Rank {
    let pieces = space_pieces(m.keywords);
    let r = consume(keys, pieces, 0);
    let perfect = i32_or_zero(r.0 as int);
    let imperfect = i32_or_zero(pieces.len() - r.1) - perfect;
    let group = if imperfect < 3 {
        imperfect
    } else if imperfect == 3 {
        2
    } else {
        3
    };
    Rank {
        neg_perfect: (-perfect) as i32,
        relevance_group: group as i32,
        neg_visits: (-m.visits) as i64,
    }
}

proof fn lemma_consume_bounds(keys: Seq<Seq<char>>, pieces: Seq<Seq<char>>, p: int)
    requires
        0 <= p <= pieces.len(),
    ensures
        consume(keys, pieces, p).0 <= keys.len(),
        p <= consume(keys, pieces, p).1 <= pieces.len(),
    decreases keys.len(),
{
    if keys.len() > 0 {
        lemma_first_match_bounds(pieces, keys[0], p);
        match first_match_from(pieces, keys[0], p) {
            Some(j) => lemma_consume_bounds(keys.drop_first(), pieces, j + 1),
            None => lemma_consume_bounds(keys.drop_first(), pieces, pieces.len() as int),
        }
    }
}

proof fn lemma_first_match_bounds(pieces: Seq<Seq<char>>, k: Seq<char>, p: int)
    ensures
        first_match_from(pieces, k, p) matches Some(j) ==> p <= j < pieces.len() && pieces[j] == k,
    decreases pieces.len() - p,
{
    if 0 <= p < pieces.len() && pieces[p] != k {
        lemma_first_match_bounds(pieces, k, p + 1);
    }
}

/// Finds the first position at or after `p` where `pieces` holds `key`,
/// or the number of pieces where there is none.
fn find_from(pieces: &Vec<String>, key: &String, p: usize) -> (j: usize)
    requires
        p <= pieces@.len(),
    ensures
        first_match_from(strings_view(pieces@), key@, p as int) matches Some(q) ==> j == q,
        first_match_from(strings_view(pieces@), key@, p as int) is None ==> j == pieces@.len(),
{
    let ghost pv = strings_view(pieces@);
    let mut j = p;
    while j < pieces.len() && !pieces[j].eq(key)
        invariant
            pv == strings_view(pieces@),
            p <= j <= pieces@.len(),
            first_match_from(pv, key@, p as int) == first_match_from(pv, key@, j as int),
        decreases pieces@.len() - j,
    {
        j = j + 1;
    }
    j
}

/// The rank of a stored locator for the keywords searched for.
pub fn rank_match(keywords: &Keywords, m: &LocatorModel) -> (r: Rank)
    requires
        m.visits != i64::MIN,
    ensures
        r == match_rank(keywords@, m@),
{
    let pieces = split_spaces(m.keywords.as_str());
    let ghost pv = strings_view(pieces@);
    let ghost keys = keywords@;
    let n = keywords.len();
    let total = pieces.len();
    let mut count: usize = 0;
    let mut p: usize = 0;
    let mut i: usize = 0;
    proof {
        assert(keys.skip(0) =~= keys);
    }
    while i < n
        invariant
            n == keys.len(),
            keys == keywords@,
            pv == strings_view(pieces@),
            total == pv.len(),
            i <= n,
            count <= i,
            p <= total,
            consume(keys, pv, 0) == ((count + consume(keys.skip(i as int), pv, p as int).0) as nat,
                consume(keys.skip(i as int), pv, p as int).1),
        decreases n - i,
    {
        let ghost rest = keys.skip(i as int);
        proof {
            assert(rest[0] == keys[i as int]);
            assert(rest.drop_first() =~= keys.skip(i + 1));
            lemma_first_match_bounds(pv, rest[0], p as int);
        }
        let j = find_from(&pieces, keywords.get(i), p);
        if j < total {
            count = count + 1;
            p = j + 1;
        } else {
            p = total;
        }
        i = i + 1;
    }
    proof {
        assert(keys.skip(n as int) =~= Seq::<Seq<char>>::empty());
    }
    let perfect: i32 = if count <= 0x7fff_ffff {
        count as i32
    } else {
        0
    };
    let left = total - p;
    let left32: i32 = if left <= 0x7fff_ffff {
        left as i32
    } else {
        0
    };
    let imperfect: i32 = left32 - perfect;
    let group: i32 = if imperfect < 3 {
        imperfect
    } else if imperfect == 3 {
        2
    } else {
        3
    };
    Rank { neg_perfect: -perfect, relevance_group: group, neg_visits: -m.visits }
}

/// Puts `x` after the last entry of `s` whose rank is at most its own,
/// looking from the end: into a list sorted by rank, after its equals.
pub open spec fn insert_by_rank(
    keys: Seq<Seq<char>>,
    s: Seq<LocatorModelView>,
    x: LocatorModelView,
) -> Seq<LocatorModelView>
    decreases s.len(),
{
    if s.len() == 0 {
        seq![x]
    } else if rank_le(match_rank(keys, s.last()), match_rank(keys, x)) {
        s.push(x)
    } else {
        insert_by_rank(keys, s.drop_last(), x).push(s.last())
    }
}

/// The matches sorted by rank, those of equal rank in their first order
/// (a stable sort).
pub open spec fn sorted_by_rank(keys: Seq<Seq<char>>, s: Seq<LocatorModelView>) -> Seq<
    LocatorModelView,
>
    decreases s.len(),
{
    if s.len() == 0 {
        s
    } else {
        insert_by_rank(keys, sorted_by_rank(keys, s.drop_last()), s.last())
    }
}

/// Sorts the matches by their rank for the keywords, stably.
pub fn sort_matches(matches: &mut Vec<LocatorModel>, keywords: &Keywords)
    requires
        forall|i: int| 0 <= i < old(matches)@.len() ==> (#[trigger] old(matches)@[i]).visits != i64::MIN,
    ensures
        models_view(final(matches)@) == sorted_by_rank(keywords@, models_view(old(matches)@)),
        rank_sorted(keywords@, models_view(final(matches)@)),
        models_view(final(matches)@).to_multiset() == models_view(old(matches)@).to_multiset(),
{
    let ghost keys = keywords@;
    let ghost input = models_view(matches@);
    let mut rest: Vec<LocatorModel> = Vec::new();
    std::mem::swap(matches, &mut rest);
    let n = rest.len();
    let mut out: Vec<LocatorModel> = Vec::new();
    let mut ranks: Vec<Rank> = Vec::new();
    let mut i: usize = 0;
    proof {
        assert(input.take(0) =~= Seq::<LocatorModelView>::empty());
        assert(models_view(out@) =~= Seq::<LocatorModelView>::empty());
        assert(models_view(rest@) =~= input.skip(0));
    }
    while i < n
        invariant
            keys == keywords@,
            n == input.len(),
            i <= n,
            models_view(rest@) == input.skip(i as int),
            rest@.len() == n - i,
            forall|k: int| 0 <= k < rest@.len() ==> (#[trigger] rest@[k]).visits != i64::MIN,
            models_view(out@) == sorted_by_rank(keys, input.take(i as int)),
            ranks@.len() == out@.len(),
            forall|k: int| 0 <= k < out@.len() ==> #[trigger] ranks@[k] == match_rank(keys, out@[k]@),
        decreases n - i,
    {
        let ghost sorted = models_view(out@);
        assert(models_view(rest@)[0] == rest@[0]@);
        assert(input.skip(i as int)[0] == input[i as int]);
        let ghost rest_before = rest@;
        let x = rest.remove(0);
        let rx = rank_match(keywords, &x);
        let mut j = out.len();
        proof {
            assert(sorted.take(j as int) =~= sorted);
            assert(sorted.skip(j as int) =~= Seq::<LocatorModelView>::empty());
        }
        while j > 0 && !rank_at_most(ranks[j - 1], rx)
            invariant
                sorted == models_view(out@),
                ranks@.len() == out@.len(),
                forall|k: int| 0 <= k < out@.len() ==> #[trigger] ranks@[k] == match_rank(keys, out@[k]@),
                rx == match_rank(keys, x@),
                j <= out@.len(),
                insert_by_rank(keys, sorted, x@) == insert_by_rank(keys, sorted.take(j as int), x@)
                    + sorted.skip(j as int),
            decreases j,
        {
            proof {
                let t = sorted.take(j as int);
                assert(t.last() == sorted[j - 1]);
                assert(ranks@[j - 1] == match_rank(keys, sorted[j - 1]));
                assert(t.drop_last() =~= sorted.take(j - 1));
                assert(insert_by_rank(keys, sorted.take(j - 1), x@).push(sorted[j - 1]) + sorted.skip(
                    j as int,
                ) =~= insert_by_rank(keys, sorted.take(j - 1), x@) + sorted.skip(j - 1));
            }
            j = j - 1;
        }
        proof {
            if j > 0 {
                let t = sorted.take(j as int);
                assert(t.last() == sorted[j - 1]);
                assert(ranks@[j - 1] == match_rank(keys, sorted[j - 1]));
                assert(t.push(x@) + sorted.skip(j as int) =~= sorted.insert(j as int, x@));
            } else {
                assert(sorted.take(0) =~= Seq::<LocatorModelView>::empty());
                assert(seq![x@] + sorted.skip(0) =~= sorted.insert(0, x@));
            }
            assert(input.take(i + 1).drop_last() =~= input.take(i as int));
            assert(input.take(i + 1).last() == x@);
        }
        let ghost ranks_before = ranks@;
        let ghost out_before = out@;
        out.insert(j, x);
        ranks.insert(j, rx);
        proof {
            assert(models_view(out@) =~= sorted.insert(j as int, x@));
            assert forall|k: int| 0 <= k < rest@.len() implies models_view(rest@)[k] == input.skip(
                i + 1,
            )[k] by {
                assert(rest@[k] == rest_before[k + 1]);
                assert(models_view(rest_before)[k + 1] == input.skip(i as int)[k + 1]);
            }
            assert(models_view(rest@) =~= input.skip(i + 1));
            assert forall|k: int| 0 <= k < out@.len() implies #[trigger] ranks@[k] == match_rank(
                keys,
                out@[k]@,
            ) by {
                if k < j {
                } else if k > j {
                    assert(ranks@[k] == ranks_before[k - 1]);
                    assert(out@[k] == out_before[k - 1]);
                }
            }
        }
        i = i + 1;
    }
    proof {
        assert(input.take(n as int) =~= input);
        lemma_sorted_by_rank(keys, input);
    }
    *matches = out;
}

/// Every match ranks at most as every later one.
pub open spec fn rank_sorted(keys: Seq<Seq<char>>, s: Seq<LocatorModelView>) -> bool {
    forall|i: int, j: int|
        0 <= i < j < s.len() ==> rank_le(
            #[trigger] match_rank(keys, s[i]),
            #[trigger] match_rank(keys, s[j]),
        )
}

proof fn lemma_insert_by_rank(keys: Seq<Seq<char>>, s: Seq<LocatorModelView>, x: LocatorModelView)
    requires
        rank_sorted(keys, s),
    ensures
        rank_sorted(keys, insert_by_rank(keys, s, x)),
        insert_by_rank(keys, s, x).to_multiset() == s.to_multiset().insert(x),
    decreases s.len(),
{
    broadcast use vstd::seq_lib::group_to_multiset_ensures;

    if s.len() == 0 {
        assert(seq![x] =~= s.push(x));
    } else if rank_le(match_rank(keys, s.last()), match_rank(keys, x)) {
        let t = s.push(x);
        assert forall|i: int, j: int| 0 <= i < j < t.len() implies rank_le(
            #[trigger] match_rank(keys, t[i]),
            #[trigger] match_rank(keys, t[j]),
        ) by {
            if j == s.len() {
                if i < s.len() - 1 {
                    assert(rank_le(match_rank(keys, s[i]), match_rank(keys, s[s.len() - 1])));
                }
            }
        }
    } else {
        let d = s.drop_last();
        assert(rank_sorted(keys, d));
        lemma_insert_by_rank(keys, d, x);
        let u = insert_by_rank(keys, d, x);
        let t = u.push(s.last());
        assert forall|k: int| 0 <= k < u.len() implies rank_le(
            #[trigger] match_rank(keys, u[k]),
            match_rank(keys, s.last()),
        ) by {
            assert(u.contains(u[k]));
            assert(u.to_multiset().count(u[k]) > 0);
            if u[k] != x {
                assert(d.to_multiset().count(u[k]) > 0);
                assert(d.contains(u[k]));
                let m = choose|m: int| 0 <= m < d.len() && d[m] == u[k];
                assert(rank_le(match_rank(keys, s[m]), match_rank(keys, s[s.len() - 1])));
            }
        }
        assert forall|i: int, j: int| 0 <= i < j < t.len() implies rank_le(
            #[trigger] match_rank(keys, t[i]),
            #[trigger] match_rank(keys, t[j]),
        ) by {
            if j == u.len() {
                assert(rank_le(match_rank(keys, u[i]), match_rank(keys, s.last())));
            } else {
                assert(rank_le(match_rank(keys, u[i]), match_rank(keys, u[j])));
            }
        }
        assert(d.push(s.last()) =~= s);
    }
}

/// Sorting by rank gives a list in which every match ranks at most as every
/// later one, and which holds the same matches, each as often.
pub proof fn lemma_sorted_by_rank(keys: Seq<Seq<char>>, s: Seq<LocatorModelView>)
    ensures
        rank_sorted(keys, sorted_by_rank(keys, s)),
        sorted_by_rank(keys, s).to_multiset() == s.to_multiset(),
    decreases s.len(),
{
    broadcast use vstd::seq_lib::group_to_multiset_ensures;

    if s.len() > 0 {
        lemma_sorted_by_rank(keys, s.drop_last());
        lemma_insert_by_rank(keys, sorted_by_rank(keys, s.drop_last()), s.last());
        assert(s.drop_last().push(s.last()) =~= s);
    }
}

/// A list already sorted by rank is left as it is by sorting.
pub proof fn lemma_sorted_list_unchanged(keys: Seq<Seq<char>>, s: Seq<LocatorModelView>)
    requires
        rank_sorted(keys, s),
    ensures
        sorted_by_rank(keys, s) == s,
    decreases s.len(),
{
    if s.len() > 0 {
        let d = s.drop_last();
        assert(rank_sorted(keys, d));
        lemma_sorted_list_unchanged(keys, d);
        if d.len() > 0 {
            assert(rank_le(match_rank(keys, s[d.len() - 1]), match_rank(keys, s[s.len() - 1])));
            assert(d.last() == s[d.len() - 1]);
        }
        assert(d.push(s.last()) =~= s);
    }
}

/// Sorting twice gives what sorting once gives: the order of ranked matches
/// is a fixed point.
pub proof fn lemma_sort_idempotent(keys: Seq<Seq<char>>, s: Seq<LocatorModelView>)
    ensures
        sorted_by_rank(keys, sorted_by_rank(keys, s)) == sorted_by_rank(keys, s),
{
    lemma_sorted_by_rank(keys, s);
    lemma_sorted_list_unchanged(keys, sorted_by_rank(keys, s));
}

/// The order of matches: one with more searched keywords found exactly
/// among its stored keywords comes first, whatever its leftover keywords and
/// visits; with as many found, the one with fewer leftover keywords comes
/// first, whatever the visits; with both equal, the one with more visits
/// comes first.
pub proof fn lemma_rank_order(a: Rank, b: Rank)
    ensures
        a.neg_perfect < b.neg_perfect ==> rank_le(a, b) && !rank_le(b, a),
        a.neg_perfect == b.neg_perfect && a.relevance_group < b.relevance_group ==> rank_le(a, b)
            && !rank_le(b, a),
        a.neg_perfect == b.neg_perfect && a.relevance_group == b.relevance_group ==> (rank_le(a, b)
            <==> a.neg_visits <= b.neg_visits),
        rank_le(a, b) || rank_le(b, a),
{
}

/// In sorted matches, the number of searched keywords found exactly never
/// grows from one match to a later one; where it stays the same, the
/// leftover-keyword group never shrinks; where both stay the same, the
/// visits never grow (for visits that can be negated).
pub proof fn lemma_sorted_exact_matches_first(keys: Seq<Seq<char>>, s: Seq<LocatorModelView>, i: int, j: int)
    requires
        0 <= i < j < sorted_by_rank(keys, s).len(),
    ensures
        ({
            let r = sorted_by_rank(keys, s);
            let a = match_rank(keys, r[i]);
            let b = match_rank(keys, r[j]);
            &&& -a.neg_perfect >= -b.neg_perfect
            &&& a.neg_perfect == b.neg_perfect ==> a.relevance_group <= b.relevance_group
            &&& a.neg_perfect == b.neg_perfect && a.relevance_group == b.relevance_group
                && r[i].visits != i64::MIN && r[j].visits != i64::MIN ==> r[i].visits >= r[j].visits
        }),
{
    lemma_sorted_by_rank(keys, s);
    let r = sorted_by_rank(keys, s);
    assert(rank_le(match_rank(keys, r[i]), match_rank(keys, r[j])));
    lemma_rank_order(match_rank(keys, r[i]), match_rank(keys, r[j]));
    lemma_neg_visits(keys, r[i]);
    lemma_neg_visits(keys, r[j]);
}

/// The last field of a rank is minus the visits, for visits that can be
/// negated.
pub proof fn lemma_neg_visits(keys: Seq<Seq<char>>, m: LocatorModelView)
    ensures
        m.visits != i64::MIN ==> match_rank(keys, m).neg_visits == -m.visits,
{
}

} // verus!

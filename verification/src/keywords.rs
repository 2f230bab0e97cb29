//! Keywords: the distinct, lower-cased words of a text, kept in order.

use vstd::prelude::*;
use vstd::utf8::is_ascii_chars;
use vstd::string::StrSliceExecFns;

use crate::text::{
    ascii_lowercase, ascii_upper, ascii_uppercase, char_vec, chars_less, chars_lt, is_alphanumeric, is_ascii_alphanumeric,
    join_pieces, lemma_chars_lt_irreflexive, lemma_chars_lt_total, lemma_chars_lt_transitive,
    lemma_split_pieces_nonempty, split_pieces, to_lowercase, unicode_alphanumeric,
    unicode_lowercase,
};

verus! {

/// Every entry comes strictly before every later one: sorted, no duplicates.
pub open spec fn strictly_sorted(s: Seq<Seq<char>>) -> bool {
    forall|i: int, j: int| 0 <= i < j < s.len() ==> chars_lt(#[trigger] s[i], #[trigger] s[j])
}

/// The pieces of a text between the characters that are not alphanumeric.
pub open spec fn terms_pieces(terms: Seq<char>) -> Seq<Seq<char>> {
    split_pieces(terms, word_break())
}

/// The characters between words: all that are not alphanumeric.
pub open spec fn word_break() -> spec_fn(char) -> bool {
    |c: char| !unicode_alphanumeric(c)
}

/// The images under `f` of the pieces that are not empty.
pub open spec fn mapped_words(pieces: Seq<Seq<char>>, f: spec_fn(Seq<char>) -> Seq<char>) -> Set<
    Seq<char>,
> {
    Set::new(
        |k: Seq<char>|
            exists|j: int| 0 <= j < pieces.len() && (#[trigger] pieces[j]).len() > 0 && k == f(pieces[j]),
    )
}

/// The lowercase forms of the pieces that are not empty.
pub open spec fn lowered_words(pieces: Seq<Seq<char>>) -> Set<Seq<char>> {
    mapped_words(pieces, |p: Seq<char>| unicode_lowercase(p))
}

/// The pieces of a text between the characters that are not ASCII letters
/// or digits.
pub open spec fn ascii_pieces(terms: Seq<char>) -> Seq<Seq<char>> {
    split_pieces(terms, ascii_break())
}

/// The characters between ASCII words: all but ASCII letters and digits.
pub open spec fn ascii_break() -> spec_fn(char) -> bool {
    |c: char| !is_ascii_alphanumeric(c)
}

/// The keywords of an ASCII text, described by ASCII alone: the ASCII
/// lowercase forms of its maximal runs of ASCII letters and digits.
pub open spec fn ascii_keyword_set(terms: Seq<char>) -> Set<Seq<char>> {
    ascii_words(ascii_pieces(terms))
}

/// The ASCII lowercase forms of the pieces that are not empty.
pub open spec fn ascii_words(pieces: Seq<Seq<char>>) -> Set<Seq<char>> {
    mapped_words(pieces, |p: Seq<char>| ascii_lowercase(p))
}

/// The keywords of a text: the lowercase forms of its maximal runs of
/// alphanumeric characters.
pub open spec fn keyword_set(terms: Seq<char>) -> Set<Seq<char>> {
    lowered_words(terms_pieces(terms))
}

/// The keywords of a text as a sequence: in the order of `str`, each once.
pub open spec fn sorted_keywords(terms: Seq<char>) -> Seq<Seq<char>> {
    choose|k: Seq<Seq<char>>| strictly_sorted(k) && k.to_set() == keyword_set(terms)
}

/// Two strictly sorted sequences with the same entries are the same
/// sequence: a set of keywords has one sorted listing.
pub proof fn lemma_sorted_listing_unique(a: Seq<Seq<char>>, b: Seq<Seq<char>>)
    requires
        strictly_sorted(a),
        strictly_sorted(b),
        a.to_set() == b.to_set(),
    ensures
        a == b,
    decreases a.len(),
{
    if a.len() == 0 {
        if b.len() > 0 {
            assert(b.to_set().contains(b[0]));
        }
        assert(a =~= b);
    } else {
        assert(a.to_set().contains(a[0]));
        if b.len() == 0 {
            assert(b.to_set().contains(a[0]));
        }
        assert(b.to_set().contains(b[0]));
        assert(a.contains(b[0]));
        assert(b.contains(a[0]));
        let i = choose|i: int| 0 <= i < a.len() && a[i] == b[0];
        let j = choose|j: int| 0 <= j < b.len() && b[j] == a[0];
        if i > 0 && j > 0 {
            assert(chars_lt(a[0], a[i]));
            assert(chars_lt(b[0], b[j]));
            lemma_chars_lt_total(a[0], b[0]);
        }
        assert(a[0] == b[0]);
        let ta = a.drop_first();
        let tb = b.drop_first();
        assert forall|x: Seq<char>| ta.contains(x) <==> tb.contains(x) by {
            if ta.contains(x) {
                let k = choose|k: int| 0 <= k < ta.len() && ta[k] == x;
                assert(a[k + 1] == x);
                assert(chars_lt(a[0], a[k + 1]));
                lemma_chars_lt_irreflexive(x);
                assert(a.contains(x));
                assert(b.to_set().contains(x));
                let m = choose|m: int| 0 <= m < b.len() && b[m] == x;
                assert(m != 0);
                assert(tb[m - 1] == x);
            }
            if tb.contains(x) {
                let k = choose|k: int| 0 <= k < tb.len() && tb[k] == x;
                assert(b[k + 1] == x);
                assert(chars_lt(b[0], b[k + 1]));
                lemma_chars_lt_irreflexive(x);
                assert(b.contains(x));
                assert(a.to_set().contains(x));
                let m = choose|m: int| 0 <= m < a.len() && a[m] == x;
                assert(m != 0);
                assert(ta[m - 1] == x);
            }
        }
        assert(ta.to_set() =~= tb.to_set());
        lemma_sorted_listing_unique(ta, tb);
        assert(a =~= seq![a[0]] + ta);
        assert(b =~= seq![b[0]] + tb);
    }
}

/// A set of keywords, held in the order of `str`, each once. They live in a
/// vector kept sorted: ranking walks them in that order, and vstd's
/// `BTreeSet` specifications hold only for keys whose ordering vstd
/// specifies, which `String`'s is not.
#[derive(Debug)]
pub struct Keywords {
    words: Vec<String>,
}

impl View for Keywords {
    type V = Seq<Seq<char>>;

    closed spec fn view(&self) -> Seq<Seq<char>> {
        self.words@.map_values(|w: String| w@)
    }
}

impl Keywords {
    #[verifier::type_invariant]
    spec fn sorted_words(self) -> bool {
        strictly_sorted(self@)
    }

    /// No keywords.
    pub fn new() -> (res: Keywords)
        ensures
            res@ == Seq::<Seq<char>>::empty(),
    {
        let res = Keywords { words: Vec::new() };
        assert(res@ =~= Seq::<Seq<char>>::empty());
        res
    }

    /// The number of keywords.
    pub fn len(&self) -> (n: usize)
        ensures
            n == self@.len(),
    {
        self.words.len()
    }

    /// The keyword at position `i` in order.
    pub fn get(&self, i: usize) -> (w: &String)
        requires
            i < self@.len(),
        ensures
            w@ == self@[i as int],
    {
        &self.words[i]
    }

    /// Whether `word` is one of the keywords.
    pub fn contains(&self, word: &String) -> (b: bool)
        ensures
            b == self@.contains(word@),
    {
        let n = self.words.len();
        let mut i: usize = 0;
        while i < n
            invariant
                n == self@.len(),
                i <= n,
                forall|k: int| 0 <= k < i ==> self@[k] != word@,
            decreases n - i,
        {
            if self.words[i].eq(word) {
                assert(self@[i as int] == word@);
                return true;
            }
            i = i + 1;
        }
        false
    }

    /// Adds a keyword, keeping the order; one that is already there is not
    /// added again.
    pub fn insert(&mut self, word: String)
        ensures
            final(self)@.to_set() == old(self)@.to_set().insert(word@),
            strictly_sorted(final(self)@),
            old(self)@.contains(word@) ==> final(self)@ == old(self)@,
            !old(self)@.contains(word@) ==> final(self)@.len() == old(self)@.len() + 1,
    {
        proof {
            use_type_invariant(&*self);
        }
        let ghost before = self@;
        let w = char_vec(word.as_str());
        let n = self.words.len();
        let mut pos: usize = 0;
        let mut stop = false;
        while pos < n && !stop
            invariant
                n == before.len(),
                self@ == before,
                strictly_sorted(before),
                w@ == word@,
                pos <= n,
                forall|k: int| 0 <= k < pos ==> chars_lt(#[trigger] before[k], w@),
                stop ==> pos < n && !chars_lt(before[pos as int], w@),
            decreases n - pos + (if stop { 0int } else { 1int }),
        {
            let cur = char_vec(self.words[pos].as_str());
            if chars_less(&cur, &w) {
                pos = pos + 1;
            } else {
                stop = true;
            }
        }
        if pos < n && self.words[pos].eq(&word) {
            assert(before[pos as int] == word@);
            assert(before.to_set().insert(word@) =~= before.to_set());
            return;
        }
        proof {
            if pos < n {
                lemma_chars_lt_total(before[pos as int], word@);
            }
            lemma_insert_sorted(before, pos as int, word@);
            assert forall|k: int| 0 <= k < n implies before[k] != word@ by {
                if k < pos {
                    lemma_chars_lt_irreflexive(word@);
                } else if k > pos {
                    lemma_chars_lt_total(before[k], word@);
                    lemma_chars_lt_transitive(word@, before[pos as int], before[k]);
                    lemma_chars_lt_total(before[k], word@);
                }
            }
        }
        let mut words: Vec<String> = Vec::new();
        std::mem::swap(&mut words, &mut self.words);
        let ghost old_words = words@;
        words.insert(pos, word);
        proof {
            assert(words@.map_values(|w: String| w@) =~= before.insert(pos as int, word@));
            lemma_insert_to_set(before, pos as int, word@);
            assert(!before.contains(word@));
        }
        self.words = words;
    }
}

/// The keywords of `terms`: its maximal runs of alphanumeric characters,
/// lower-cased, each once, in the order of `str`.
pub fn terms_to_keywords(terms: &str) -> (res: Keywords)
    ensures
        res@ == sorted_keywords(terms@),
        res@.to_set() == keyword_set(terms@),
        strictly_sorted(res@),
        is_ascii_chars(terms@) ==> forall|k: int|
            0 <= k < res@.len() ==> is_lower_ascii_word(#[trigger] res@[k]),
        is_ascii_chars(terms@) ==> res@.to_set() == ascii_keyword_set(terms@),
        forall|k: int| 0 <= k < res@.len() ==> (#[trigger] res@[k]).len() > 0,
{
    let chars = char_vec(terms);
    let n = chars.len();
    let mut kws = Keywords::new();
    let mut start: usize = 0;
    let mut i: usize = 0;
    proof {
        assert(chars@.take(0) =~= Seq::<char>::empty());
        assert(lowered_words(Seq::<Seq<char>>::empty()) =~= Set::<Seq<char>>::empty());
        assert(kws@.to_set() =~= Set::<Seq<char>>::empty());
        assert(terms_pieces(chars@.take(0)).drop_last() =~= Seq::<Seq<char>>::empty());
        assert(ascii_pieces(chars@.take(0)).drop_last() =~= Seq::<Seq<char>>::empty());
        assert(ascii_words(Seq::<Seq<char>>::empty()) =~= Set::<Seq<char>>::empty());
        assert(chars@.subrange(0, 0) =~= Seq::<char>::empty());
    }
    while i < n
        invariant
            chars@ == terms@,
            n == chars@.len(),
            start <= i <= n,
            terms_pieces(chars@.take(i as int)).len() >= 1,
            terms_pieces(chars@.take(i as int)).last() == chars@.subrange(start as int, i as int),
            kws@.to_set() == lowered_words(terms_pieces(chars@.take(i as int)).drop_last()),
            strictly_sorted(kws@),
            forall|j: int| start <= j < i ==> ascii_alphanumeric_if_ascii(#[trigger] chars@[j]),
            is_ascii_chars(terms@) ==> forall|k: int|
                0 <= k < kws@.len() ==> is_lower_ascii_word(#[trigger] kws@[k]),
            forall|k: int| 0 <= k < kws@.len() ==> (#[trigger] kws@[k]).len() > 0,
            ascii_pieces(chars@.take(i as int)).len() >= 1,
            is_ascii_chars(terms@) ==> ascii_pieces(chars@.take(i as int)).last() == chars@.subrange(
                start as int,
                i as int,
            ),
            is_ascii_chars(terms@) ==> kws@.to_set() == ascii_words(
                ascii_pieces(chars@.take(i as int)).drop_last(),
            ),
        decreases n - i,
    {
        let ghost ps = terms_pieces(chars@.take(i as int));
        let ghost qs = ascii_pieces(chars@.take(i as int));
        let c = chars[i];
        proof {
            assert(chars@.take(i + 1).drop_last() =~= chars@.take(i as int));
            assert(chars@.take(i + 1).last() == c);
            lemma_split_pieces_nonempty(chars@.take(i + 1), word_break());
            lemma_split_pieces_nonempty(chars@.take(i + 1), ascii_break());
        }
        let alnum = is_alphanumeric(c);
        if !alnum {
            proof {
                assert(terms_pieces(chars@.take(i + 1)) == ps.push(Seq::<char>::empty()));
                assert(ps.push(Seq::<char>::empty()).drop_last() =~= ps);
                assert(ps =~= ps.drop_last().push(ps.last()));
                lemma_lowered_words_push(ps.drop_last(), ps.last());
                assert(chars@.subrange(i + 1, i + 1) =~= Seq::<char>::empty());
                if is_ascii_chars(terms@) {
                    assert('\0' <= chars@[i as int] <= '\u{7f}');
                    assert(ascii_pieces(chars@.take(i + 1)) == qs.push(Seq::<char>::empty()));
                    assert(qs.push(Seq::<char>::empty()).drop_last() =~= qs);
                    assert(qs =~= qs.drop_last().push(qs.last()));
                    lemma_ascii_words_push(qs.drop_last(), qs.last());
                }
            }
            if start < i {
                add_word(&mut kws, terms, start, i);
            }
            start = i + 1;
        } else {
            proof {
                let ps2 = terms_pieces(chars@.take(i + 1));
                assert(ps2 == ps.update(ps.len() - 1, ps.last().push(c)));
                assert(ps2.drop_last() =~= ps.drop_last());
                assert(ps2.last() =~= chars@.subrange(start as int, i + 1));
                if is_ascii_chars(terms@) {
                    assert('\0' <= chars@[i as int] <= '\u{7f}');
                    let qs2 = ascii_pieces(chars@.take(i + 1));
                    assert(qs2 == qs.update(qs.len() - 1, qs.last().push(c)));
                    assert(qs2.drop_last() =~= qs.drop_last());
                    assert(qs2.last() =~= chars@.subrange(start as int, i + 1));
                }
            }
        }
        i = i + 1;
    }
    let ghost ps = terms_pieces(chars@.take(n as int));
    let ghost qs = ascii_pieces(chars@.take(n as int));
    proof {
        assert(chars@.take(n as int) =~= chars@);
        assert(ps =~= ps.drop_last().push(ps.last()));
        lemma_lowered_words_push(ps.drop_last(), ps.last());
        assert(qs =~= qs.drop_last().push(qs.last()));
        lemma_ascii_words_push(qs.drop_last(), qs.last());
    }
    if start < n {
        add_word(&mut kws, terms, start, n);
    }
    proof {
        let k = sorted_keywords(terms@);
        assert(strictly_sorted(k) && k.to_set() == keyword_set(terms@));
        lemma_sorted_listing_unique(kws@, k);
    }
    kws
}

/// A keyword as ASCII text gives it: ASCII digits and lowercase letters, at
/// least one.
pub open spec fn is_lower_ascii_word(w: Seq<char>) -> bool {
    &&& w.len() > 0
    &&& forall|j: int|
        0 <= j < w.len() ==> is_ascii_alphanumeric(#[trigger] w[j]) && !('A' <= w[j] && w[j] <= 'Z')
}

/// An ASCII character here is an ASCII letter or digit.
pub open spec fn ascii_alphanumeric_if_ascii(c: char) -> bool {
    c <= '\u{7f}' ==> is_ascii_alphanumeric(c)
}

/// Adds the lowercase form of the characters from `start` to `end` of
/// `terms`, a run of alphanumeric characters.
fn add_word(kws: &mut Keywords, terms: &str, start: usize, end: usize)
    requires
        start < end <= terms@.len(),
        forall|j: int| start <= j < end ==> ascii_alphanumeric_if_ascii(#[trigger] terms@[j]),
        is_ascii_chars(terms@) ==> forall|k: int|
            0 <= k < old(kws)@.len() ==> is_lower_ascii_word(#[trigger] old(kws)@[k]),
        forall|k: int| 0 <= k < old(kws)@.len() ==> (#[trigger] old(kws)@[k]).len() > 0,
    ensures
        final(kws)@.to_set() == old(kws)@.to_set().insert(
            unicode_lowercase(terms@.subrange(start as int, end as int)),
        ),
        is_ascii_chars(terms@) ==> final(kws)@.to_set() == old(kws)@.to_set().insert(
            ascii_lowercase(terms@.subrange(start as int, end as int)),
        ),
        strictly_sorted(final(kws)@),
        is_ascii_chars(terms@) ==> forall|k: int|
            0 <= k < final(kws)@.len() ==> is_lower_ascii_word(#[trigger] final(kws)@[k]),
        forall|k: int| 0 <= k < final(kws)@.len() ==> (#[trigger] final(kws)@[k]).len() > 0,
{
    let piece = terms.substring_char(start, end);
    let low = to_lowercase(piece);
    let ghost before = kws@;
    kws.insert(low);
    proof {
        assert forall|k: int| 0 <= k < kws@.len() implies (#[trigger] kws@[k]).len() > 0 by {
            assert(kws@.to_set().contains(kws@[k]));
            if kws@[k] != low@ {
                assert(before.to_set().contains(kws@[k]));
                let m = choose|m: int| 0 <= m < before.len() && before[m] == kws@[k];
                assert(before[m].len() > 0);
            }
        }
        if is_ascii_chars(terms@) {
            assert(is_ascii_chars(piece@)) by {
                assert forall|j: int| 0 <= j < piece@.len() implies '\0' <= #[trigger] piece@[j]
                    <= '\u{7f}' by {
                    assert(piece@[j] == terms@[start + j]);
                }
            }
            assert forall|j: int| 0 <= j < low@.len() implies is_ascii_alphanumeric(#[trigger] low@[j])
                && !('A' <= low@[j] && low@[j] <= 'Z') by {
                assert(piece@[j] == terms@[start + j]);
                assert(ascii_alphanumeric_if_ascii(terms@[start + j]));
            }
            assert(is_lower_ascii_word(low@));
            assert forall|k: int| 0 <= k < kws@.len() implies is_lower_ascii_word(#[trigger] kws@[k]) by {
                assert(kws@.to_set().contains(kws@[k]));
                if kws@[k] != low@ {
                    assert(before.to_set().contains(kws@[k]));
                    let m = choose|m: int| 0 <= m < before.len() && before[m] == kws@[k];
                    assert(is_lower_ascii_word(before[m]));
                }
            }
        }
    }
}

/// One more piece adds its image when it is not empty.
proof fn lemma_mapped_words_push(ps: Seq<Seq<char>>, p: Seq<char>, f: spec_fn(Seq<char>) -> Seq<char>)
    ensures
        mapped_words(ps.push(p), f) == (if p.len() > 0 {
            mapped_words(ps, f).insert(f(p))
        } else {
            mapped_words(ps, f)
        }),
{
    let qs = ps.push(p);
    let rhs = if p.len() > 0 {
        mapped_words(ps, f).insert(f(p))
    } else {
        mapped_words(ps, f)
    };
    assert forall|k: Seq<char>| mapped_words(qs, f).contains(k) <==> rhs.contains(k) by {
        if mapped_words(qs, f).contains(k) {
            let j = choose|j: int| 0 <= j < qs.len() && (#[trigger] qs[j]).len() > 0 && k == f(qs[j]);
            if j < ps.len() {
                assert(ps[j] == qs[j]);
            }
        }
        if mapped_words(ps, f).contains(k) {
            let j = choose|j: int| 0 <= j < ps.len() && (#[trigger] ps[j]).len() > 0 && k == f(ps[j]);
            assert(qs[j] == ps[j]);
        }
        if p.len() > 0 && k == f(p) {
            assert(qs[ps.len() as int] == p);
        }
    }
    assert(mapped_words(qs, f) =~= rhs);
}

/// One more piece adds its lowercase form when it is not empty.
proof fn lemma_lowered_words_push(ps: Seq<Seq<char>>, p: Seq<char>)
    ensures
        lowered_words(ps.push(p)) == (if p.len() > 0 {
            lowered_words(ps).insert(unicode_lowercase(p))
        } else {
            lowered_words(ps)
        }),
{
    lemma_mapped_words_push(ps, p, |p: Seq<char>| unicode_lowercase(p));
}

/// One more piece adds its ASCII lowercase form when it is not empty.
proof fn lemma_ascii_words_push(ps: Seq<Seq<char>>, p: Seq<char>)
    ensures
        ascii_words(ps.push(p)) == (if p.len() > 0 {
            ascii_words(ps).insert(ascii_lowercase(p))
        } else {
            ascii_words(ps)
        }),
{
    lemma_mapped_words_push(ps, p, |p: Seq<char>| ascii_lowercase(p));
}

/// Splitting a text that ends in a run without separators: the run extends
/// the last piece.
proof fn lemma_split_extend(a: Seq<char>, b: Seq<char>, sep: spec_fn(char) -> bool)
    requires
        forall|i: int| 0 <= i < b.len() ==> !sep(#[trigger] b[i]),
    ensures
        split_pieces(a + b, sep) == split_pieces(a, sep).update(
            split_pieces(a, sep).len() - 1,
            split_pieces(a, sep).last() + b,
        ),
    decreases b.len(),
{
    lemma_split_pieces_nonempty(a, sep);
    let pa = split_pieces(a, sep);
    if b.len() == 0 {
        assert(a + b =~= a);
        assert(pa.last() + b =~= pa.last());
        assert(pa.update(pa.len() - 1, pa.last()) =~= pa);
    } else {
        let c = b.drop_last();
        lemma_split_extend(a, c, sep);
        assert((a + b).drop_last() =~= a + c);
        assert((a + b).last() == b.last());
        assert(!sep(b[b.len() - 1]));
        assert((pa.last() + c).push(b.last()) =~= pa.last() + b);
        let pc = split_pieces(a + c, sep);
        assert(pc.update(pc.len() - 1, pc.last().push(b.last())) =~= pa.update(
            pa.len() - 1,
            pa.last() + b,
        ));
    }
}

/// Splitting words joined by spaces gives the words back, when no word
/// holds a separator and the space is one.
proof fn lemma_split_join(kws: Seq<Seq<char>>, sep: spec_fn(char) -> bool)
    requires
        kws.len() >= 1,
        forall|i: int, j: int| 0 <= i < kws.len() && 0 <= j < kws[i].len() ==> !sep(#[trigger] kws[i][j]),
        sep(' '),
    ensures
        split_pieces(join_pieces(kws, " "@), sep) == kws,
    decreases kws.len(),
{
    reveal_strlit(" ");
    let w = kws.last();
    assert forall|i: int| 0 <= i < w.len() implies !sep(#[trigger] w[i]) by {
        assert(w[i] == kws[kws.len() - 1][i]);
    }
    if kws.len() == 1 {
        let e = Seq::<char>::empty();
        lemma_split_extend(e, w, sep);
        assert(e + w =~= w);
        assert(split_pieces(e, sep) =~= seq![e]);
        assert(e + w =~= kws[0]);
        assert(seq![e].update(0, e + w) =~= kws);
    } else {
        let d = kws.drop_last();
        assert forall|i: int, j: int| 0 <= i < d.len() && 0 <= j < d[i].len() implies !sep(
            #[trigger] d[i][j],
        ) by {
            assert(d[i] == kws[i]);
        }
        lemma_split_join(d, sep);
        let jd = join_pieces(d, " "@);
        let js = jd + " "@;
        assert(js.drop_last() =~= jd);
        assert(js.last() == ' ');
        assert(split_pieces(js, sep) == d.push(Seq::<char>::empty()));
        lemma_split_extend(js, w, sep);
        assert(Seq::<char>::empty() + w =~= w);
        assert(d.push(Seq::<char>::empty()).update(d.len() as int, Seq::<char>::empty() + w) =~= kws);
        assert(join_pieces(kws, " "@) == js + w);
    }
}

/// Words of ASCII digits and lowercase letters joined by spaces make an
/// ASCII text.
proof fn lemma_join_ascii(kws: Seq<Seq<char>>)
    requires
        forall|k: int| 0 <= k < kws.len() ==> is_lower_ascii_word(#[trigger] kws[k]),
    ensures
        is_ascii_chars(join_pieces(kws, " "@)),
    decreases kws.len(),
{
    reveal_strlit(" ");
    if kws.len() == 1 {
        assert(is_lower_ascii_word(kws[0]));
    } else if kws.len() > 1 {
        let d = kws.drop_last();
        assert forall|k: int| 0 <= k < d.len() implies is_lower_ascii_word(#[trigger] d[k]) by {
            assert(d[k] == kws[k]);
        }
        lemma_join_ascii(d);
        let w = kws.last();
        assert(is_lower_ascii_word(kws[kws.len() - 1]));
        let t = join_pieces(d, " "@) + " "@ + w;
        assert forall|i: int| 0 <= i < t.len() implies '\0' <= #[trigger] t[i] <= '\u{7f}' by {
            let jd = join_pieces(d, " "@);
            if i < jd.len() {
            } else if i == jd.len() {
            } else {
                assert(t[i] == w[i - jd.len() - 1]);
            }
        }
    }
}

/// Typing the keywords of a set again, separated by spaces, gives the same
/// set, for keywords of ASCII digits and lowercase letters: the text is
/// ASCII, and its keywords, which `terms_to_keywords` gives exactly for an
/// ASCII text, are the set's.
pub proof fn lemma_keywords_round_trip(kws: Seq<Seq<char>>)
    requires
        forall|k: int| 0 <= k < kws.len() ==> is_lower_ascii_word(#[trigger] kws[k]),
    ensures
        is_ascii_chars(join_pieces(kws, " "@)),
        ascii_keyword_set(join_pieces(kws, " "@)) == kws.to_set(),
{
    lemma_join_ascii(kws);
    let t = join_pieces(kws, " "@);
    if kws.len() == 0 {
        assert(ascii_pieces(t) =~= seq![Seq::<char>::empty()]);
        assert(ascii_keyword_set(t) =~= kws.to_set());
    } else {
        assert forall|i: int, j: int| 0 <= i < kws.len() && 0 <= j < kws[i].len() implies !(
        ascii_break())(#[trigger] kws[i][j]) by {
            assert(is_lower_ascii_word(kws[i]));
        }
        lemma_split_join(kws, ascii_break());
        assert(ascii_pieces(t) == kws);
        assert forall|k: int| 0 <= k < kws.len() implies ascii_lowercase(#[trigger] kws[k]) == kws[k] by {
            assert(is_lower_ascii_word(kws[k]));
            assert(ascii_lowercase(kws[k]) =~= kws[k]);
        }
        assert forall|x: Seq<char>| ascii_words(kws).contains(x) <==> kws.to_set().contains(x) by {
            if kws.contains(x) {
                let k = choose|k: int| 0 <= k < kws.len() && kws[k] == x;
                assert(is_lower_ascii_word(kws[k]));
                assert(kws[k].len() > 0 && x == ascii_lowercase(kws[k]));
            }
        }
        assert(ascii_words(kws) =~= kws.to_set());
    }
}

/// Splitting a text at a separator character: the pieces before it, then
/// the pieces after it.
proof fn lemma_split_at_separator(a: Seq<char>, c: char, b: Seq<char>, sep: spec_fn(char) -> bool)
    requires
        sep(c),
    ensures
        split_pieces(a.push(c) + b, sep) == split_pieces(a, sep) + split_pieces(b, sep),
    decreases b.len(),
{
    lemma_split_pieces_nonempty(a, sep);
    let pa = split_pieces(a, sep);
    if b.len() == 0 {
        assert(a.push(c) + b =~= a.push(c));
        assert(a.push(c).drop_last() =~= a);
        assert(split_pieces(b, sep) =~= seq![Seq::<char>::empty()]);
        assert(pa.push(Seq::<char>::empty()) =~= pa + seq![Seq::<char>::empty()]);
    } else {
        let x = a.push(c) + b;
        let bd = b.drop_last();
        lemma_split_at_separator(a, c, bd, sep);
        lemma_split_pieces_nonempty(bd, sep);
        assert(x.drop_last() =~= a.push(c) + bd);
        assert(x.last() == b.last());
        assert(b.drop_last() == bd);
        let pb = split_pieces(bd, sep);
        if sep(b.last()) {
            assert((pa + pb).push(Seq::<char>::empty()) =~= pa + pb.push(Seq::<char>::empty()));
        } else {
            assert((pa + pb).update((pa + pb).len() - 1, (pa + pb).last().push(b.last())) =~= pa
                + pb.update(pb.len() - 1, pb.last().push(b.last())));
        }
    }
}

/// The images of the pieces of two lists together: those of each.
proof fn lemma_mapped_words_concat(
    p: Seq<Seq<char>>,
    q: Seq<Seq<char>>,
    f: spec_fn(Seq<char>) -> Seq<char>,
)
    ensures
        mapped_words(p + q, f) == mapped_words(p, f).union(mapped_words(q, f)),
{
    let pq = p + q;
    assert forall|k: Seq<char>|
        mapped_words(pq, f).contains(k) <==> mapped_words(p, f).union(mapped_words(q, f)).contains(
            k,
        ) by {
        if mapped_words(pq, f).contains(k) {
            let j = choose|j: int| 0 <= j < pq.len() && (#[trigger] pq[j]).len() > 0 && k == f(pq[j]);
            if j < p.len() {
                assert(p[j] == pq[j]);
            } else {
                assert(q[j - p.len()] == pq[j]);
            }
        }
        if mapped_words(p, f).contains(k) {
            let j = choose|j: int| 0 <= j < p.len() && (#[trigger] p[j]).len() > 0 && k == f(p[j]);
            assert(pq[j] == p[j]);
        }
        if mapped_words(q, f).contains(k) {
            let j = choose|j: int| 0 <= j < q.len() && (#[trigger] q[j]).len() > 0 && k == f(q[j]);
            assert(pq[p.len() + j] == q[j]);
        }
    }
    assert(mapped_words(pq, f) =~= mapped_words(p, f).union(mapped_words(q, f)));
}

/// Two texts joined at a character that is not alphanumeric have the
/// keywords of both: those of the first together with those of the second.
pub proof fn lemma_keywords_of_joined_terms(a: Seq<char>, c: char, b: Seq<char>)
    requires
        !unicode_alphanumeric(c),
    ensures
        keyword_set(a.push(c) + b) == keyword_set(a).union(keyword_set(b)),
{
    lemma_split_at_separator(a, c, b, word_break());
    lemma_mapped_words_concat(terms_pieces(a), terms_pieces(b), |p: Seq<char>| unicode_lowercase(p));
}

/// The ASCII uppercase forms of some pieces.
pub open spec fn uppercase_pieces(ps: Seq<Seq<char>>) -> Seq<Seq<char>> {
    ps.map_values(|p: Seq<char>| ascii_uppercase(p))
}

/// Raising a text to ASCII uppercase raises its ASCII pieces, and no more.
proof fn lemma_ascii_pieces_upper(s: Seq<char>)
    ensures
        ascii_pieces(ascii_uppercase(s)) == uppercase_pieces(ascii_pieces(s)),
    decreases s.len(),
{
    let u = ascii_uppercase(s);
    if s.len() == 0 {
        assert(u =~= s);
        assert(ascii_uppercase(Seq::<char>::empty()) =~= Seq::<char>::empty());
        assert(uppercase_pieces(seq![Seq::<char>::empty()]) =~= seq![Seq::<char>::empty()]);
    } else {
        let d = s.drop_last();
        lemma_ascii_pieces_upper(d);
        lemma_split_pieces_nonempty(d, ascii_break());
        assert(u.drop_last() =~= ascii_uppercase(d));
        assert(u.last() == ascii_upper(s.last()));
        let c = s.last();
        assert(is_ascii_alphanumeric(ascii_upper(c)) == is_ascii_alphanumeric(c));
        let pd = ascii_pieces(d);
        if !is_ascii_alphanumeric(c) {
            assert(ascii_uppercase(Seq::<char>::empty()) =~= Seq::<char>::empty());
            assert(uppercase_pieces(pd.push(Seq::<char>::empty())) =~= uppercase_pieces(pd).push(
                Seq::<char>::empty(),
            ));
        } else {
            assert(ascii_uppercase(pd.last().push(c)) =~= ascii_uppercase(pd.last()).push(
                ascii_upper(c),
            ));
            assert(uppercase_pieces(pd.update(pd.len() - 1, pd.last().push(c))) =~= uppercase_pieces(
                pd,
            ).update(pd.len() - 1, uppercase_pieces(pd).last().push(ascii_upper(c))));
        }
    }
}

/// ASCII case does not change the keywords of a text: raising it to ASCII
/// uppercase keeps an ASCII text ASCII and gives the same keywords, which
/// are all lowercase.
pub proof fn lemma_ascii_case_ignored(terms: Seq<char>)
    ensures
        ascii_keyword_set(ascii_uppercase(terms)) == ascii_keyword_set(terms),
        is_ascii_chars(terms) ==> is_ascii_chars(ascii_uppercase(terms)),
{
    lemma_ascii_pieces_upper(terms);
    let ps = ascii_pieces(terms);
    let us = uppercase_pieces(ps);
    assert forall|j: int| 0 <= j < ps.len() implies ascii_lowercase(#[trigger] us[j]) == ascii_lowercase(
        ps[j],
    ) && us[j].len() == ps[j].len() by {
        assert(ascii_lowercase(us[j]) =~= ascii_lowercase(ps[j]));
    }
    assert forall|k: Seq<char>| ascii_words(us).contains(k) <==> ascii_words(ps).contains(k) by {
        if ascii_words(us).contains(k) {
            let j = choose|j: int|
                0 <= j < us.len() && (#[trigger] us[j]).len() > 0 && k == ascii_lowercase(us[j]);
            assert(ps[j].len() > 0 && k == ascii_lowercase(ps[j]));
        }
        if ascii_words(ps).contains(k) {
            let j = choose|j: int|
                0 <= j < ps.len() && (#[trigger] ps[j]).len() > 0 && k == ascii_lowercase(ps[j]);
            assert(us[j].len() > 0 && k == ascii_lowercase(us[j]));
        }
    }
    assert(ascii_words(us) =~= ascii_words(ps));
    if is_ascii_chars(terms) {
        let u = ascii_uppercase(terms);
        assert forall|i: int| 0 <= i < u.len() implies '\0' <= #[trigger] u[i] <= '\u{7f}' by {
            assert(u[i] == ascii_upper(terms[i]));
        }
    }
}

/// Inserting into a sequence adds the entry to its set of entries.
proof fn lemma_insert_to_set(s: Seq<Seq<char>>, pos: int, w: Seq<char>)
    requires
        0 <= pos <= s.len(),
    ensures
        s.insert(pos, w).to_set() == s.to_set().insert(w),
{
    let t = s.insert(pos, w);
    assert forall|x: Seq<char>| t.contains(x) <==> (s.contains(x) || x == w) by {
        if t.contains(x) {
            let i = choose|i: int| 0 <= i < t.len() && t[i] == x;
            if i < pos {
                assert(s[i] == x);
            } else if i > pos {
                assert(s[i - 1] == x);
            }
        }
        if s.contains(x) {
            let i = choose|i: int| 0 <= i < s.len() && s[i] == x;
            if i < pos {
                assert(t[i] == x);
            } else {
                assert(t[i + 1] == x);
            }
        }
        if x == w {
            assert(t[pos] == x);
        }
    }
    assert(t.to_set() =~= s.to_set().insert(w));
}

/// Inserting an entry at a position where it fits keeps a sequence strictly
/// sorted.
proof fn lemma_insert_sorted(s: Seq<Seq<char>>, pos: int, w: Seq<char>)
    requires
        strictly_sorted(s),
        0 <= pos <= s.len(),
        forall|k: int| 0 <= k < pos ==> chars_lt(#[trigger] s[k], w),
        pos < s.len() ==> chars_lt(w, s[pos]),
    ensures
        strictly_sorted(s.insert(pos, w)),
{
    let t = s.insert(pos, w);
    assert forall|i: int, j: int| 0 <= i < j < t.len() implies chars_lt(#[trigger] t[i], #[trigger] t[j]) by {
        if j < pos {
        } else if j == pos {
        } else if i < pos {
            assert(t[j] == s[j - 1]);
            assert(chars_lt(s[i], s[j - 1]));
        } else if i == pos {
            if j - 1 > pos {
                lemma_chars_lt_transitive(w, s[pos], s[j - 1]);
            }
        } else {
            assert(t[i] == s[i - 1] && t[j] == s[j - 1]);
        }
    }
}

} // verus!

//! Full-text search over the site's index: how a post scores against the
//! terms of a query, and which posts are returned, in which order.
use vstd::prelude::*;

use crate::text::{
    chars_eq, chars_of, contains, contains_chars, is_ws, lemma_blank_iff_no_words, match_count,
    match_count_capped, split_words, trim, trim_chars, words, words_from,
};

verus! {

/// A post as the search index holds it.
pub struct Entry {
    pub slug: String,
    pub title: String,
    pub description: String,
    pub tags: Vec<String>,
    /// The post's plain text (at most 5000 characters of it).
    pub body: String,
}

/// A search result.
pub struct Hit {
    pub slug: String,
    pub title: String,
    pub description: String,
}

// ---------------------------------------------------------------------------
// Lowercasing
// ---------------------------------------------------------------------------

/// What `str::to_lowercase` makes of a text: each character replaced by its
/// Unicode lowercase mapping.
pub uninterp spec fn lowercase(s: Seq<char>) -> Seq<char>;

/// Whether every character of `s` is ASCII.
pub open spec fn is_ascii_text(s: Seq<char>) -> bool {
    forall|i: int| 0 <= i < s.len() ==> (#[trigger] s[i] as u32) < 128
}

/// `c` with `A`..`Z` made `a`..`z`, every other character kept.
pub open spec fn ascii_lower(c: char) -> char {
    let u = c as u32;
    if 65 <= u <= 90 {
        (u + 32) as char
    } else {
        c
    }
}

/// `s` with each character through [`ascii_lower`].
pub open spec fn ascii_lowered(s: Seq<char>) -> Seq<char> {
    s.map_values(|c: char| ascii_lower(c))
}

/// `str::to_lowercase`. The result is named `lowercase`; of the Unicode
/// case mapping only its ASCII part is stated: an ASCII text has `A`..`Z`
/// made `a`..`z` and keeps every other character. Beyond ASCII the mapping
/// is not stated.
#[verifier::external_body]
fn to_lowercase(s: &str) -> (r: String)
    ensures
        r@ == lowercase(s@),
        is_ascii_text(s@) ==> r@ == ascii_lowered(s@),
{
    s.to_lowercase()
}

// ---------------------------------------------------------------------------
// Scoring
// ---------------------------------------------------------------------------

/// The most that one term can add to a score: 8 for the title, 5 for a tag,
/// 3 for the description and at most 5 for the body.
pub open spec fn max_term_score() -> int {
    21
}

/// What one term adds to the score of a post whose title, description, tags
/// and body are given (lowercased): 8 if the title contains it, 5 if it is
/// one of the tags, 3 if the description contains it, and one for each time
/// the body contains it, up to 5.
pub open spec fn term_score(
    title: Seq<char>,
    desc: Seq<char>,
    tags: Seq<Seq<char>>,
    body: Seq<char>,
    term: Seq<char>,
) -> int {
    (if contains(title, term) {
        8int
    } else {
        0int
    }) + (if tags.contains(term) {
        5int
    } else {
        0int
    }) + (if contains(desc, term) {
        3int
    } else {
        0int
    }) + (if match_count(body, term) < 5 {
        match_count(body, term) as int
    } else {
        5int
    })
}

/// The score of a post for a list of terms: the sum over the terms.
pub open spec fn terms_score(
    title: Seq<char>,
    desc: Seq<char>,
    tags: Seq<Seq<char>>,
    body: Seq<char>,
    terms: Seq<Seq<char>>,
) -> int
    decreases terms.len(),
{
    if terms.len() == 0 {
        0
    } else {
        terms_score(title, desc, tags, body, terms.drop_last()) + term_score(
            title,
            desc,
            tags,
            body,
            terms.last(),
        )
    }
}

/// The tags of an entry, lowercased.
pub open spec fn lowered_tags(e: Entry) -> Seq<Seq<char>> {
    e.tags@.map_values(|t: String| lowercase(t@))
}

/// The score of index entry `e` for `terms`: its title, description, tags
/// and body are lowercased, the terms are taken as they are.
pub open spec fn entry_score(e: Entry, terms: Seq<Seq<char>>) -> int {
    terms_score(
        lowercase(e.title@),
        lowercase(e.description@),
        lowered_tags(e),
        lowercase(e.body@),
        terms,
    )
}

pub proof fn lemma_terms_score_bounds(
    title: Seq<char>,
    desc: Seq<char>,
    tags: Seq<Seq<char>>,
    body: Seq<char>,
    terms: Seq<Seq<char>>,
)
    ensures
        0 <= terms_score(title, desc, tags, body, terms) <= max_term_score() * terms.len(),
    decreases terms.len(),
{
    if terms.len() > 0 {
        lemma_terms_score_bounds(title, desc, tags, body, terms.drop_last());
    }
}

/// Whether `tags` holds `term`.
fn has_tag(tags: &Vec<Vec<char>>, term: &Vec<char>) -> (r: bool)
    ensures
        r == tags@.map_values(|t: Vec<char>| t@).contains(term@),
{
    let ghost tv = tags@.map_values(|t: Vec<char>| t@);
    let mut i: usize = 0;
    while i < tags.len()
        invariant
            i <= tags@.len(),
            tv == tags@.map_values(|t: Vec<char>| t@),
            forall|k: int| 0 <= k < i ==> tv[k] != term@,
        decreases tags@.len() - i,
    {
        if chars_eq(&tags[i], term) {
            assert(tv[i as int] == term@);
            return true;
        }
        i += 1;
    }
    false
}

/// The score of a post whose title, description, tags and body are already
/// lowercased, for `terms`.
pub fn score_lowered(
    title: &Vec<char>,
    desc: &Vec<char>,
    tags: &Vec<Vec<char>>,
    body: &Vec<char>,
    terms: &Vec<Vec<char>>,
) -> (r: u32)
    requires
        max_term_score() * terms@.len() <= u32::MAX,
    ensures
        r == terms_score(
            title@,
            desc@,
            tags@.map_values(|t: Vec<char>| t@),
            body@,
            terms@.map_values(|t: Vec<char>| t@),
        ),
{
    let ghost tv = tags@.map_values(|t: Vec<char>| t@);
    let ghost all = terms@.map_values(|t: Vec<char>| t@);
    let mut score: u32 = 0;
    let mut i: usize = 0;
    while i < terms.len()
        invariant
            i <= terms@.len(),
            max_term_score() * terms@.len() <= u32::MAX,
            tv == tags@.map_values(|t: Vec<char>| t@),
            all == terms@.map_values(|t: Vec<char>| t@),
            score == terms_score(title@, desc@, tv, body@, all.take(i as int)),
        decreases terms@.len() - i,
    {
        proof {
            lemma_terms_score_bounds(title@, desc@, tv, body@, all.take(i as int));
            assert(max_term_score() * i + max_term_score() <= max_term_score() * terms@.len())
                by (nonlinear_arith)
                requires
                    i < terms@.len(),
            ;
        }
        let term = &terms[i];
        let mut s: u32 = 0;
        if contains_chars(title, term) {
            s += 8;
        }
        if has_tag(tags, term) {
            s += 5;
        }
        if contains_chars(desc, term) {
            s += 3;
        }
        let hits = match_count_capped(body, term, 5);
        s += hits as u32;
        assert(all.take(i + 1).drop_last() =~= all.take(i as int));
        assert(all.take(i + 1).last() == term@);
        score += s;
        i += 1;
    }
    assert(all.take(i as int) =~= all);
    score
}

/// Lowercased copies of the title, description, tags and body of `entry`.
fn lowered(entry: &Entry) -> (r: (Vec<char>, Vec<char>, Vec<Vec<char>>, Vec<char>))
    ensures
        r.0@ == lowercase(entry.title@),
        r.1@ == lowercase(entry.description@),
        r.2@.map_values(|t: Vec<char>| t@) == lowered_tags(*entry),
        r.3@ == lowercase(entry.body@),
{
    let title = chars_of(to_lowercase(entry.title.as_str()).as_str());
    let desc = chars_of(to_lowercase(entry.description.as_str()).as_str());
    let body = chars_of(to_lowercase(entry.body.as_str()).as_str());
    let mut tags: Vec<Vec<char>> = Vec::new();
    let mut i: usize = 0;
    while i < entry.tags.len()
        invariant
            i <= entry.tags@.len(),
            tags@.len() == i,
            forall|k: int| 0 <= k < i ==> #[trigger] tags@[k]@ == lowercase(entry.tags@[k]@),
        decreases entry.tags@.len() - i,
    {
        tags.push(chars_of(to_lowercase(entry.tags[i].as_str()).as_str()));
        i += 1;
    }
    assert(tags@.map_values(|t: Vec<char>| t@) =~= lowered_tags(*entry));
    (title, desc, tags, body)
}

/// The score of index entry `entry` for the terms of a query: 8 for each
/// term in the title, 5 for each term that is a tag, 3 for each term in the
/// description, and for each term one per occurrence in the body, at most 5;
/// the entry's text is lowercased first.
pub fn score(entry: &Entry, terms: &[&str]) -> (r: u32)
    requires
        max_term_score() * terms@.len() <= u32::MAX,
    ensures
        r == entry_score(*entry, terms@.map_values(|t: &str| t@)),
{
    let (title, desc, tags, body) = lowered(entry);
    let mut ts: Vec<Vec<char>> = Vec::new();
    let mut i: usize = 0;
    while i < terms.len()
        invariant
            i <= terms@.len(),
            ts@.len() == i,
            forall|k: int| 0 <= k < i ==> #[trigger] ts@[k]@ == terms@[k]@,
        decreases terms@.len() - i,
    {
        ts.push(chars_of(terms[i]));
        i += 1;
    }
    assert(ts@.map_values(|t: Vec<char>| t@) =~= terms@.map_values(|t: &str| t@));
    score_lowered(&title, &desc, &tags, &body, &ts)
}

/// For one term, an entry whose title holds the term scores higher than one
/// that holds it only in its body.
pub proof fn law_title_match_outscores_body_match(a: Entry, b: Entry, term: Seq<char>)
    requires
        contains(lowercase(a.title@), term),
        !contains(lowercase(b.title@), term),
        !lowered_tags(b).contains(term),
        !contains(lowercase(b.description@), term),
    ensures
        entry_score(a, seq![term]) > entry_score(b, seq![term]),
{
    let ts = seq![term];
    assert(ts.drop_last() =~= Seq::<Seq<char>>::empty());
    assert(ts.last() == term);
    let (ta, da, ga, ba) = (lowercase(a.title@), lowercase(a.description@), lowered_tags(a), lowercase(a.body@));
    let (tb, db, gb, bb) = (lowercase(b.title@), lowercase(b.description@), lowered_tags(b), lowercase(b.body@));
    assert(terms_score(ta, da, ga, ba, Seq::<Seq<char>>::empty()) == 0);
    assert(terms_score(tb, db, gb, bb, Seq::<Seq<char>>::empty()) == 0);
    assert(entry_score(a, ts) == term_score(ta, da, ga, ba, term));
    assert(entry_score(b, ts) == term_score(tb, db, gb, bb, term));
}

/// The score for two lists of terms, one after the other, is the sum of
/// their scores.
pub proof fn law_score_adds_over_terms(e: Entry, t1: Seq<Seq<char>>, t2: Seq<Seq<char>>)
    ensures
        entry_score(e, t1 + t2) == entry_score(e, t1) + entry_score(e, t2),
{
    lemma_terms_score_concat(
        lowercase(e.title@),
        lowercase(e.description@),
        lowered_tags(e),
        lowercase(e.body@),
        t1,
        t2,
    );
}

/// `terms_score` over two lists of terms, one after the other.
proof fn lemma_terms_score_concat(
    title: Seq<char>,
    desc: Seq<char>,
    tags: Seq<Seq<char>>,
    body: Seq<char>,
    t1: Seq<Seq<char>>,
    t2: Seq<Seq<char>>,
)
    ensures
        terms_score(title, desc, tags, body, t1 + t2) == terms_score(title, desc, tags, body, t1)
            + terms_score(title, desc, tags, body, t2),
    decreases t2.len(),
{
    if t2.len() == 0 {
        assert(t1 + t2 =~= t1);
    } else {
        lemma_terms_score_concat(title, desc, tags, body, t1, t2.drop_last());
        assert((t1 + t2).drop_last() =~= t1 + t2.drop_last());
        assert((t1 + t2).last() == t2.last());
    }
}

/// Taking term `i` out of the list takes its own score out of the total.
proof fn lemma_terms_score_remove(
    title: Seq<char>,
    desc: Seq<char>,
    tags: Seq<Seq<char>>,
    body: Seq<char>,
    t: Seq<Seq<char>>,
    i: int,
)
    requires
        0 <= i < t.len(),
    ensures
        terms_score(title, desc, tags, body, t) == terms_score(title, desc, tags, body, t.remove(i))
            + term_score(title, desc, tags, body, t[i]),
{
    let a = t.subrange(0, i);
    let b = t.subrange(i + 1, t.len() as int);
    let one = seq![t[i]];
    assert(t =~= a + one + b);
    assert(t.remove(i) =~= a + b);
    assert(one.drop_last() =~= Seq::<Seq<char>>::empty());
    assert(one.last() == t[i]);
    assert(terms_score(title, desc, tags, body, one.drop_last()) == 0);
    assert(terms_score(title, desc, tags, body, one) == term_score(title, desc, tags, body, t[i]));
    lemma_terms_score_concat(title, desc, tags, body, a + one, b);
    lemma_terms_score_concat(title, desc, tags, body, a, one);
    lemma_terms_score_concat(title, desc, tags, body, a, b);
}

/// Two lists that hold the same terms, each as often, score the same.
proof fn lemma_terms_score_permutation(
    title: Seq<char>,
    desc: Seq<char>,
    tags: Seq<Seq<char>>,
    body: Seq<char>,
    t1: Seq<Seq<char>>,
    t2: Seq<Seq<char>>,
)
    requires
        t1.to_multiset() == t2.to_multiset(),
    ensures
        terms_score(title, desc, tags, body, t1) == terms_score(title, desc, tags, body, t2),
    decreases t1.len(),
{
    broadcast use vstd::seq_lib::group_to_multiset_ensures;

    assert(t1.to_multiset().len() == t1.len());
    assert(t2.to_multiset().len() == t2.len());
    if t1.len() == 0 {
        assert(t2.len() == 0);
        assert(t2 =~= t1);
    } else {
        let n = t1.len() - 1;
        let x = t1[n];
        assert(t1.contains(x));
        assert(t2.to_multiset().count(x) > 0);
        assert(t2.contains(x));
        let j = choose|j: int| 0 <= j < t2.len() && t2[j] == x;
        assert(t1.remove(n) =~= t1.drop_last());
        assert(t1.remove(n).to_multiset() == t1.to_multiset().remove(x));
        assert(t2.remove(j).to_multiset() == t2.to_multiset().remove(x));
        lemma_terms_score_permutation(title, desc, tags, body, t1.drop_last(), t2.remove(j));
        lemma_terms_score_remove(title, desc, tags, body, t2, j);
    }
}

/// A post scores the same for the terms of a query in any order.
pub proof fn law_score_ignores_term_order(e: Entry, t1: Seq<Seq<char>>, t2: Seq<Seq<char>>)
    requires
        t1.to_multiset() == t2.to_multiset(),
    ensures
        entry_score(e, t1) == entry_score(e, t2),
{
    lemma_terms_score_permutation(
        lowercase(e.title@),
        lowercase(e.description@),
        lowered_tags(e),
        lowercase(e.body@),
        t1,
        t2,
    );
}

/// Term `t` occurs somewhere in a post's title, tags, description or body.
pub open spec fn term_found(
    title: Seq<char>,
    desc: Seq<char>,
    tags: Seq<Seq<char>>,
    body: Seq<char>,
    t: Seq<char>,
) -> bool {
    contains(title, t) || tags.contains(t) || contains(desc, t) || match_count(body, t) > 0
}

/// A post scores above zero exactly when one of the terms occurs in it.
pub proof fn law_score_positive_iff_found(
    title: Seq<char>,
    desc: Seq<char>,
    tags: Seq<Seq<char>>,
    body: Seq<char>,
    terms: Seq<Seq<char>>,
)
    ensures
        terms_score(title, desc, tags, body, terms) > 0 <==> exists|i: int|
            0 <= i < terms.len() && term_found(title, desc, tags, body, #[trigger] terms[i]),
    decreases terms.len(),
{
    if terms.len() > 0 {
        let init = terms.drop_last();
        law_score_positive_iff_found(title, desc, tags, body, init);
        lemma_terms_score_bounds(title, desc, tags, body, init);
        if exists|i: int| 0 <= i < init.len() && term_found(title, desc, tags, body, #[trigger] init[i]) {
            let i = choose|i: int| 0 <= i < init.len() && term_found(title, desc, tags, body, #[trigger] init[i]);
            assert(terms[i] == init[i]);
        }
        if exists|i: int| 0 <= i < terms.len() && term_found(title, desc, tags, body, #[trigger] terms[i]) {
            let i = choose|i: int| 0 <= i < terms.len() && term_found(title, desc, tags, body, #[trigger] terms[i]);
            if i < init.len() {
                assert(init[i] == terms[i]);
            } else {
                assert(terms[i] == terms.last());
            }
        }
        if term_found(title, desc, tags, body, terms.last()) {
            assert(terms[terms.len() - 1] == terms.last());
        }
    }
}

// ---------------------------------------------------------------------------
// Ranking
// ---------------------------------------------------------------------------

/// The most results a search returns.
pub open spec fn max_results() -> int {
    10
}

/// The number of positive scores.
pub open spec fn positive_count(s: Seq<int>) -> nat
    decreases s.len(),
{
    if s.len() == 0 {
        0
    } else {
        positive_count(s.drop_last()) + if s.last() > 0 {
            1nat
        } else {
            0nat
        }
    }
}

/// Result `i` ranks above result `j`: a higher score, or the same score and
/// an earlier place in the index.
pub open spec fn ranks_above(s: Seq<int>, i: int, j: int) -> bool {
    s[i] > s[j] || (s[i] == s[j] && i < j)
}

/// `r` is what a search returns for the scores `s`: the indices with a
/// positive score, highest score first and ties in index order, the first
/// ten of them.
pub open spec fn is_ranking(s: Seq<int>, r: Seq<int>) -> bool {
    &&& r.len() == if positive_count(s) < max_results() {
        positive_count(s) as int
    } else {
        max_results()
    }
    &&& forall|k: int| 0 <= k < r.len() ==> 0 <= #[trigger] r[k] < s.len() && s[r[k]] > 0
    &&& forall|k: int, l: int| 0 <= k < l < r.len() ==> ranks_above(s, #[trigger] r[k], #[trigger] r[l])
    &&& forall|j: int|
        0 <= j < s.len() && s[j] > 0 && !r.contains(j) ==> forall|k: int|
            0 <= k < r.len() ==> ranks_above(s, #[trigger] r[k], j)
}

/// Where two rankings agree before place `k` and differ at it, the first
/// does not rank its entry there above the second's.
proof fn lemma_rankings_differ_at(s: Seq<int>, r1: Seq<int>, r2: Seq<int>, k: int)
    requires
        is_ranking(s, r1),
        is_ranking(s, r2),
        0 <= k < r1.len(),
        k < r2.len(),
        forall|i: int| 0 <= i < k ==> r1[i] == r2[i],
        r1[k] != r2[k],
    ensures
        !ranks_above(s, r1[k], r2[k]),
{
    let a = r1[k];
    let b = r2[k];
    if ranks_above(s, a, b) {
        if r2.contains(a) {
            let m = choose|m: int| 0 <= m < r2.len() && r2[m] == a;
            if m < k {
                assert(r1[m] == a);
                assert(ranks_above(s, r1[m], r1[k]));
            } else {
                assert(m > k);
                assert(ranks_above(s, r2[k], r2[m]));
            }
        } else {
            assert(0 <= a < s.len() && s[a] > 0);
            assert(ranks_above(s, r2[k], a));
        }
    }
}

/// The two rankings agree on their first `k` places.
proof fn lemma_rankings_agree_up_to(s: Seq<int>, r1: Seq<int>, r2: Seq<int>, k: int)
    requires
        is_ranking(s, r1),
        is_ranking(s, r2),
        0 <= k <= r1.len(),
    ensures
        forall|i: int| 0 <= i < k ==> r1[i] == r2[i],
    decreases k,
{
    if k > 0 {
        lemma_rankings_agree_up_to(s, r1, r2, k - 1);
        let j = k - 1;
        if r1[j] != r2[j] {
            lemma_rankings_differ_at(s, r1, r2, j);
            lemma_rankings_differ_at(s, r2, r1, j);
        }
    }
}

/// There is one ranking of a list of scores: two lists that both rank it
/// are the same list.
pub proof fn law_ranking_is_unique(s: Seq<int>, r1: Seq<int>, r2: Seq<int>)
    requires
        is_ranking(s, r1),
        is_ranking(s, r2),
    ensures
        r1 == r2,
{
    lemma_rankings_agree_up_to(s, r1, r2, r1.len() as int);
    assert(r1 =~= r2);
}

/// The indices of the results for the scores `scores`: those with a positive
/// score, highest first, ties in index order, at most ten.
pub fn rank(scores: &Vec<u32>) -> (r: Vec<usize>)
    ensures
        is_ranking(scores@.map_values(|x: u32| x as int), r@.map_values(|i: usize| i as int)),
{
    let ghost s = scores@.map_values(|x: u32| x as int);
    let n = scores.len();
    let mut order: Vec<usize> = Vec::new();
    let mut j: usize = 0;
    while j < n
        invariant
            n == scores@.len(),
            s == scores@.map_values(|x: u32| x as int),
            j <= n,
            order@.len() == positive_count(s.take(j as int)),
            forall|k: int| 0 <= k < order@.len() ==> #[trigger] order@[k] < j && s[order@[k] as int] > 0,
            forall|x: int| 0 <= x < j && s[x] > 0 ==> #[trigger] order@.contains(x as usize),
            forall|k: int, l: int|
                0 <= k < l < order@.len() ==> ranks_above(
                    s,
                    #[trigger] order@[k] as int,
                    #[trigger] order@[l] as int,
                ),
        decreases n - j,
    {
        assert(s.take(j + 1).drop_last() =~= s.take(j as int));
        if scores[j] > 0 {
            let mut p: usize = 0;
            while p < order.len() && scores[order[p]] >= scores[j]
                invariant
                    n == scores@.len(),
                    s == scores@.map_values(|x: u32| x as int),
                    j < n,
                    p <= order@.len(),
                    forall|k: int| 0 <= k < order@.len() ==> #[trigger] order@[k] < j,
                    forall|k: int| 0 <= k < p ==> ranks_above(s, #[trigger] order@[k] as int, j as int),
                decreases order@.len() - p,
            {
                p += 1;
            }
            proof {
                if p < order@.len() {
                    assert forall|k: int| p <= k < order@.len() implies ranks_above(s, j as int, #[trigger] order@[k] as int) by {
                        if k > p {
                            assert(ranks_above(s, order@[p as int] as int, order@[k] as int));
                        }
                    }
                }
            }
            let ghost old_order = order@;
            order.insert(p, j);
            assert forall|k: int, l: int| 0 <= k < l < order@.len() implies ranks_above(
                s,
                #[trigger] order@[k] as int,
                #[trigger] order@[l] as int,
            ) by {
                if l < p {
                    assert(order@[k] == old_order[k] && order@[l] == old_order[l]);
                } else if l == p {
                    assert(order@[k] == old_order[k]);
                } else if k == p {
                    assert(order@[l] == old_order[l - 1]);
                } else if k < p {
                    assert(order@[k] == old_order[k] && order@[l] == old_order[l - 1]);
                } else {
                    assert(order@[k] == old_order[k - 1] && order@[l] == old_order[l - 1]);
                }
            }
            assert forall|x: int| 0 <= x < j + 1 && s[x] > 0 implies #[trigger] order@.contains(x as usize) by {
                if x == j {
                    assert(order@[p as int] == j);
                } else {
                    assert(old_order.contains(x as usize));
                    let k = choose|k: int| 0 <= k < old_order.len() && old_order[k] == x as usize;
                    if k < p {
                        assert(order@[k] == x as usize);
                    } else {
                        assert(order@[k + 1] == x as usize);
                    }
                }
            }
            assert forall|k: int| 0 <= k < order@.len() implies #[trigger] order@[k] < j + 1 && s[order@[k] as int] > 0 by {
                if k < p {
                    assert(order@[k] == old_order[k]);
                } else if k > p {
                    assert(order@[k] == old_order[k - 1]);
                }
            }
        }
        j += 1;
    }
    assert(s.take(n as int) =~= s);
    let ghost full = order@;
    if order.len() > 10 {
        order.truncate(10);
    }
    let ghost r = order@.map_values(|i: usize| i as int);
    assert forall|x: int|
        0 <= x < n && s[x] > 0 && !r.contains(x) implies forall|k: int|
        0 <= k < r.len() ==> ranks_above(s, #[trigger] r[k], x) by {
        assert(full.contains(x as usize));
        let l = choose|l: int| 0 <= l < full.len() && full[l] == x as usize;
        if l < r.len() {
            assert(r[l] == x);
        }
        assert forall|k: int| 0 <= k < r.len() implies ranks_above(s, #[trigger] r[k], x) by {
            assert(r[k] == full[k] as int);
            assert(k < l);
        }
    }
    order
}

// ---------------------------------------------------------------------------
// Search
// ---------------------------------------------------------------------------

/// The scores of the entries of `index` for `terms`.
pub open spec fn scores_of(index: Seq<Entry>, terms: Seq<Seq<char>>) -> Seq<int> {
    Seq::new(index.len(), |i: int| entry_score(index[i], terms))
}

/// `h` is the search result for entry `e`.
pub open spec fn is_hit_of(h: Hit, e: Entry) -> bool {
    h.slug@ == e.slug@ && h.title@ == e.title@ && h.description@ == e.description@
}

/// What a search answers.
pub enum SearchOutcome {
    /// The query holds nothing but whitespace.
    MissingQuery,
    /// The matching entries, best first.
    Results(Vec<Hit>),
}

/// Searches `index` for the (lowercased) query: the query is split into
/// words, each entry is scored, and the ten best entries with a positive
/// score are returned, highest score first, ties in index order. A query
/// of only whitespace is refused.
pub fn search(index: &Vec<Entry>, query: &str) -> (r: SearchOutcome)
    requires
        max_term_score() * words(query@).len() <= u32::MAX,
    ensures
        r is MissingQuery <==> trim(query@).len() == 0,
        r matches SearchOutcome::Results(hits) ==> exists|ranked: Seq<int>|
            {
                &&& is_ranking(scores_of(index@, words(query@)), ranked)
                &&& hits@.len() == ranked.len()
                &&& forall|k: int|
                    0 <= k < ranked.len() ==> is_hit_of(#[trigger] hits@[k], index@[ranked[k]])
            },
{
    let q = chars_of(query);
    let t = trim_chars(&q);
    if t.len() == 0 {
        return SearchOutcome::MissingQuery;
    }
    let terms = split_words(&q);
    let ghost tv = terms@.map_values(|w: Vec<char>| w@);
    assert(tv.len() == terms@.len());
    let mut scores: Vec<u32> = Vec::new();
    let mut i: usize = 0;
    while i < index.len()
        invariant
            i <= index@.len(),
            tv == terms@.map_values(|w: Vec<char>| w@),
            tv == words(query@),
            max_term_score() * terms@.len() <= u32::MAX,
            scores@.len() == i,
            forall|k: int| 0 <= k < i ==> #[trigger] scores@[k] == entry_score(index@[k], tv),
        decreases index@.len() - i,
    {
        let (title, desc, tags, body) = lowered(&index[i]);
        let s = score_lowered(&title, &desc, &tags, &body, &terms);
        scores.push(s);
        i += 1;
    }
    let ghost sv = scores@.map_values(|x: u32| x as int);
    assert(sv =~= scores_of(index@, tv));
    let ranked = rank(&scores);
    assert forall|l: int| 0 <= l < ranked@.len() implies #[trigger] ranked@[l] < index@.len() by {
        let rv = ranked@.map_values(|i: usize| i as int);
        assert(rv[l] == ranked@[l] as int);
        assert(0 <= rv[l] < sv.len());
    }
    let mut hits: Vec<Hit> = Vec::new();
    let mut k: usize = 0;
    while k < ranked.len()
        invariant
            k <= ranked@.len(),
            forall|l: int| 0 <= l < ranked@.len() ==> #[trigger] ranked@[l] < index@.len(),
            hits@.len() == k,
            forall|l: int| 0 <= l < k ==> is_hit_of(#[trigger] hits@[l], index@[ranked@[l] as int]),
        decreases ranked@.len() - k,
    {
        let e = &index[ranked[k]];
        hits.push(
            Hit { slug: e.slug.clone(), title: e.title.clone(), description: e.description.clone() },
        );
        k += 1;
    }
    let ghost rv = ranked@.map_values(|i: usize| i as int);
    assert forall|l: int| 0 <= l < rv.len() implies is_hit_of(#[trigger] hits@[l], index@[rv[l]]) by {
        assert(rv[l] == ranked@[l] as int);
    }
    SearchOutcome::Results(hits)
}

// ---------------------------------------------------------------------------
// The query of a request
// ---------------------------------------------------------------------------

/// The query pairs of the URL `uri` as the `url` crate decodes them
/// (`application/x-www-form-urlencoded`, in order), or `None` where
/// `Url::parse` refuses `uri`.
pub uninterp spec fn url_query_pairs(uri: Seq<char>) -> Option<Seq<(Seq<char>, Seq<char>)>>;

/// `url::Url::parse`, then `Url::query_pairs`, each pair copied out. The
/// pairs are named `url_query_pairs`; percent-decoding is not stated. On a
/// refusal the text of `url::ParseError` is handed on and not stated.
#[verifier::external_body]
fn parse_query_pairs(uri: &str) -> (r: Result<Vec<(String, String)>, String>)
    ensures
        match r {
            Ok(v) => url_query_pairs(uri@) == Some(
                v@.map_values(|p: (String, String)| (p.0@, p.1@)),
            ),
            Err(_) => url_query_pairs(uri@) is None,
        },
{
    match url::Url::parse(uri) {
        Ok(u) => Ok(u.query_pairs().map(|(k, v)| (k.into_owned(), v.into_owned())).collect()),
        Err(e) => Err(e.to_string()),
    }
}

/// The value of the first pair named `name`.
pub open spec fn first_value(pairs: Seq<(Seq<char>, Seq<char>)>, name: Seq<char>) -> Option<
    Seq<char>,
>
    decreases pairs.len(),
{
    if pairs.len() == 0 {
        None
    } else if pairs[0].0 == name {
        Some(pairs[0].1)
    } else {
        first_value(pairs.drop_first(), name)
    }
}

/// The search query that query pairs carry: the value of the first `q`,
/// lowercased, or nothing.
pub open spec fn query_of(pairs: Seq<(Seq<char>, Seq<char>)>) -> Seq<char> {
    match first_value(pairs, seq!['q']) {
        Some(v) => lowercase(v),
        None => seq![],
    }
}

/// The search query that the query pairs of a request carry: the value of
/// the first pair named `q`, lowercased; empty where there is none.
pub fn query_from_pairs(pairs: &Vec<(String, String)>) -> (q: String)
    ensures
        q@ == query_of(pairs@.map_values(|p: (String, String)| (p.0@, p.1@))),
        first_value(pairs@.map_values(|p: (String, String)| (p.0@, p.1@)), seq!['q']) matches Some(
            v,
        ) ==> (is_ascii_text(v) ==> q@ == ascii_lowered(v)),
{
    let ghost pv = pairs@.map_values(|p: (String, String)| (p.0@, p.1@));
    let name = ['q'];
    assert(name@ =~= seq!['q']);
    let mut i: usize = 0;
    assert(pv.skip(0) =~= pv);
    while i < pairs.len()
        invariant
            i <= pairs@.len(),
            pv == pairs@.map_values(|p: (String, String)| (p.0@, p.1@)),
            name@ == seq!['q'],
            first_value(pv, seq!['q']) == first_value(pv.skip(i as int), seq!['q']),
        decreases pairs@.len() - i,
    {
        assert(pv.skip(i as int)[0] == pv[i as int]);
        assert(pv.skip(i as int).drop_first() =~= pv.skip(i + 1));
        let key = chars_of(pairs[i].0.as_str());
        if chars_eq(&key, &name) {
            return to_lowercase(pairs[i].1.as_str());
        }
        i += 1;
    }
    String::new()
}

/// Why a request's URL gives no query.
pub enum QueryError {
    /// `Url::parse` refused the URL; the text is its error.
    InvalidUrl(String),
}

/// The search query of the request URL `uri`: the value of its first `q`
/// query parameter, lowercased; empty where there is none. An error where
/// the URL does not parse.
pub fn query_from_uri(uri: &str) -> (r: Result<String, QueryError>)
    ensures
        match url_query_pairs(uri@) {
            None => r is Err,
            Some(pairs) => r matches Ok(q) && q@ == query_of(pairs) && (first_value(
                pairs,
                seq!['q'],
            ) matches Some(v) ==> (is_ascii_text(v) ==> q@ == ascii_lowered(v))),
        },
{
    match parse_query_pairs(uri) {
        Ok(pairs) => Ok(query_from_pairs(&pairs)),
        Err(e) => Err(QueryError::InvalidUrl(e)),
    }
}

/// Two queries whose words are the same, each as often, in any order, get
/// the same answer: both are refused, or both rank the same entries in the
/// same order (`search` returns the entries of that ranking).
pub proof fn law_search_ignores_term_order(
    index: Seq<Entry>,
    q1: Seq<char>,
    q2: Seq<char>,
    r1: Seq<int>,
    r2: Seq<int>,
)
    requires
        words(q1).to_multiset() == words(q2).to_multiset(),
        is_ranking(scores_of(index, words(q1)), r1),
        is_ranking(scores_of(index, words(q2)), r2),
    ensures
        (trim(q1).len() == 0) == (trim(q2).len() == 0),
        r1 == r2,
{
    broadcast use vstd::seq_lib::group_to_multiset_ensures;

    lemma_blank_iff_no_words(q1);
    lemma_blank_iff_no_words(q2);
    assert(words(q1).to_multiset().len() == words(q1).len());
    assert(words(q2).to_multiset().len() == words(q2).len());
    assert forall|i: int| 0 <= i < index.len() implies #[trigger] scores_of(index, words(q1))[i]
        == scores_of(index, words(q2))[i] by {
        law_score_ignores_term_order(index[i], words(q1), words(q2));
    }
    assert(scores_of(index, words(q1)) =~= scores_of(index, words(q2)));
    law_ranking_is_unique(scores_of(index, words(q1)), r1, r2);
}

/// Lowering `A`..`Z` keeps a character whitespace or not.
proof fn lemma_ascii_lower_keeps_ws(c: char)
    ensures
        is_ws(ascii_lower(c)) == is_ws(c),
{
    let u = c as u32;
    if 65 <= u <= 90 {
        assert((u + 32) as char as u32 == u + 32);
    }
}

/// The words of a text with `A`..`Z` lowered are its words, each lowered.
proof fn lemma_words_of_ascii_lowered(s: Seq<char>, cur: Seq<char>)
    ensures
        words_from(ascii_lowered(s), ascii_lowered(cur)) == words_from(s, cur).map_values(
            |w: Seq<char>| ascii_lowered(w),
        ),
    decreases s.len(),
{
    let ls = ascii_lowered(s);
    let lc = ascii_lowered(cur);
    if s.len() == 0 {
        assert(ls.len() == 0);
        if cur.len() == 0 {
            assert(words_from(s, cur).map_values(|w: Seq<char>| ascii_lowered(w)) =~= seq![]);
        } else {
            assert(words_from(s, cur).map_values(|w: Seq<char>| ascii_lowered(w)) =~= seq![lc]);
        }
    } else {
        lemma_ascii_lower_keeps_ws(s[0]);
        assert(ls[0] == ascii_lower(s[0]));
        assert(ls.drop_first() =~= ascii_lowered(s.drop_first()));
        if is_ws(s[0]) {
            lemma_words_of_ascii_lowered(s.drop_first(), seq![]);
            assert(ascii_lowered(Seq::<char>::empty()) =~= Seq::<char>::empty());
            let head: Seq<Seq<char>> = if cur.len() == 0 {
                seq![]
            } else {
                seq![cur]
            };
            let rest = words_from(s.drop_first(), seq![]);
            assert((head + rest).map_values(|w: Seq<char>| ascii_lowered(w)) =~= head.map_values(
                |w: Seq<char>| ascii_lowered(w),
            ) + rest.map_values(|w: Seq<char>| ascii_lowered(w)));
            if cur.len() == 0 {
                assert(head.map_values(|w: Seq<char>| ascii_lowered(w)) =~= seq![]);
            } else {
                assert(head.map_values(|w: Seq<char>| ascii_lowered(w)) =~= seq![lc]);
            }
        } else {
            lemma_words_of_ascii_lowered(s.drop_first(), cur.push(s[0]));
            assert(ascii_lowered(cur.push(s[0])) =~= lc.push(ls[0]));
        }
    }
}

/// Lowering each word of two lists that hold the same words, each as often,
/// gives two such lists again.
proof fn lemma_lowered_keeps_multiset(t1: Seq<Seq<char>>, t2: Seq<Seq<char>>)
    requires
        t1.to_multiset() == t2.to_multiset(),
    ensures
        t1.map_values(|w: Seq<char>| ascii_lowered(w)).to_multiset() == t2.map_values(
            |w: Seq<char>| ascii_lowered(w),
        ).to_multiset(),
    decreases t1.len(),
{
    broadcast use vstd::seq_lib::group_to_multiset_ensures;

    let f = |w: Seq<char>| ascii_lowered(w);
    assert(t1.to_multiset().len() == t1.len());
    assert(t2.to_multiset().len() == t2.len());
    if t1.len() == 0 {
        assert(t2.len() == 0);
        assert(t1.map_values(f) =~= t2.map_values(f));
    } else {
        let n = t1.len() - 1;
        let x = t1[n];
        assert(t1.contains(x));
        assert(t2.to_multiset().count(x) > 0);
        assert(t2.contains(x));
        let j = choose|j: int| 0 <= j < t2.len() && t2[j] == x;
        assert(t1.remove(n) =~= t1.drop_last());
        assert(t1.remove(n).to_multiset() == t1.to_multiset().remove(x));
        assert(t2.remove(j).to_multiset() == t2.to_multiset().remove(x));
        lemma_lowered_keeps_multiset(t1.drop_last(), t2.remove(j));
        assert(t1.map_values(f) =~= t1.drop_last().map_values(f).push(f(x)));
        assert(t2.map_values(f) =~= t2.remove(j).map_values(f).insert(j, f(x)));
        assert(t2.remove(j).map_values(f).insert(j, f(x)).to_multiset()
            == t2.remove(j).map_values(f).to_multiset().insert(f(x)));
    }
}

/// Two ASCII query values whose words are the same, each as often, in any
/// order, get the same answer. For an ASCII value, the query is the value
/// with `A`..`Z` lowered (`query_from_pairs`), so this holds of requests as
/// they come: both are refused, or both rank the same entries in the same
/// order.
pub proof fn law_ascii_query_ignores_term_order(
    index: Seq<Entry>,
    v1: Seq<char>,
    v2: Seq<char>,
    r1: Seq<int>,
    r2: Seq<int>,
)
    requires
        words(v1).to_multiset() == words(v2).to_multiset(),
        is_ranking(scores_of(index, words(ascii_lowered(v1))), r1),
        is_ranking(scores_of(index, words(ascii_lowered(v2))), r2),
    ensures
        (trim(ascii_lowered(v1)).len() == 0) == (trim(ascii_lowered(v2)).len() == 0),
        r1 == r2,
{
    assert(ascii_lowered(Seq::<char>::empty()) =~= Seq::<char>::empty());
    lemma_words_of_ascii_lowered(v1, seq![]);
    lemma_words_of_ascii_lowered(v2, seq![]);
    lemma_lowered_keeps_multiset(words(v1), words(v2));
    law_search_ignores_term_order(index, ascii_lowered(v1), ascii_lowered(v2), r1, r2);
}

} // verus!

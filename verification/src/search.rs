//! The query engine: scoring, ranking and truncating search results.
//!
//! A document's score is `TITLE_WEIGHT` times the number of query terms
//! found among its title's tokens, plus the number of query terms whose
//! hash its filter reports as present.  Documents scoring zero are
//! dropped; the rest are ordered by descending score, ties keeping their
//! index order, and the first `num_results` are returned.

use vstd::prelude::*;
use crate::{views_of, view_set_of};
use crate::filter::{XorFilter, token_hash};
use crate::index::{PostId, PostFilter, SearchIndex, index_wf};
use crate::tokenize::{tokenize, token_set};

verus! {

/// Weight multiplier for title matches over body matches.
pub const TITLE_WEIGHT: usize = 3;

/// Clamps a mathematical score into `usize`, saturating at the top.
pub open spec fn sat_usize(n: int) -> usize {
    if n > usize::MAX { usize::MAX } else if n < 0 { 0 } else { n as usize }
}

/// How many of the query terms occur among the title's tokens.
pub open spec fn spec_title_score(
    title: Seq<char>,
    terms: Set<Seq<char>>,
    stop: Set<Seq<char>>,
) -> nat {
    terms.intersect(token_set(title, stop)).len()
}

/// The mathematical relevance score of one document for a set of query
/// terms: title hits weighted by `TITLE_WEIGHT`, plus filter hits.
pub open spec fn spec_score(pf: PostFilter, terms: Set<Seq<char>>, stop: Set<Seq<char>>) -> int {
    TITLE_WEIGHT * spec_title_score(pf.0.title@, terms, stop) + pf.1.hit_set(terms).len()
}

/// The score as the engine computes it: saturated into `usize`.
pub open spec fn rank_score(
    index: Seq<PostFilter>,
    terms: Set<Seq<char>>,
    stop: Set<Seq<char>>,
    i: int,
) -> usize {
    sat_usize(spec_score(index[i], terms, stop))
}

/// Places document `i` into the ranked list `r`: after every entry that
/// scores at least as much (so equal scores keep their index order),
/// before the first that scores less.
pub open spec fn insert_ranked(
    r: Seq<int>,
    i: int,
    index: Seq<PostFilter>,
    terms: Set<Seq<char>>,
    stop: Set<Seq<char>>,
) -> Seq<int>
    decreases r.len(),
{
    if r.len() == 0 {
        seq![i]
    } else if rank_score(index, terms, stop, r[0]) >= rank_score(index, terms, stop, i) {
        seq![r[0]] + insert_ranked(r.drop_first(), i, index, terms, stop)
    } else {
        seq![i] + r
    }
}

/// The ranked list over the first `n` documents: every document with a
/// positive score, ordered by descending score, ties in index order.
pub open spec fn spec_ranked_upto(
    index: Seq<PostFilter>,
    terms: Set<Seq<char>>,
    stop: Set<Seq<char>>,
    n: int,
) -> Seq<int>
    decreases n,
{
    if n <= 0 {
        seq![]
    } else {
        let prev = spec_ranked_upto(index, terms, stop, n - 1);
        if rank_score(index, terms, stop, n - 1) > 0 {
            insert_ranked(prev, n - 1, index, terms, stop)
        } else {
            prev
        }
    }
}

/// The ranked list of the whole index.
pub open spec fn spec_ranked(
    index: Seq<PostFilter>,
    terms: Set<Seq<char>>,
    stop: Set<Seq<char>>,
) -> Seq<int> {
    spec_ranked_upto(index, terms, stop, index.len() as int)
}

/// The ranked list `r` is ordered by descending score.
pub open spec fn scores_descending(
    index: Seq<PostFilter>,
    terms: Set<Seq<char>>,
    stop: Set<Seq<char>>,
    r: Seq<int>,
) -> bool {
    forall|a: int, b: int|
        0 <= a < b < r.len() ==> rank_score(index, terms, stop, #[trigger] r[a]) >= rank_score(
            index,
            terms,
            stop,
            #[trigger] r[b],
        )
}

/// Counts the distinct terms that also occur among `others`.
pub fn count_common(terms: &Vec<String>, others: &Vec<String>) -> (r: usize)
    requires
        views_of(terms@).no_duplicates(),
    ensures
        r == view_set_of(terms@).intersect(view_set_of(others@)).len(),
{
    let ghost target = view_set_of(others@);
    let mut count: usize = 0;
    let mut i: usize = 0;
    proof {
        assert(views_of(terms@).take(0).to_set() =~= Set::<Seq<char>>::empty());
        assert(Set::<Seq<char>>::empty().intersect(target) =~= Set::<Seq<char>>::empty());
    }
    while i < terms.len()
        invariant
            views_of(terms@).no_duplicates(),
            0 <= i <= terms@.len(),
            count <= i,
            target == view_set_of(others@),
            count == views_of(terms@).take(i as int).to_set().intersect(target).len(),
        decreases terms@.len() - i,
    {
        let ghost prefix = views_of(terms@).take(i as int).to_set();
        let ghost t = views_of(terms@)[i as int];
        proof {
            assert(views_of(terms@).take(i + 1) =~= views_of(terms@).take(i as int).push(t));
            views_of(terms@).take(i as int).lemma_push_to_set_commute(t);
            if prefix.contains(t) {
                let j = choose|j: int| 0 <= j < i && views_of(terms@).take(i as int)[j] == t;
                assert(views_of(terms@)[j] == views_of(terms@)[i as int]);
                assert(false);
            }
            assert(prefix.finite()) by {
                views_of(terms@).take(i as int).lemma_cardinality_of_set();
            }
        }
        let hit = crate::tokenize::contains_string(others, &terms[i]);
        proof {
            if hit {
                assert(prefix.insert(t).intersect(target) =~= prefix.intersect(target).insert(t));
                assert(!prefix.intersect(target).contains(t));
            } else {
                assert(prefix.insert(t).intersect(target) =~= prefix.intersect(target));
            }
            vstd::set_lib::lemma_len_intersect::<Seq<char>>(prefix, target);
        }
        if hit {
            count += 1;
        }
        i += 1;
    }
    proof {
        assert(views_of(terms@).take(terms@.len() as int) =~= views_of(terms@));
    }
    count
}

/// Scores one document against the deduplicated query terms.  Title
/// matches count `TITLE_WEIGHT` each, filter matches one each; the sum
/// saturates instead of wrapping.
pub fn score(
    post_id: &PostId,
    search_terms: &Vec<String>,
    filter: &XorFilter,
    stopwords: &Vec<String>,
) -> (r: usize)
    requires
        filter.wf(),
        views_of(search_terms@).no_duplicates(),
    ensures
        r == sat_usize(
            spec_score((*post_id, *filter), view_set_of(search_terms@), view_set_of(stopwords@)),
        ),
{
    let title_tokens = tokenize(post_id.title.as_str(), stopwords);
    let title_hits = count_common(search_terms, &title_tokens);
    let body_hits = filter.count_hits(search_terms);
    let weighted = match title_hits.checked_mul(TITLE_WEIGHT) {
        Some(v) => v,
        None => usize::MAX,
    };
    weighted.saturating_add(body_hits)
}

/// `insert_ranked` puts the new document exactly at the first position
/// whose entry scores strictly less.
proof fn lemma_insert_ranked_at(
    r: Seq<int>,
    i: int,
    index: Seq<PostFilter>,
    terms: Set<Seq<char>>,
    stop: Set<Seq<char>>,
    p: int,
)
    requires
        0 <= p <= r.len(),
        forall|q: int|
            0 <= q < p ==> rank_score(index, terms, stop, #[trigger] r[q]) >= rank_score(
                index,
                terms,
                stop,
                i,
            ),
        p < r.len() ==> rank_score(index, terms, stop, r[p]) < rank_score(index, terms, stop, i),
    ensures
        insert_ranked(r, i, index, terms, stop) == r.take(p) + seq![i] + r.skip(p),
    decreases r.len(),
{
    if p == 0 {
        if r.len() == 0 {
            assert(insert_ranked(r, i, index, terms, stop) =~= r.take(0) + seq![i] + r.skip(0));
        } else {
            assert(insert_ranked(r, i, index, terms, stop) =~= r.take(0) + seq![i] + r.skip(0));
        }
    } else {
        assert(rank_score(index, terms, stop, r[0]) >= rank_score(index, terms, stop, i));
        lemma_insert_ranked_at(r.drop_first(), i, index, terms, stop, p - 1);
        assert(insert_ranked(r, i, index, terms, stop) =~= r.take(p) + seq![i] + r.skip(p));
    }
}

/// Inserting keeps the descending order, and adds only the new document.
proof fn lemma_insert_ranked_sorted(
    r: Seq<int>,
    i: int,
    index: Seq<PostFilter>,
    terms: Set<Seq<char>>,
    stop: Set<Seq<char>>,
)
    requires
        scores_descending(index, terms, stop, r),
    ensures
        scores_descending(index, terms, stop, insert_ranked(r, i, index, terms, stop)),
        insert_ranked(r, i, index, terms, stop).len() == r.len() + 1,
        forall|k: int|
            0 <= k < insert_ranked(r, i, index, terms, stop).len() ==> (#[trigger] insert_ranked(
                r,
                i,
                index,
                terms,
                stop,
            )[k] == i || r.contains(insert_ranked(r, i, index, terms, stop)[k])),
    decreases r.len(),
{
    let res = insert_ranked(r, i, index, terms, stop);
    if r.len() == 0 {
    } else if rank_score(index, terms, stop, r[0]) >= rank_score(index, terms, stop, i) {
        let tail = r.drop_first();
        lemma_insert_ranked_sorted(tail, i, index, terms, stop);
        let tres = insert_ranked(tail, i, index, terms, stop);
        assert(res =~= seq![r[0]] + tres);
        assert forall|a: int, b: int| 0 <= a < b < res.len() implies rank_score(
            index,
            terms,
            stop,
            #[trigger] res[a],
        ) >= rank_score(index, terms, stop, #[trigger] res[b]) by {
            if a == 0 {
                // res[b] is i or an element of the old tail; r[0] dominates both
                assert(res[b] == tres[b - 1]);
                if tres[b - 1] == i {
                } else {
                    let k = choose|k: int| 0 <= k < tail.len() && tail[k] == tres[b - 1];
                    assert(r[k + 1] == tail[k]);
                }
            } else {
                assert(res[a] == tres[a - 1] && res[b] == tres[b - 1]);
            }
        }
        assert forall|k: int| 0 <= k < res.len() implies (#[trigger] res[k] == i || r.contains(
            res[k],
        )) by {
            if k == 0 {
                assert(r[0] == res[0]);
            } else {
                assert(res[k] == tres[k - 1]);
                if tres[k - 1] != i {
                    let m = choose|m: int| 0 <= m < tail.len() && tail[m] == tres[k - 1];
                    assert(r[m + 1] == tres[k - 1]);
                }
            }
        }
    } else {
        assert(res =~= seq![i] + r);
        assert forall|k: int| 0 <= k < res.len() implies (#[trigger] res[k] == i || r.contains(
            res[k],
        )) by {
            if k > 0 {
                assert(res[k] == r[k - 1]);
            }
        }
    }
}

/// The ranked list over any prefix is ordered by descending score, and
/// holds only documents of that prefix.
proof fn lemma_ranked_upto_sorted(
    index: Seq<PostFilter>,
    terms: Set<Seq<char>>,
    stop: Set<Seq<char>>,
    n: int,
)
    ensures
        scores_descending(index, terms, stop, spec_ranked_upto(index, terms, stop, n)),
        forall|k: int|
            0 <= k < spec_ranked_upto(index, terms, stop, n).len() ==> 0 <= #[trigger] spec_ranked_upto(
                index,
                terms,
                stop,
                n,
            )[k] < n,
    decreases n,
{
    if n > 0 {
        lemma_ranked_upto_sorted(index, terms, stop, n - 1);
        let prev = spec_ranked_upto(index, terms, stop, n - 1);
        if rank_score(index, terms, stop, n - 1) > 0 {
            lemma_insert_ranked_sorted(prev, n - 1, index, terms, stop);
            let res = spec_ranked_upto(index, terms, stop, n);
            assert forall|k: int| 0 <= k < res.len() implies 0 <= #[trigger] res[k] < n by {
                if res[k] != n - 1 {
                    let m = choose|m: int| 0 <= m < prev.len() && prev[m] == res[k];
                }
            }
        }
    }
}

/// Ranking order: the results of a search are sorted by descending score.
pub proof fn lemma_ranking_sorted(index: Seq<PostFilter>, terms: Set<Seq<char>>, stop: Set<Seq<char>>)
    ensures
        scores_descending(index, terms, stop, spec_ranked(index, terms, stop)),
{
    lemma_ranked_upto_sorted(index, terms, stop, index.len() as int);
}

/// Ranked keyword search.  Tokenizes the query with the given stopwords,
/// scores every document, drops the zero scores, orders the rest by
/// descending score (ties keep index order) and returns at most
/// `num_results` document identities.
pub fn search<'a>(
    index: &'a SearchIndex,
    query: &str,
    num_results: usize,
    stopwords: &Vec<String>,
) -> (r: Vec<&'a PostId>)
    requires
        index_wf(index@),
    ensures
        ({
            let terms = token_set(query@, view_set_of(stopwords@));
            let ranked = spec_ranked(index@, terms, view_set_of(stopwords@));
            &&& r@.len() == if num_results <= ranked.len() {
                num_results as int
            } else {
                ranked.len() as int
            }
            &&& r@.len() <= num_results
            &&& forall|k: int| 0 <= k < r@.len() ==> *(#[trigger] r@[k]) == index@[ranked[k]].0
            &&& scores_descending(index@, terms, view_set_of(stopwords@), ranked)
        }),
{
    let ghost stop = view_set_of(stopwords@);
    proof {
        lemma_ranking_sorted(index@, token_set(query@, stop), stop);
    }
    let terms = tokenize(query, stopwords);
    let ghost tset = token_set(query@, stop);
    let mut scored: Vec<(usize, usize)> = Vec::new();
    let mut i: usize = 0;
    assert(scored@.map_values(|p: (usize, usize)| p.0 as int) =~= spec_ranked_upto(
        index@,
        tset,
        stop,
        0,
    ));
    while i < index.len()
        invariant
            index_wf(index@),
            views_of(terms@).no_duplicates(),
            view_set_of(terms@) == tset,
            stop == view_set_of(stopwords@),
            0 <= i <= index@.len(),
            scored@.map_values(|p: (usize, usize)| p.0 as int) == spec_ranked_upto(
                index@,
                tset,
                stop,
                i as int,
            ),
            forall|k: int|
                0 <= k < scored@.len() ==> (#[trigger] scored@[k]).0 < i && scored@[k].1
                    == rank_score(index@, tset, stop, scored@[k].0 as int),
        decreases index@.len() - i,
    {
        let pf = &index[i];
        let s = score(&pf.0, &terms, &pf.1, stopwords);
        proof {
            assert((pf.0, pf.1) == index@[i as int]);
            assert(s == rank_score(index@, tset, stop, i as int));
        }
        if s > 0 {
            let ghost old_scored = scored@;
            let mut p: usize = 0;
            while p < scored.len() && scored[p].1 >= s
                invariant
                    0 <= p <= scored@.len(),
                    forall|q: int| 0 <= q < p ==> (#[trigger] scored@[q]).1 >= s,
                decreases scored@.len() - p,
            {
                p += 1;
            }
            scored.insert(p, (i, s));
            proof {
                lemma_insert_ranked_at(
                    old_scored.map_values(|x: (usize, usize)| x.0 as int),
                    i as int,
                    index@,
                    tset,
                    stop,
                    p as int,
                );
                assert(scored@ =~= old_scored.take(p as int) + seq![(i, s)] + old_scored.skip(
                    p as int,
                ));
                assert(scored@.map_values(|x: (usize, usize)| x.0 as int) =~= old_scored.map_values(
                    |x: (usize, usize)| x.0 as int,
                ).take(p as int) + seq![i as int] + old_scored.map_values(
                    |x: (usize, usize)| x.0 as int,
                ).skip(p as int));
            }
        }
        i += 1;
    }
    let ghost ranked = spec_ranked(index@, tset, stop);
    proof {
        assert(scored@.map_values(|p: (usize, usize)| p.0 as int) == ranked);
    }
    let mut out: Vec<&PostId> = Vec::new();
    let mut k: usize = 0;
    while k < num_results && k < scored.len()
        invariant
            0 <= k <= scored@.len(),
            k <= num_results,
            out@.len() == k,
            scored@.map_values(|p: (usize, usize)| p.0 as int) == ranked,
            forall|m: int| 0 <= m < scored@.len() ==> (#[trigger] scored@[m]).0 < index@.len(),
            forall|m: int| 0 <= m < k ==> *(#[trigger] out@[m]) == index@[ranked[m]].0,
        decreases scored@.len() - k,
    {
        let idx = scored[k].0;
        out.push(&index[idx].0);
        proof {
            assert(ranked[k as int] == scored@[k as int].0 as int);
        }
        k += 1;
    }
    out
}

/// Score monotonicity: adding a query term that occurs among a document's
/// title tokens raises that document's score by at least `TITLE_WEIGHT`.
pub proof fn lemma_title_match_boosts_score(
    pf: PostFilter,
    terms: Set<Seq<char>>,
    stop: Set<Seq<char>>,
    t: Seq<char>,
)
    requires
        terms.finite(),
        !terms.contains(t),
        token_set(pf.0.title@, stop).contains(t),
    ensures
        spec_score(pf, terms.insert(t), stop) >= spec_score(pf, terms, stop) + TITLE_WEIGHT,
{
    let title = token_set(pf.0.title@, stop);
    assert(terms.insert(t).intersect(title) =~= terms.intersect(title).insert(t));
    vstd::set_lib::lemma_len_intersect::<Seq<char>>(terms, title);
    assert(!terms.intersect(title).contains(t));
    assert(terms.insert(t).intersect(title).len() == terms.intersect(title).len() + 1);
    // the filter's hit set can only grow when a term is added
    let f = pf.1;
    if f.spec_contains(token_hash(t)) {
        assert(f.hit_set(terms.insert(t)) =~= f.hit_set(terms).insert(t));
        assert(!f.hit_set(terms).contains(t));
        terms.lemma_len_filter(|x: Seq<char>| f.spec_contains(token_hash(x)));
        assert(f.hit_set(terms.insert(t)).len() == f.hit_set(terms).len() + 1);
    } else {
        assert(f.hit_set(terms.insert(t)) =~= f.hit_set(terms));
    }
}

/// Score monotonicity at the machine level: as long as the boosted score
/// still fits the machine word, the saturated score the engine computes
/// also rises by at least `TITLE_WEIGHT`.
pub proof fn lemma_title_match_boosts_sat_score(
    pf: PostFilter,
    terms: Set<Seq<char>>,
    stop: Set<Seq<char>>,
    t: Seq<char>,
)
    requires
        terms.finite(),
        !terms.contains(t),
        token_set(pf.0.title@, stop).contains(t),
        spec_score(pf, terms.insert(t), stop) <= usize::MAX,
    ensures
        sat_usize(spec_score(pf, terms.insert(t), stop)) >= sat_usize(spec_score(pf, terms, stop))
            + TITLE_WEIGHT,
{
    lemma_title_match_boosts_score(pf, terms, stop, t);
}

} // verus!

verus! {

/// Two entries with the same content score the same against any query.
proof fn lemma_score_model(a: PostFilter, b: PostFilter, terms: Set<Seq<char>>, stop: Set<Seq<char>>)
    requires
        crate::storage::entry_model(a) == crate::storage::entry_model(b),
    ensures
        spec_score(a, terms, stop) == spec_score(b, terms, stop),
{
    assert(a.0.title@ == b.0.title@);
    assert(a.1.hit_set(terms) =~= b.1.hit_set(terms));
}

proof fn lemma_insert_ranked_model(
    r: Seq<int>,
    i: int,
    x: Seq<PostFilter>,
    y: Seq<PostFilter>,
    terms: Set<Seq<char>>,
    stop: Set<Seq<char>>,
)
    requires
        crate::storage::index_model(x) == crate::storage::index_model(y),
        0 <= i < x.len(),
        forall|k: int| 0 <= k < r.len() ==> 0 <= #[trigger] r[k] < x.len(),
    ensures
        insert_ranked(r, i, x, terms, stop) == insert_ranked(r, i, y, terms, stop),
    decreases r.len(),
{
    assert(x.len() == y.len()) by {
        assert(crate::storage::index_model(x).len() == x.len());
        assert(crate::storage::index_model(y).len() == y.len());
    }
    assert forall|k: int| 0 <= k < x.len() implies rank_score(x, terms, stop, k) == rank_score(
        y,
        terms,
        stop,
        k,
    ) by {
        assert(crate::storage::index_model(x)[k] == crate::storage::entry_model(x[k]));
        assert(crate::storage::index_model(y)[k] == crate::storage::entry_model(y[k]));
        lemma_score_model(x[k], y[k], terms, stop);
    }
    if r.len() > 0 {
        lemma_insert_ranked_model(r.drop_first(), i, x, y, terms, stop);
    }
}

/// An index decoded from the encoding of another answers every query with
/// the same ranking: search depends only on the indexes' content.
pub proof fn lemma_search_depends_on_content(
    x: Seq<PostFilter>,
    y: Seq<PostFilter>,
    terms: Set<Seq<char>>,
    stop: Set<Seq<char>>,
)
    requires
        crate::storage::index_model(x) == crate::storage::index_model(y),
    ensures
        spec_ranked(x, terms, stop) == spec_ranked(y, terms, stop),
        forall|k: int|
            0 <= k < spec_ranked(x, terms, stop).len() && 0 <= spec_ranked(x, terms, stop)[k]
                < x.len() ==> x[spec_ranked(x, terms, stop)[k]].0.title@ == y[spec_ranked(
                x,
                terms,
                stop,
            )[k]].0.title@ && x[spec_ranked(x, terms, stop)[k]].0.url@ == y[spec_ranked(
                x,
                terms,
                stop,
            )[k]].0.url@ && x[spec_ranked(x, terms, stop)[k]].0.meta@ == y[spec_ranked(
                x,
                terms,
                stop,
            )[k]].0.meta@,
{
    assert(x.len() == y.len()) by {
        assert(crate::storage::index_model(x).len() == x.len());
        assert(crate::storage::index_model(y).len() == y.len());
    }
    assert forall|n: int| 0 <= n <= x.len() implies spec_ranked_upto(x, terms, stop, n)
        == spec_ranked_upto(y, terms, stop, n) by {
        lemma_ranked_upto_model(x, y, terms, stop, n);
    }
    assert forall|k: int|
        0 <= k < x.len() implies crate::storage::entry_model(#[trigger] x[k])
        == crate::storage::entry_model(y[k]) by {
        assert(crate::storage::index_model(x)[k] == crate::storage::entry_model(x[k]));
        assert(crate::storage::index_model(y)[k] == crate::storage::entry_model(y[k]));
    }
}

proof fn lemma_ranked_upto_model(
    x: Seq<PostFilter>,
    y: Seq<PostFilter>,
    terms: Set<Seq<char>>,
    stop: Set<Seq<char>>,
    n: int,
)
    requires
        crate::storage::index_model(x) == crate::storage::index_model(y),
        n <= x.len(),
    ensures
        spec_ranked_upto(x, terms, stop, n) == spec_ranked_upto(y, terms, stop, n),
    decreases n,
{
    assert(x.len() == y.len()) by {
        assert(crate::storage::index_model(x).len() == x.len());
        assert(crate::storage::index_model(y).len() == y.len());
    }
    if n > 0 {
        lemma_ranked_upto_model(x, y, terms, stop, n - 1);
        if n <= x.len() {
            assert(crate::storage::index_model(x)[n - 1] == crate::storage::entry_model(x[n - 1]));
            assert(crate::storage::index_model(y)[n - 1] == crate::storage::entry_model(y[n - 1]));
            lemma_score_model(x[n - 1], y[n - 1], terms, stop);
            lemma_ranked_upto_sorted(x, terms, stop, n - 1);
            lemma_insert_ranked_model(
                spec_ranked_upto(x, terms, stop, n - 1),
                n - 1,
                x,
                y,
                terms,
                stop,
            );
        }
    }
}

} // verus!

verus! {

/// Round trip: an index decoded from another's encoding answers every
/// search query with exactly the same ranking.
pub proof fn lemma_round_trip_preserves_search(
    x: Seq<PostFilter>,
    y: Seq<PostFilter>,
    terms: Set<Seq<char>>,
    stop: Set<Seq<char>>,
)
    requires
        crate::storage::index_bounded(crate::storage::index_model(x)),
        crate::storage::spec_decode(crate::storage::spec_encode(crate::storage::index_model(x)))
            == Some(crate::storage::index_model(y)),
    ensures
        spec_ranked(x, terms, stop) == spec_ranked(y, terms, stop),
{
    crate::storage::lemma_round_trip(crate::storage::index_model(x));
    lemma_search_depends_on_content(x, y, terms, stop);
}

} // verus!

verus! {

/// An empty text has no tokens.
pub proof fn lemma_empty_text_no_tokens(stop: Set<Seq<char>>)
    ensures
        token_set(Seq::<char>::empty(), stop) == Set::<Seq<char>>::empty(),
{
    assert forall|x: Seq<char>| !token_set(Seq::<char>::empty(), stop).contains(x) by {
        if token_set(Seq::<char>::empty(), stop).contains(x) {
            let (a, b) = choose|a: int, b: int|
                crate::tokenize::is_run(Seq::<char>::empty(), a, b) && b <= 0 && x == crate::tokenize::lower_of(
                    Seq::<char>::empty().subrange(a, b),
                ) && !stop.contains(x);
            assert(false);
        }
    }
    assert(token_set(Seq::<char>::empty(), stop) =~= Set::<Seq<char>>::empty());
}

/// A query without terms matches nothing: every document scores zero, so
/// the ranking is empty whatever the index holds.
pub proof fn lemma_empty_query_empty_ranking(index: Seq<PostFilter>, stop: Set<Seq<char>>)
    ensures
        spec_ranked(index, Set::<Seq<char>>::empty(), stop) == Seq::<int>::empty(),
{
    let terms = Set::<Seq<char>>::empty();
    assert forall|n: int| 0 <= n <= index.len() implies spec_ranked_upto(index, terms, stop, n)
        == Seq::<int>::empty() by {
        lemma_empty_ranking_upto(index, stop, n);
    }
}

proof fn lemma_empty_ranking_upto(index: Seq<PostFilter>, stop: Set<Seq<char>>, n: int)
    ensures
        spec_ranked_upto(index, Set::<Seq<char>>::empty(), stop, n) == Seq::<int>::empty(),
    decreases n,
{
    let terms = Set::<Seq<char>>::empty();
    if n > 0 {
        lemma_empty_ranking_upto(index, stop, n - 1);
        let pf = index[n - 1];
        assert(terms.intersect(token_set(pf.0.title@, stop)) =~= Set::<Seq<char>>::empty());
        assert(pf.1.hit_set(terms) =~= Set::<Seq<char>>::empty());
        assert(spec_score(pf, terms, stop) == 0);
    }
}

} // verus!

verus! {

/// Inserting keeps every old entry and adds the new one.
proof fn lemma_insert_ranked_complete(
    r: Seq<int>,
    i: int,
    index: Seq<PostFilter>,
    terms: Set<Seq<char>>,
    stop: Set<Seq<char>>,
)
    ensures
        insert_ranked(r, i, index, terms, stop).contains(i),
        forall|x: int| r.contains(x) ==> insert_ranked(r, i, index, terms, stop).contains(x),
    decreases r.len(),
{
    let res = insert_ranked(r, i, index, terms, stop);
    if r.len() == 0 {
        assert(res[0] == i);
    } else if rank_score(index, terms, stop, r[0]) >= rank_score(index, terms, stop, i) {
        let tail = r.drop_first();
        lemma_insert_ranked_complete(tail, i, index, terms, stop);
        let tres = insert_ranked(tail, i, index, terms, stop);
        assert(res =~= seq![r[0]] + tres);
        let k = choose|k: int| 0 <= k < tres.len() && tres[k] == i;
        assert(res[k + 1] == i);
        assert forall|x: int| r.contains(x) implies res.contains(x) by {
            let j = choose|j: int| 0 <= j < r.len() && r[j] == x;
            if j == 0 {
                assert(res[0] == x);
            } else {
                assert(tail[j - 1] == x);
                assert(tail.contains(x));
                let m = choose|m: int| 0 <= m < tres.len() && tres[m] == x;
                assert(res[m + 1] == x);
            }
        }
    } else {
        assert(res =~= seq![i] + r);
        assert(res[0] == i);
        assert forall|x: int| r.contains(x) implies res.contains(x) by {
            let j = choose|j: int| 0 <= j < r.len() && r[j] == x;
            assert(res[j + 1] == x);
        }
    }
}

/// The ranking holds exactly the documents with a positive score: none is
/// dropped, none is invented, and none appears twice.
pub proof fn lemma_ranking_complete(
    index: Seq<PostFilter>,
    terms: Set<Seq<char>>,
    stop: Set<Seq<char>>,
)
    ensures
        forall|i: int|
            0 <= i < index.len() && rank_score(index, terms, stop, i) > 0 ==> spec_ranked(
                index,
                terms,
                stop,
            ).contains(i),
        forall|k: int|
            0 <= k < spec_ranked(index, terms, stop).len() ==> {
                let i = #[trigger] spec_ranked(index, terms, stop)[k];
                0 <= i < index.len() && rank_score(index, terms, stop, i) > 0
            },
        spec_ranked(index, terms, stop).no_duplicates(),
{
    lemma_ranking_complete_upto(index, terms, stop, index.len() as int);
}

proof fn lemma_ranking_complete_upto(
    index: Seq<PostFilter>,
    terms: Set<Seq<char>>,
    stop: Set<Seq<char>>,
    n: int,
)
    ensures
        forall|i: int|
            0 <= i < n && rank_score(index, terms, stop, i) > 0 ==> spec_ranked_upto(
                index,
                terms,
                stop,
                n,
            ).contains(i),
        forall|k: int|
            0 <= k < spec_ranked_upto(index, terms, stop, n).len() ==> {
                let i = #[trigger] spec_ranked_upto(index, terms, stop, n)[k];
                0 <= i < n && rank_score(index, terms, stop, i) > 0
            },
        spec_ranked_upto(index, terms, stop, n).no_duplicates(),
    decreases n,
{
    if n > 0 {
        lemma_ranking_complete_upto(index, terms, stop, n - 1);
        let prev = spec_ranked_upto(index, terms, stop, n - 1);
        let res = spec_ranked_upto(index, terms, stop, n);
        if rank_score(index, terms, stop, n - 1) > 0 {
            lemma_insert_ranked_complete(prev, n - 1, index, terms, stop);
            lemma_insert_ranked_members(prev, n - 1, index, terms, stop);
            assert forall|i: int|
                0 <= i < n && rank_score(index, terms, stop, i) > 0 implies res.contains(i) by {
                if i < n - 1 {
                    assert(prev.contains(i));
                }
            }
            assert forall|k: int| 0 <= k < res.len() implies {
                let i = #[trigger] res[k];
                0 <= i < n && rank_score(index, terms, stop, i) > 0
            } by {
                if res[k] != n - 1 {
                    let m = choose|m: int| 0 <= m < prev.len() && prev[m] == res[k];
                }
            }
            assert(res.no_duplicates()) by {
                // the earlier ranking never holds the new index, so the
                // insertion cannot introduce a repeat
                assert(!prev.contains(n - 1));
                assert forall|a: int, b: int| 0 <= a < b < res.len() implies res[a] != res[b] by {
                    lemma_insert_positions_distinct(prev, n - 1, index, terms, stop, a, b);
                }
            }
        }
    }
}

/// Every entry of an insertion result is the new value or one of the old
/// entries.
proof fn lemma_insert_ranked_members(
    r: Seq<int>,
    i: int,
    index: Seq<PostFilter>,
    terms: Set<Seq<char>>,
    stop: Set<Seq<char>>,
)
    ensures
        insert_ranked(r, i, index, terms, stop).len() == r.len() + 1,
        forall|k: int|
            0 <= k < insert_ranked(r, i, index, terms, stop).len() ==> (#[trigger] insert_ranked(
                r,
                i,
                index,
                terms,
                stop,
            )[k] == i || r.contains(insert_ranked(r, i, index, terms, stop)[k])),
    decreases r.len(),
{
    let res = insert_ranked(r, i, index, terms, stop);
    if r.len() == 0 {
    } else if rank_score(index, terms, stop, r[0]) >= rank_score(index, terms, stop, i) {
        let tail = r.drop_first();
        lemma_insert_ranked_members(tail, i, index, terms, stop);
        let tres = insert_ranked(tail, i, index, terms, stop);
        assert(res =~= seq![r[0]] + tres);
        assert forall|k: int| 0 <= k < res.len() implies (#[trigger] res[k] == i || r.contains(
            res[k],
        )) by {
            if k == 0 {
                assert(r[0] == res[0]);
            } else {
                assert(res[k] == tres[k - 1]);
                if tres[k - 1] != i {
                    let m = choose|m: int| 0 <= m < tail.len() && tail[m] == tres[k - 1];
                    assert(r[m + 1] == tres[k - 1]);
                }
            }
        }
    } else {
        assert(res =~= seq![i] + r);
        assert forall|k: int| 0 <= k < res.len() implies (#[trigger] res[k] == i || r.contains(
            res[k],
        )) by {
            if k > 0 {
                assert(res[k] == r[k - 1]);
            }
        }
    }
}

/// Two distinct positions of an insertion result never hold equal values,
/// provided the list inserted into had no duplicates and did not hold the
/// new value.
proof fn lemma_insert_positions_distinct(
    r: Seq<int>,
    i: int,
    index: Seq<PostFilter>,
    terms: Set<Seq<char>>,
    stop: Set<Seq<char>>,
    a: int,
    b: int,
)
    requires
        r.no_duplicates(),
        !r.contains(i),
        0 <= a < b < insert_ranked(r, i, index, terms, stop).len(),
    ensures
        insert_ranked(r, i, index, terms, stop)[a] != insert_ranked(r, i, index, terms, stop)[b],
    decreases r.len(),
{
    let res = insert_ranked(r, i, index, terms, stop);
    if r.len() == 0 {
    } else if rank_score(index, terms, stop, r[0]) >= rank_score(index, terms, stop, i) {
        let tail = r.drop_first();
        assert(res =~= seq![r[0]] + insert_ranked(tail, i, index, terms, stop));
        assert(tail.no_duplicates()) by {
            assert forall|p: int, q: int| 0 <= p < q < tail.len() implies tail[p] != tail[q] by {
                assert(r[p + 1] == tail[p] && r[q + 1] == tail[q]);
            }
        }
        assert(!tail.contains(i)) by {
            if tail.contains(i) {
                let m = choose|m: int| 0 <= m < tail.len() && tail[m] == i;
                assert(r[m + 1] == i);
            }
        }
        lemma_insert_ranked_complete(tail, i, index, terms, stop);
        lemma_insert_ranked_members(tail, i, index, terms, stop);
        if a == 0 {
            // the head differs from the new value and from every tail entry
            let tres = insert_ranked(tail, i, index, terms, stop);
            assert(res[b] == tres[b - 1]);
            if tres[b - 1] == i {
                assert(r[0] != i);
            } else {
                let m = choose|m: int| 0 <= m < tail.len() && tail[m] == tres[b - 1];
                assert(r[m + 1] == tail[m]);
                assert(r[0] != r[m + 1]);
            }
        } else {
            lemma_insert_positions_distinct(tail, i, index, terms, stop, a - 1, b - 1);
        }
    } else {
        assert(res =~= seq![i] + r);
        if a == 0 {
            assert(res[b] == r[b - 1]);
        } else {
            assert(res[a] == r[a - 1] && res[b] == r[b - 1]);
        }
    }
}

} // verus!

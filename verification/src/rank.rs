//! Ranking: the order of scored terms, sorting by it, the best of a list, and
//! the median of a list of weights.
use vstd::prelude::*;
use vstd::relations::{sorted_by, total_ordering};
use vstd::seq_lib::{lemma_multiset_commutative, lemma_sorted_unique};
use crate::text::{
    lemma_lex_le_antisymmetric,
    lemma_lex_le_reflexive,
    lemma_lex_le_total,
    lemma_lex_le_transitive,
    lex_le,
    str_le,
};

verus! {

/// The order of weights from the greatest down.
pub open spec fn descending() -> spec_fn(u64, u64) -> bool {
    |a: u64, b: u64| a >= b
}

/// Whether the scored term `a` comes before `b`, or is `b`: the higher score
/// first, and of two equal scores the word that is first in the order of words.
pub open spec fn precedes(a: (Seq<char>, u64), b: (Seq<char>, u64)) -> bool {
    a.1 > b.1 || (a.1 == b.1 && lex_le(a.0, b.0))
}

/// [`precedes`] as a relation.
pub open spec fn ranking() -> spec_fn((Seq<char>, u64), (Seq<char>, u64)) -> bool {
    |a: (Seq<char>, u64), b: (Seq<char>, u64)| precedes(a, b)
}

/// The scored terms of a list, each word as its characters.
pub open spec fn term_views(v: Seq<(String, u64)>) -> Seq<(Seq<char>, u64)> {
    v.map_values(|t: (String, u64)| (t.0@, t.1))
}

/// The terms in ranking order.
pub open spec fn ranked(terms: Seq<(Seq<char>, u64)>) -> Seq<(Seq<char>, u64)> {
    terms.sort_by(ranking())
}

/// How many terms a request for `k` gets out of `n`: all of them when `k` is 0.
pub open spec fn best_len(n: nat, k: nat) -> nat {
    if k == 0 || k >= n {
        n
    } else {
        k
    }
}

/// The first `k` terms in ranking order, or all of them in that order when
/// `k` is 0 or there are no more than `k`.
pub open spec fn best(terms: Seq<(Seq<char>, u64)>, k: nat) -> Seq<(Seq<char>, u64)> {
    ranked(terms).take(best_len(terms.len(), k) as int)
}

/// The median of a list of weights that is not empty: with the weights
/// in descending order, the one at place `len / 2`, counted from 0.
pub open spec fn lower_median(values: Seq<u64>) -> u64
    recommends
        values.len() > 0,
{
    values.sort_by(descending())[values.len() as int / 2]
}

/// The ranking is a total order of scored terms.
pub proof fn lemma_ranking_total()
    ensures
        total_ordering(ranking()),
{
    let r = ranking();
    assert forall|x: (Seq<char>, u64)| #[trigger] r(x, x) by {
        lemma_lex_le_reflexive(x.0);
    }
    assert forall|x: (Seq<char>, u64), y: (Seq<char>, u64)| #[trigger]
        r(x, y) && #[trigger] r(y, x) implies x == y by {
        lemma_lex_le_antisymmetric(x.0, y.0);
    }
    assert forall|x: (Seq<char>, u64), y: (Seq<char>, u64), z: (Seq<char>, u64)| #[trigger]
        r(x, y) && #[trigger] r(y, z) implies r(x, z) by {
        if x.1 == y.1 && y.1 == z.1 {
            lemma_lex_le_transitive(x.0, y.0, z.0);
        }
    }
    assert forall|x: (Seq<char>, u64), y: (Seq<char>, u64)| #[trigger]
        r(x, y) || #[trigger] r(y, x) by {
        lemma_lex_le_total(x.0, y.0);
    }
}

/// Ranking keeps the number of terms.
pub proof fn lemma_ranked_len(terms: Seq<(Seq<char>, u64)>)
    ensures
        ranked(terms).len() == terms.len(),
{
    lemma_ranking_total();
    terms.lemma_sort_by_ensures(ranking());
    vstd::seq_lib::to_multiset_len(terms);
    vstd::seq_lib::to_multiset_len(ranked(terms));
}

/// A request for `k` terms gets no more than `k`, and as many as there are
/// where there are no more than `k`; a request with `k` 0 gets all.
pub proof fn lemma_best_len(terms: Seq<(Seq<char>, u64)>, k: nat)
    ensures
        best(terms, k).len() == best_len(terms.len(), k),
        k > 0 ==> best(terms, k).len() <= k,
        k == 0 || k >= terms.len() ==> best(terms, k).len() == terms.len(),
{
    lemma_ranked_len(terms);
}

/// The best terms stand in ranking order: scores descend, and of two equal
/// scores the word that is first in the order of words comes first. This
/// holds for every `k`, 0 too.
pub proof fn lemma_best_sorted(terms: Seq<(Seq<char>, u64)>, k: nat)
    ensures
        forall|i: int, j: int|
            0 <= i < j < best(terms, k).len() ==> precedes(
                #[trigger] best(terms, k)[i],
                #[trigger] best(terms, k)[j],
            ),
{
    lemma_ranking_total();
    lemma_ranked_len(terms);
    terms.lemma_sort_by_ensures(ranking());
    assert forall|i: int, j: int| 0 <= i < j < best(terms, k).len() implies precedes(
        #[trigger] best(terms, k)[i],
        #[trigger] best(terms, k)[j],
    ) by {
        assert(ranking()(ranked(terms)[i], ranked(terms)[j]));
    }
}

/// The best terms do not depend on the order in which the terms are given.
pub proof fn lemma_best_order_free(a: Seq<(Seq<char>, u64)>, b: Seq<(Seq<char>, u64)>, k: nat)
    requires
        a.to_multiset() == b.to_multiset(),
    ensures
        best(a, k) == best(b, k),
{
    lemma_ranking_total();
    a.lemma_sort_by_ensures(ranking());
    b.lemma_sort_by_ensures(ranking());
    lemma_sorted_unique(ranked(a), ranked(b), ranking());
    lemma_ranked_len(a);
    lemma_ranked_len(b);
}

/// Each of the best terms is one of the terms.
pub proof fn lemma_best_from_terms(terms: Seq<(Seq<char>, u64)>, k: nat, i: int)
    requires
        0 <= i < best(terms, k).len(),
    ensures
        terms.contains(best(terms, k)[i]),
{
    lemma_ranking_total();
    lemma_ranked_len(terms);
    terms.lemma_sort_by_ensures(ranking());
    assert(ranked(terms)[i] == best(terms, k)[i]);
    assert(ranked(terms).contains(best(terms, k)[i]));
}

/// A term that is not among the best comes after each of them in the ranking.
pub proof fn lemma_best_is_top(terms: Seq<(Seq<char>, u64)>, k: nat, x: (Seq<char>, u64))
    requires
        terms.contains(x),
        !best(terms, k).contains(x),
    ensures
        forall|i: int| 0 <= i < best(terms, k).len() ==> precedes(#[trigger] best(terms, k)[i], x),
{
    lemma_ranking_total();
    lemma_ranked_len(terms);
    terms.lemma_sort_by_ensures(ranking());
    vstd::seq_lib::to_multiset_contains(terms, x);
    vstd::seq_lib::to_multiset_contains(ranked(terms), x);
    let p = choose|p: int| 0 <= p < ranked(terms).len() && ranked(terms)[p] == x;
    if p < best(terms, k).len() {
        assert(best(terms, k)[p] == x);
    }
    assert forall|i: int| 0 <= i < best(terms, k).len() implies precedes(
        #[trigger] best(terms, k)[i],
        x,
    ) by {
        assert(ranking()(ranked(terms)[i], ranked(terms)[p]));
    }
}

/// Where no two terms have the same word, no two of the best have.
pub proof fn lemma_best_distinct(terms: Seq<(Seq<char>, u64)>, k: nat, i: int, j: int)
    requires
        forall|p: int, q: int|
            0 <= p < q < terms.len() ==> (#[trigger] terms[p]).0 != (#[trigger] terms[q]).0,
        0 <= i < j < best(terms, k).len(),
    ensures
        best(terms, k)[i].0 != best(terms, k)[j].0,
{
    lemma_ranking_total();
    lemma_ranked_len(terms);
    terms.lemma_sort_by_ensures(ranking());
    let r = ranked(terms);
    assert(terms.no_duplicates()) by {
        assert forall|p: int, q: int|
            0 <= p < terms.len() && 0 <= q < terms.len() && p != q implies terms[p] != terms[q] by {
            if p < q {
                assert(terms[p].0 != terms[q].0);
            } else {
                assert(terms[q].0 != terms[p].0);
            }
        }
    }
    terms.lemma_multiset_has_no_duplicates();
    r.lemma_multiset_has_no_duplicates_conv();
    assert(r[i] != r[j]);
    assert(r.contains(r[i]));
    assert(r.contains(r[j]));
    let p = choose|p: int| 0 <= p < terms.len() && terms[p] == r[i];
    let q = choose|q: int| 0 <= q < terms.len() && terms[q] == r[j];
    if p < q {
        assert(terms[p].0 != terms[q].0);
    } else if q < p {
        assert(terms[q].0 != terms[p].0);
    }
}

/// The median is one of the weights.
pub proof fn lemma_median_is_member(values: Seq<u64>)
    requires
        values.len() > 0,
    ensures
        values.contains(lower_median(values)),
{
    let sorted = values.sort_by(descending());
    values.lemma_sort_by_ensures(descending());
    vstd::seq_lib::to_multiset_len(values);
    vstd::seq_lib::to_multiset_len(sorted);
    let m = sorted[values.len() as int / 2];
    assert(sorted.contains(m));
}

/// The median does not depend on the order of the weights.
pub proof fn lemma_median_order_free(a: Seq<u64>, b: Seq<u64>)
    requires
        a.to_multiset() == b.to_multiset(),
    ensures
        lower_median(a) == lower_median(b),
{
    a.lemma_sort_by_ensures(descending());
    b.lemma_sort_by_ensures(descending());
    lemma_sorted_unique(a.sort_by(descending()), b.sort_by(descending()), descending());
    vstd::seq_lib::to_multiset_len(a);
    vstd::seq_lib::to_multiset_len(b);
}

/// With the weights in descending order, at least half of them, rounded
/// down, stand before the median, and none of those is less than it; none
/// that stands after it is greater.
pub proof fn lemma_median_is_middle(values: Seq<u64>, i: int)
    requires
        0 <= i < values.len(),
    ensures
        i <= values.len() / 2 ==> values.sort_by(descending())[i] >= lower_median(values),
        i >= values.len() / 2 ==> values.sort_by(descending())[i] <= lower_median(values),
        values.sort_by(descending()).len() == values.len(),
{
    let sorted = values.sort_by(descending());
    values.lemma_sort_by_ensures(descending());
    vstd::seq_lib::to_multiset_len(values);
    vstd::seq_lib::to_multiset_len(sorted);
    let mid = values.len() as int / 2;
    if i < mid {
        assert(descending()(sorted[i], sorted[mid]));
    }
    if i > mid {
        assert(descending()(sorted[mid], sorted[i]));
    }
}

/// The state of a merge of the sorted lists `a` and `b` that has taken `i`
/// items of `a` and `j` of `b` into `r`.
spec fn merging<A>(r: Seq<A>, a: Seq<A>, b: Seq<A>, i: int, j: int, leq: spec_fn(A, A) -> bool) -> bool {
    &&& 0 <= i <= a.len()
    &&& 0 <= j <= b.len()
    &&& r.len() == i + j
    &&& sorted_by(r, leq)
    &&& r.to_multiset() == a.take(i).to_multiset().add(b.take(j).to_multiset())
    &&& forall|p: int, q: int| 0 <= p < r.len() && i <= q < a.len() ==> #[trigger] leq(r[p], a[q])
    &&& forall|p: int, q: int| 0 <= p < r.len() && j <= q < b.len() ==> #[trigger] leq(r[p], b[q])
}

proof fn lemma_merge_start<A>(a: Seq<A>, b: Seq<A>, leq: spec_fn(A, A) -> bool)
    ensures
        merging(Seq::<A>::empty(), a, b, 0, 0, leq),
{
    assert(a.take(0) =~= Seq::<A>::empty());
    assert(b.take(0) =~= Seq::<A>::empty());
    let e = Seq::<A>::empty();
    assert(e + e =~= e);
    lemma_multiset_commutative(e, e);
}

proof fn lemma_merge_swap<A>(r: Seq<A>, a: Seq<A>, b: Seq<A>, i: int, j: int, leq: spec_fn(A, A) -> bool)
    requires
        merging(r, a, b, i, j, leq),
    ensures
        merging(r, b, a, j, i, leq),
{
    broadcast use vstd::multiset::group_multiset_axioms;

    assert(a.take(i).to_multiset().add(b.take(j).to_multiset()) =~= b.take(j).to_multiset().add(
        a.take(i).to_multiset(),
    ));
}

proof fn lemma_merge_step<A>(r: Seq<A>, a: Seq<A>, b: Seq<A>, i: int, j: int, leq: spec_fn(A, A) -> bool)
    requires
        total_ordering(leq),
        sorted_by(a, leq),
        sorted_by(b, leq),
        merging(r, a, b, i, j, leq),
        i < a.len(),
        j < b.len() ==> leq(a[i], b[j]),
    ensures
        merging(r.push(a[i]), a, b, i + 1, j, leq),
{
    broadcast use vstd::multiset::group_multiset_axioms;
    broadcast use vstd::seq_lib::group_to_multiset_ensures;

    let r2 = r.push(a[i]);
    assert(a.take(i + 1) =~= a.take(i).push(a[i]));
    assert(r2.to_multiset() =~= a.take(i + 1).to_multiset().add(b.take(j).to_multiset()));
    assert forall|p: int, q: int| 0 <= p < q < r2.len() implies #[trigger] leq(r2[p], r2[q]) by {
        if q < r.len() {
            assert(leq(r[p], r[q]));
        } else {
            assert(leq(r[p], a[i]));
        }
    }
    assert forall|p: int, q: int| 0 <= p < r2.len() && i + 1 <= q < a.len() implies #[trigger] leq(
        r2[p],
        a[q],
    ) by {
        if p < r.len() {
            assert(leq(r[p], a[q]));
        } else {
            assert(leq(a[i], a[q]));
        }
    }
    assert forall|p: int, q: int| 0 <= p < r2.len() && j <= q < b.len() implies #[trigger] leq(
        r2[p],
        b[q],
    ) by {
        if p < r.len() {
            assert(leq(r[p], b[q]));
        } else {
            assert(leq(a[i], b[j]));
            if j < q {
                assert(leq(b[j], b[q]));
            }
            assert(leq(a[i], b[q]));
        }
    }
}

proof fn lemma_merge_end<A>(r: Seq<A>, a: Seq<A>, b: Seq<A>, leq: spec_fn(A, A) -> bool)
    requires
        merging(r, a, b, a.len() as int, b.len() as int, leq),
    ensures
        sorted_by(r, leq),
        r.len() == a.len() + b.len(),
        r.to_multiset() == (a + b).to_multiset(),
{
    assert(a.take(a.len() as int) =~= a);
    assert(b.take(b.len() as int) =~= b);
    lemma_multiset_commutative(a, b);
}

proof fn lemma_split_multiset<A>(s: Seq<A>, lo: int, mid: int, hi: int)
    requires
        0 <= lo <= mid <= hi <= s.len(),
    ensures
        s.subrange(lo, hi).to_multiset() == (s.subrange(lo, mid) + s.subrange(mid, hi)).to_multiset(),
{
    assert(s.subrange(lo, hi) =~= s.subrange(lo, mid) + s.subrange(mid, hi));
}

/// A list that is sorted by a total order and holds what `s` holds is `s` sorted.
proof fn lemma_is_sort<A>(r: Seq<A>, s: Seq<A>, leq: spec_fn(A, A) -> bool)
    requires
        total_ordering(leq),
        sorted_by(r, leq),
        r.to_multiset() == s.to_multiset(),
    ensures
        r == s.sort_by(leq),
{
    s.lemma_sort_by_ensures(leq);
    lemma_sorted_unique(r, s.sort_by(leq), leq);
}

fn merge_descending(a: &Vec<u64>, b: &Vec<u64>) -> (r: Vec<u64>)
    requires
        sorted_by(a@, descending()),
        sorted_by(b@, descending()),
        a.len() + b.len() <= usize::MAX,
    ensures
        sorted_by(r@, descending()),
        r.len() == a.len() + b.len(),
        r@.to_multiset() == (a@ + b@).to_multiset(),
{
    let mut r: Vec<u64> = Vec::new();
    let mut i: usize = 0;
    let mut j: usize = 0;
    proof {
        lemma_merge_start(a@, b@, descending());
    }
    while i < a.len() || j < b.len()
        invariant
            sorted_by(a@, descending()),
            sorted_by(b@, descending()),
            a.len() + b.len() <= usize::MAX,
            merging(r@, a@, b@, i as int, j as int, descending()),
        decreases a.len() - i + b.len() - j,
    {
        let from_a = if i < a.len() && j < b.len() {
            a[i] >= b[j]
        } else {
            i < a.len()
        };
        if from_a {
            proof {
                lemma_merge_step(r@, a@, b@, i as int, j as int, descending());
            }
            r.push(a[i]);
            i += 1;
        } else {
            proof {
                lemma_merge_swap(r@, a@, b@, i as int, j as int, descending());
                lemma_merge_step(r@, b@, a@, j as int, i as int, descending());
                lemma_merge_swap(r@.push(b@[j as int]), b@, a@, j as int + 1, i as int, descending());
            }
            r.push(b[j]);
            j += 1;
        }
    }
    proof {
        lemma_merge_end(r@, a@, b@, descending());
    }
    r
}

fn sort_descending_range(v: &Vec<u64>, lo: usize, hi: usize) -> (r: Vec<u64>)
    requires
        lo <= hi <= v.len(),
    ensures
        sorted_by(r@, descending()),
        r.len() == hi - lo,
        r@.to_multiset() == v@.subrange(lo as int, hi as int).to_multiset(),
    decreases hi - lo,
{
    if hi - lo <= 1 {
        let mut r: Vec<u64> = Vec::new();
        if lo < hi {
            r.push(v[lo]);
        }
        assert(r@ =~= v@.subrange(lo as int, hi as int));
        r
    } else {
        let mid: usize = lo + (hi - lo) / 2;
        let left = sort_descending_range(v, lo, mid);
        let right = sort_descending_range(v, mid, hi);
        let r = merge_descending(&left, &right);
        proof {
            lemma_split_multiset(v@, lo as int, mid as int, hi as int);
            lemma_multiset_commutative(left@, right@);
            lemma_multiset_commutative(
                v@.subrange(lo as int, mid as int),
                v@.subrange(mid as int, hi as int),
            );
        }
        r
    }
}

/// Sorts weights from the greatest down.
pub fn sort_descending(values: &Vec<u64>) -> (r: Vec<u64>)
    ensures
        r@ == values@.sort_by(descending()),
{
    let r = sort_descending_range(values, 0, values.len());
    proof {
        assert(values@.subrange(0, values.len() as int) =~= values@);
        lemma_is_sort(r@, values@, descending());
    }
    r
}

/// The median of a list of weights that is not empty.
pub fn median_of(values: &Vec<u64>) -> (m: u64)
    requires
        values.len() > 0,
    ensures
        m == lower_median(values@),
{
    let sorted = sort_descending(values);
    proof {
        values@.lemma_sort_by_ensures(descending());
        vstd::seq_lib::to_multiset_len(values@);
        vstd::seq_lib::to_multiset_len(sorted@);
    }
    sorted[values.len() / 2]
}

/// Whether `a` comes before `b` in the ranking, or is `b`.
pub fn term_precedes(a: &(String, u64), b: &(String, u64)) -> (r: bool)
    ensures
        r == precedes((a.0@, a.1), (b.0@, b.1)),
{
    a.1 > b.1 || (a.1 == b.1 && str_le(a.0.as_str(), b.0.as_str()))
}

fn merge_ranked(a: &Vec<(String, u64)>, b: &Vec<(String, u64)>) -> (r: Vec<(String, u64)>)
    requires
        sorted_by(term_views(a@), ranking()),
        sorted_by(term_views(b@), ranking()),
        a.len() + b.len() <= usize::MAX,
    ensures
        sorted_by(term_views(r@), ranking()),
        r.len() == a.len() + b.len(),
        term_views(r@).to_multiset() == (term_views(a@) + term_views(b@)).to_multiset(),
{
    let mut r: Vec<(String, u64)> = Vec::new();
    let mut i: usize = 0;
    let mut j: usize = 0;
    proof {
        lemma_ranking_total();
        lemma_merge_start(term_views(a@), term_views(b@), ranking());
        assert(term_views(r@) =~= Seq::empty());
    }
    while i < a.len() || j < b.len()
        invariant
            total_ordering(ranking()),
            sorted_by(term_views(a@), ranking()),
            sorted_by(term_views(b@), ranking()),
            a.len() + b.len() <= usize::MAX,
            merging(term_views(r@), term_views(a@), term_views(b@), i as int, j as int, ranking()),
        decreases a.len() - i + b.len() - j,
    {
        let from_a = if i < a.len() && j < b.len() {
            term_precedes(&a[i], &b[j])
        } else {
            i < a.len()
        };
        let ghost before = term_views(r@);
        let ghost av = term_views(a@);
        let ghost bv = term_views(b@);
        if from_a {
            proof {
                lemma_merge_step(before, av, bv, i as int, j as int, ranking());
            }
            let word = a[i].0.clone();
            r.push((word, a[i].1));
            assert(term_views(r@) =~= before.push(av[i as int]));
            i += 1;
        } else {
            proof {
                lemma_merge_swap(before, av, bv, i as int, j as int, ranking());
                if i < a.len() {
                    assert(ranking()(av[i as int], bv[j as int]) || ranking()(bv[j as int], av[i as int]));
                }
                lemma_merge_step(before, bv, av, j as int, i as int, ranking());
                lemma_merge_swap(before.push(bv[j as int]), bv, av, j as int + 1, i as int, ranking());
            }
            let word = b[j].0.clone();
            r.push((word, b[j].1));
            assert(term_views(r@) =~= before.push(bv[j as int]));
            j += 1;
        }
    }
    proof {
        lemma_merge_end(term_views(r@), term_views(a@), term_views(b@), ranking());
    }
    r
}

fn rank_range(v: &Vec<(String, u64)>, lo: usize, hi: usize) -> (r: Vec<(String, u64)>)
    requires
        lo <= hi <= v.len(),
    ensures
        sorted_by(term_views(r@), ranking()),
        r.len() == hi - lo,
        term_views(r@).to_multiset() == term_views(v@).subrange(lo as int, hi as int).to_multiset(),
    decreases hi - lo,
{
    if hi - lo <= 1 {
        let mut r: Vec<(String, u64)> = Vec::new();
        if lo < hi {
            let word = v[lo].0.clone();
            r.push((word, v[lo].1));
        }
        assert(term_views(r@) =~= term_views(v@).subrange(lo as int, hi as int));
        r
    } else {
        let mid: usize = lo + (hi - lo) / 2;
        let left = rank_range(v, lo, mid);
        let right = rank_range(v, mid, hi);
        let r = merge_ranked(&left, &right);
        proof {
            let s = term_views(v@);
            lemma_split_multiset(s, lo as int, mid as int, hi as int);
            lemma_multiset_commutative(term_views(left@), term_views(right@));
            lemma_multiset_commutative(s.subrange(lo as int, mid as int), s.subrange(mid as int, hi as int));
        }
        r
    }
}

/// Puts scored terms in ranking order.
pub fn rank_terms(scored: &Vec<(String, u64)>) -> (r: Vec<(String, u64)>)
    ensures
        term_views(r@) == ranked(term_views(scored@)),
{
    let r = rank_range(scored, 0, scored.len());
    proof {
        let s = term_views(scored@);
        assert(s.subrange(0, scored.len() as int) =~= s);
        lemma_ranking_total();
        lemma_is_sort(term_views(r@), s, ranking());
    }
    r
}

/// A ranked list with one more term, put at its place, is `c`: where the
/// list is full, the term must come before its last.
proof fn lemma_best_insert(s: Seq<(Seq<char>, u64)>, x: (Seq<char>, u64), k: nat, c: Seq<(Seq<char>, u64)>)
    requires
        k > 0,
        sorted_by(c, ranking()),
        c.len() == best(s, k).len() + 1,
        c.to_multiset() == best(s, k).to_multiset().insert(x),
        best(s, k).len() == k ==> precedes(x, best(s, k).last()),
    ensures
        best(s.push(x), k) == c.take(best_len(s.len() + 1, k) as int),
        best_len(s.len() + 1, k) <= c.len(),
{
    broadcast use vstd::multiset::group_multiset_axioms;

    lemma_ranking_total();
    lemma_ranked_len(s);
    let leq = ranking();
    let r = ranked(s);
    s.lemma_sort_by_ensures(leq);
    let kk = best_len(s.len(), k) as int;
    let b = r.take(kk);
    let t = r.skip(kk);
    let whole = c + t;
    assert(r =~= b + t);
    assert forall|i: int, j: int| 0 <= i < j < whole.len() implies #[trigger] leq(whole[i], whole[j]) by {
        if j < c.len() {
            assert(leq(c[i], c[j]));
        } else if i >= c.len() {
            assert(leq(r[kk + i - c.len()], r[kk + j - c.len()]));
        } else {
            let y = c[i];
            let z = r[kk + j - c.len()];
            assert(c.contains(y));
            vstd::seq_lib::to_multiset_contains(c, y);
            vstd::seq_lib::to_multiset_contains(b, y);
            if y == x {
                assert(b.last() == r[kk - 1]);
                assert(leq(r[kk - 1], z));
                assert(leq(x, b.last()));
            } else {
                let q = choose|q: int| 0 <= q < b.len() && b[q] == y;
                assert(leq(r[q], z));
            }
        }
    }
    lemma_multiset_commutative(c, t);
    lemma_multiset_commutative(b, t);
    vstd::seq_lib::to_multiset_build(s, x);
    assert(whole.to_multiset() =~= s.push(x).to_multiset());
    lemma_is_sort(whole, s.push(x), leq);
    lemma_ranked_len(s.push(x));
    assert(whole.take(best_len(s.len() + 1, k) as int) =~= c.take(best_len(s.len() + 1, k) as int));
}

/// A term that comes after the last of a full ranked list leaves the list as it is.
proof fn lemma_best_skip(s: Seq<(Seq<char>, u64)>, x: (Seq<char>, u64), k: nat)
    requires
        k > 0,
        best(s, k).len() == k,
        precedes(best(s, k).last(), x),
    ensures
        best(s.push(x), k) == best(s, k),
{
    broadcast use vstd::multiset::group_multiset_axioms;

    lemma_ranking_total();
    lemma_ranked_len(s);
    let leq = ranking();
    let r = ranked(s);
    s.lemma_sort_by_ensures(leq);
    let b = r.take(k as int);
    let t = r.skip(k as int);
    let u = ranked(t.push(x));
    t.push(x).lemma_sort_by_ensures(leq);
    lemma_ranked_len(t.push(x));
    let whole = b + u;
    assert(r =~= b + t);
    assert forall|i: int, j: int| 0 <= i < j < whole.len() implies #[trigger] leq(whole[i], whole[j]) by {
        if j < b.len() {
            assert(leq(r[i], r[j]));
        } else if i >= b.len() {
            assert(leq(u[i - b.len()], u[j - b.len()]));
        } else {
            let z = u[j - b.len()];
            assert(u.contains(z));
            assert(t.push(x).contains(z));
            let q = choose|q: int| 0 <= q < t.push(x).len() && t.push(x)[q] == z;
            if q < t.len() {
                assert(leq(r[i], r[k + q]));
            } else {
                assert(b.last() == r[k - 1]);
                if i < k - 1 {
                    assert(leq(r[i], r[k - 1]));
                }
                assert(leq(b.last(), x));
            }
        }
    }
    lemma_multiset_commutative(b, u);
    lemma_multiset_commutative(b, t);
    vstd::seq_lib::to_multiset_build(t, x);
    vstd::seq_lib::to_multiset_build(s, x);
    assert(whole.to_multiset() =~= s.push(x).to_multiset());
    lemma_is_sort(whole, s.push(x), leq);
    lemma_ranked_len(s.push(x));
    assert(whole.take(k as int) =~= b);
}

/// Puts a term into a ranked list at its place: behind the terms that come
/// before it or are it, before the others.
fn insert_ranked(top: &mut Vec<(String, u64)>, term: &(String, u64))
    requires
        sorted_by(term_views(old(top)@), ranking()),
        old(top).len() < usize::MAX,
    ensures
        sorted_by(term_views(final(top)@), ranking()),
        final(top).len() == old(top).len() + 1,
        term_views(final(top)@).to_multiset() == term_views(old(top)@).to_multiset().insert(
            (term.0@, term.1),
        ),
{
    let ghost before = term_views(top@);
    let ghost x = (term.0@, term.1);
    let mut p: usize = 0;
    while p < top.len() && term_precedes(&top[p], term)
        invariant
            p <= top.len(),
            before == term_views(top@),
            x == (term.0@, term.1),
            forall|i: int| 0 <= i < p ==> precedes(#[trigger] before[i], x),
        decreases top.len() - p,
    {
        p += 1;
    }
    let word = term.0.clone();
    top.insert(p, (word, term.1));
    proof {
        lemma_ranking_total();
        let leq = ranking();
        let c = term_views(top@);
        assert(c =~= before.insert(p as int, x));
        vstd::seq_lib::to_multiset_insert(before, p as int, x);
        if p < before.len() {
            assert(leq(before[p as int], x) || leq(x, before[p as int]));
        }
        assert forall|i: int, j: int| 0 <= i < j < c.len() implies #[trigger] leq(c[i], c[j]) by {
            if j < p {
                assert(leq(before[i], before[j]));
            } else if j == p {
                assert(leq(before[i], x));
            } else if i < p {
                assert(leq(before[i], before[j - 1]));
            } else if i == p {
                if p < j - 1 {
                    assert(leq(before[p as int], before[j - 1]));
                }
                assert(leq(x, before[j - 1]));
            } else {
                assert(leq(before[i - 1], before[j - 1]));
            }
        }
    }
}

/// The best `k` of the scored terms, in ranking order: the highest score
/// first, equal scores by their words. With `k` 0, or with no more than `k`
/// terms, all of them in that order.
///
/// With `k` 0 the terms are sorted. Else a ranked list of at most `k` terms
/// is kept: each term is put into it at its place, unless the list is full
/// and the term comes after its last; a list that has grown to more than `k`
/// loses its last.
pub fn select(scored: &Vec<(String, u64)>, k: usize) -> (r: Vec<(String, u64)>)
    ensures
        term_views(r@) == best(term_views(scored@), k as nat),
        r.len() == best_len(scored.len() as nat, k as nat),
        forall|i: int, j: int|
            0 <= i < j < r.len() ==> precedes(
                #[trigger] term_views(r@)[i],
                #[trigger] term_views(r@)[j],
            ),
{
    let ghost all = term_views(scored@);
    proof {
        lemma_best_len(all, k as nat);
        lemma_best_sorted(all, k as nat);
    }
    if k == 0 {
        let r = rank_terms(scored);
        proof {
            lemma_ranked_len(all);
            assert(ranked(all).take(all.len() as int) =~= ranked(all));
        }
        return r;
    }
    let mut top: Vec<(String, u64)> = Vec::new();
    let mut i: usize = 0;
    proof {
        lemma_ranked_len(all.take(0));
        assert(term_views(top@) =~= best(all.take(0), k as nat));
    }
    while i < scored.len()
        invariant
            k > 0,
            i <= scored.len(),
            all == term_views(scored@),
            term_views(top@) == best(all.take(i as int), k as nat),
        decreases scored.len() - i,
    {
        let ghost s = all.take(i as int);
        let ghost x = all[i as int];
        let ghost b = term_views(top@);
        proof {
            assert(all.take(i + 1) =~= s.push(x));
            lemma_best_len(s, k as nat);
            lemma_best_sorted(s, k as nat);
            lemma_ranking_total();
            assert(sorted_by(b, ranking())) by {
                assert forall|p: int, q: int| 0 <= p < q < b.len() implies #[trigger] ranking()(b[p], b[q]) by {
                    assert(precedes(b[p], b[q]));
                }
            }
        }
        if top.len() == k && term_precedes(&top[k - 1], &scored[i]) {
            proof {
                lemma_best_skip(s, x, k as nat);
            }
        } else {
            proof {
                if top.len() == k {
                    assert(ranking()(b.last(), x) || ranking()(x, b.last()));
                }
            }
            insert_ranked(&mut top, &scored[i]);
            let ghost c = term_views(top@);
            proof {
                lemma_best_insert(s, x, k as nat, c);
            }
            if top.len() > k {
                top.pop();
                assert(term_views(top@) =~= c.take(k as int));
            } else {
                assert(c.take(c.len() as int) =~= c);
            }
        }
        i += 1;
    }
    assert(all.take(scored.len() as int) =~= all);
    top
}

} // verus!

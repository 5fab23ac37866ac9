//! Ordering search hits by their scores, best first.
//!
//! A score is an IEEE 754 single-precision number, held here as its 32 bits: one sign
//! bit over a magnitude that grows with the number's absolute value. A score may be no
//! number at all. It then compares with no other, so neither comes before the other by
//! its score, and there is no order among all of them; each neighbour of a list is still
//! in order.
use vstd::prelude::*;

verus! {

use crate::text::views;

/// How many files a search shows.
pub const TOP_K: usize = 5;

/// How many chunks the reranker scores.
pub const RERANK_K: usize = 100;

/// The bits are those of a number, the infinities included.
pub open spec fn is_number(bits: u32) -> bool {
    bits % 0x8000_0000 <= 0x7f80_0000
}

/// All scores are numbers.
pub open spec fn are_numbers(scores: Seq<u32>) -> bool {
    forall|i: int| 0 <= i < scores.len() ==> is_number(#[trigger] scores[i])
}

/// Where a number stands among all numbers: of two, the larger one has the larger rank,
/// and the two zeros have the same.
pub open spec fn score_rank(bits: u32) -> int {
    if bits < 0x8000_0000 {
        bits as int
    } else {
        0x8000_0000 - bits
    }
}

/// The score `a` is higher than the score `b`.
pub open spec fn exceeds(a: u32, b: u32) -> bool {
    is_number(a) && is_number(b) && score_rank(a) > score_rank(b)
}

/// The hit at `i` comes before the hit at `j`: its score is higher, or neither score is
/// higher and it was listed first.
pub open spec fn precedes(scores: Seq<u32>, i: int, j: int) -> bool {
    ||| exceeds(scores[i], scores[j])
    ||| !exceeds(scores[j], scores[i]) && i < j
}

/// `order` lists positions of `scores`, each before the ones that follow it.
pub open spec fn is_ordered(scores: Seq<u32>, order: Seq<usize>) -> bool {
    &&& forall|a: int| 0 <= a < order.len() ==> #[trigger] order[a] < scores.len()
    &&& forall|a: int, b: int|
        0 <= a < b < order.len() ==> #[trigger] precedes(scores, order[a] as int, order[b] as int)
}

/// `order` lists the `limit` best positions of `scores` (all, where there are fewer),
/// best first.
pub open spec fn is_top(scores: Seq<u32>, limit: int, order: Seq<usize>) -> bool {
    &&& is_ordered(scores, order)
    &&& order.len() == (if limit < scores.len() {
        limit
    } else {
        scores.len() as int
    })
    &&& forall|i: usize, a: int|
        0 <= i < scores.len() && !order.contains(i) && 0 <= a < order.len() ==> #[trigger] precedes(
            scores,
            order[a] as int,
            i as int,
        )
}

/// `order` lists every position of `scores`, best first.
pub open spec fn is_ranking(scores: Seq<u32>, order: Seq<usize>) -> bool {
    &&& is_ordered(scores, order)
    &&& order.len() == scores.len()
    &&& forall|i: usize| 0 <= i < scores.len() ==> #[trigger] order.contains(i)
}

/// Each member of `order` comes before the one behind it.
pub open spec fn steps_down(scores: Seq<u32>, order: Seq<usize>) -> bool {
    &&& forall|a: int| 0 <= a < order.len() ==> #[trigger] order[a] < scores.len()
    &&& forall|a: int, b: int|
        0 <= a && b == a + 1 && b < order.len() ==> #[trigger] precedes(
            scores,
            order[a] as int,
            order[b] as int,
        )
}

/// `order` lists every position of `scores` once, each before the one behind it.
pub open spec fn is_arranged(scores: Seq<u32>, order: Seq<usize>) -> bool {
    &&& steps_down(scores, order)
    &&& order.no_duplicates()
    &&& order.len() == scores.len()
    &&& forall|i: usize| 0 <= i < scores.len() ==> #[trigger] order.contains(i)
}

/// `order` is the beginning, `limit` long, of a list of all positions, each before the one
/// behind it.
pub open spec fn begins_arranged(scores: Seq<u32>, limit: int, order: Seq<usize>) -> bool {
    exists|all: Seq<usize>| #[trigger]
        is_arranged(scores, all) && order == (if limit < all.len() {
            all.take(limit)
        } else {
            all
        })
}

/// `order` covers exactly the positions from `from` up to `to`, each once and before the
/// one behind it.
spec fn arranges_range(scores: Seq<u32>, from: int, to: int, order: Seq<usize>) -> bool {
    &&& steps_down(scores, order)
    &&& order.no_duplicates()
    &&& order.len() == to - from
    &&& forall|a: int| 0 <= a < order.len() ==> from <= #[trigger] order[a] < to
    &&& forall|i: usize| from <= i < to ==> #[trigger] order.contains(i)
}

fn is_higher(a: u32, b: u32) -> (r: bool)
    ensures
        r == exceeds(a, b),
{
    if a % 0x8000_0000 > 0x7f80_0000 || b % 0x8000_0000 > 0x7f80_0000 {
        return false;
    }
    rank_of(a) > rank_of(b)
}

fn rank_of(bits: u32) -> (r: i64)
    ensures
        r == score_rank(bits),
{
    if bits < 0x8000_0000 {
        bits as i64
    } else {
        0x8000_0000 - bits as i64
    }
}

/// The last member of `out`, if any, comes before the one at `next` of `order`, if any.
spec fn leads(scores: Seq<u32>, out: Seq<usize>, order: Seq<usize>, next: int) -> bool {
    out.len() > 0 && next < order.len() ==> precedes(
        scores,
        out[out.len() - 1] as int,
        order[next] as int,
    )
}

/// Merges the lists of two neighbouring ranges.
fn merge(
    scores: &Vec<u32>,
    left: &Vec<usize>,
    right: &Vec<usize>,
    Ghost(from): Ghost<int>,
    Ghost(mid): Ghost<int>,
    Ghost(to): Ghost<int>,
) -> (out: Vec<usize>)
    requires
        0 <= from <= mid <= to <= scores@.len(),
        arranges_range(scores@, from, mid, left@),
        arranges_range(scores@, mid, to, right@),
    ensures
        arranges_range(scores@, from, to, out@),
{
    let mut out: Vec<usize> = Vec::new();
    let mut i: usize = 0;
    let mut j: usize = 0;
    while i < left.len() || j < right.len()
        invariant
            0 <= from <= mid <= to <= scores@.len(),
            arranges_range(scores@, from, mid, left@),
            arranges_range(scores@, mid, to, right@),
            i <= left@.len(),
            j <= right@.len(),
            steps_down(scores@, out@),
            out@.no_duplicates(),
            out@.len() == i + j,
            forall|a: int| 0 <= a < out@.len() ==> from <= #[trigger] out@[a] < to,
            leads(scores@, out@, left@, i as int),
            leads(scores@, out@, right@, j as int),
            forall|a: int| i <= a < left@.len() ==> !out@.contains(#[trigger] left@[a]),
            forall|a: int| j <= a < right@.len() ==> !out@.contains(#[trigger] right@[a]),
            forall|a: int| 0 <= a < i ==> out@.contains(#[trigger] left@[a]),
            forall|a: int| 0 <= a < j ==> out@.contains(#[trigger] right@[a]),
        decreases (left@.len() - i) + (right@.len() - j),
    {
        let from_left: bool = if i >= left.len() {
            false
        } else if j >= right.len() {
            true
        } else {
            !is_higher(scores[right[j]], scores[left[i]])
        };
        let ghost before = out@;
        let next: usize = if from_left {
            left[i]
        } else {
            right[j]
        };
        out.push(next);
        proof {
            let s = scores@;
            assert forall|x: usize| #[trigger] out@.contains(x) <==> before.contains(x) || x
                == next by {
                if before.contains(x) {
                    let k = choose|k: int| 0 <= k < before.len() && before[k] == x;
                    assert(out@[k] == x);
                }
                assert(out@[before.len() as int] == next);
                if out@.contains(x) {
                    let k = choose|k: int| 0 <= k < out@.len() && out@[k] == x;
                    if k < before.len() {
                        assert(before[k] == x);
                    }
                }
            }
            assert forall|a: int, b: int|
                0 <= a && b == a + 1 && b < out@.len() implies #[trigger] precedes(
                s,
                out@[a] as int,
                out@[b] as int,
            ) by {
                if b < before.len() {
                    assert(precedes(s, before[a] as int, before[b] as int));
                }
            }
            if from_left {
                if i + 1 < left@.len() {
                    assert(precedes(s, left@[i as int] as int, left@[i + 1] as int));
                }
                if j < right@.len() {
                    assert(left@[i as int] < mid <= right@[j as int]);
                }
            } else {
                if j + 1 < right@.len() {
                    assert(precedes(s, right@[j as int] as int, right@[j + 1] as int));
                }
            }
            assert forall|a: int| i <= a < left@.len() && !(from_left && a == i) implies left@[a]
                != next by {
                if !from_left {
                    assert(left@[a] < mid <= right@[j as int]);
                }
            }
            assert forall|a: int| j <= a < right@.len() && !(!from_left && a == j) implies right@[a]
                != next by {
                if from_left {
                    assert(left@[i as int] < mid <= right@[a]);
                }
            }
        }
        if from_left {
            i += 1;
        } else {
            j += 1;
        }
    }
    proof {
        assert forall|x: usize| from <= x < to implies #[trigger] out@.contains(x) by {
            if x < mid {
                assert(left@.contains(x));
                let k = choose|k: int| 0 <= k < left@.len() && left@[k] == x;
                assert(out@.contains(left@[k]));
            } else {
                assert(right@.contains(x));
                let k = choose|k: int| 0 <= k < right@.len() && right@[k] == x;
                assert(out@.contains(right@[k]));
            }
        }
    }
    out
}

/// Arranges the positions from `from` up to `to`.
fn arrange_range(scores: &Vec<u32>, from: usize, to: usize) -> (out: Vec<usize>)
    requires
        from <= to <= scores@.len(),
    ensures
        arranges_range(scores@, from as int, to as int, out@),
    decreases to - from,
{
    if to - from < 2 {
        let mut out: Vec<usize> = Vec::new();
        if from < to {
            out.push(from);
            proof {
                assert(out@[0] == from);
            }
        }
        out
    } else {
        let mid: usize = from + (to - from) / 2;
        let left = arrange_range(scores, from, mid);
        let right = arrange_range(scores, mid, to);
        merge(scores, &left, &right, Ghost(from as int), Ghost(mid as int), Ghost(to as int))
    }
}

proof fn lemma_numbers_step_down(scores: Seq<u32>, order: Seq<usize>, a: int, b: int)
    requires
        are_numbers(scores),
        steps_down(scores, order),
        0 <= a < b < order.len(),
    ensures
        precedes(scores, order[a] as int, order[b] as int),
    decreases b - a,
{
    if b == a + 1 {
        assert(precedes(scores, order[a] as int, order[b] as int));
    } else {
        let c = b - 1;
        lemma_numbers_step_down(scores, order, a, c);
        assert(precedes(scores, order[c] as int, order[b] as int));
        assert(order[a] < scores.len() && order[b] < scores.len() && order[c] < scores.len());
    }
}

/// Where all scores are numbers, the list is in order as a whole: each member comes before
/// all that follow it.
pub proof fn law_numbers_are_ranked(scores: Seq<u32>, order: Seq<usize>)
    requires
        are_numbers(scores),
        is_arranged(scores, order),
    ensures
        is_ranking(scores, order),
{
    assert forall|a: int, b: int| 0 <= a < b < order.len() implies #[trigger] precedes(
        scores,
        order[a] as int,
        order[b] as int,
    ) by {
        lemma_numbers_step_down(scores, order, a, b);
    }
}

/// All positions of `scores`, the highest score first and scores that are not higher than
/// one another in the order in which they stand.
pub fn ranked(scores: &Vec<u32>) -> (order: Vec<usize>)
    ensures
        is_arranged(scores@, order@),
        are_numbers(scores@) ==> is_ranking(scores@, order@),
{
    let order = arrange_range(scores, 0, scores.len());
    proof {
        if are_numbers(scores@) {
            law_numbers_are_ranked(scores@, order@);
        }
    }
    order
}

/// The chunks to rerank: the positions of the `limit` highest scores, highest first.
pub fn candidates(scores: &Vec<u32>, limit: usize) -> (r: Vec<usize>)
    ensures
        begins_arranged(scores@, limit as int, r@),
        are_numbers(scores@) ==> is_top(scores@, limit as int, r@),
{
    let mut order = ranked(scores);
    let ghost full = order@;
    if limit < order.len() {
        order.truncate(limit);
    }
    proof {
        assert(order@ =~= (if limit < full.len() {
            full.take(limit as int)
        } else {
            full
        }));
        assert(is_arranged(scores@, full));
        if are_numbers(scores@) {
            lemma_ranking_prefix_is_top(scores@, full, order@.len() as int);
            assert(order@ =~= full.take(order@.len() as int));
        }
    }
    order
}

proof fn lemma_ranking_prefix_is_top(scores: Seq<u32>, order: Seq<usize>, n: int)
    requires
        is_ranking(scores, order),
        0 <= n <= order.len(),
    ensures
        is_top(scores, n, order.take(n)),
{
    let top = order.take(n);
    assert forall|a: int, b: int| 0 <= a < b < top.len() implies #[trigger] precedes(
        scores,
        top[a] as int,
        top[b] as int,
    ) by {
        assert(precedes(scores, order[a] as int, order[b] as int));
    }
    assert forall|i: usize, a: int|
        0 <= i < scores.len() && !top.contains(i) && 0 <= a < top.len() implies #[trigger] precedes(
        scores,
        top[a] as int,
        i as int,
    ) by {
        assert(order.contains(i));
        let k = choose|k: int| 0 <= k < order.len() && order[k] == i;
        if k < n {
            assert(top[k] == i);
        }
        assert(precedes(scores, order[a] as int, order[k] as int));
    }
}

/// `best` lists one hit for each of the `limit` best files (all, where there are fewer),
/// best first. A file is told by its path, and its hit is the best one that has that
/// path.
pub open spec fn is_best_of_each_file(
    paths: Seq<Seq<char>>,
    scores: Seq<u32>,
    limit: int,
    best: Seq<usize>,
) -> bool {
    &&& is_ordered(scores, best)
    &&& best.len() <= limit
    &&& forall|k: int, i: int|
        0 <= k < best.len() && 0 <= i < paths.len() && i != best[k] && paths[i]
            == paths[best[k] as int] ==> #[trigger] precedes(scores, best[k] as int, i)
    &&& forall|i: int|
        0 <= i < paths.len() && !has_path(paths, best, #[trigger] paths[i]) ==> best.len() == limit
            && comes_last(scores, best, i)
    &&& forall|k: int, l: int|
        0 <= k < l < best.len() ==> paths[#[trigger] best[k] as int] != paths[#[trigger] best[l] as int]
}

/// One of the hits in `best` has the path `path`.
pub open spec fn has_path(paths: Seq<Seq<char>>, best: Seq<usize>, path: Seq<char>) -> bool {
    exists|k: int| 0 <= k < best.len() && paths[#[trigger] best[k] as int] == path
}

/// Every hit in `best` comes before the hit at `i`.
pub open spec fn comes_last(scores: Seq<u32>, best: Seq<usize>, i: int) -> bool {
    forall|k: int| 0 <= k < best.len() ==> precedes(scores, #[trigger] best[k] as int, i)
}

/// Reports whether a hit in `best` has the path of the hit at `i`.
fn has_path_of(paths: &Vec<String>, best: &Vec<usize>, i: usize) -> (r: bool)
    requires
        i < paths@.len(),
        forall|k: int| 0 <= k < best@.len() ==> #[trigger] best@[k] < paths@.len(),
    ensures
        r == has_path(views(paths@), best@, paths@[i as int]@),
{
    let ghost v = views(paths@);
    let mut k: usize = 0;
    while k < best.len()
        invariant
            i < paths@.len(),
            k <= best@.len(),
            v == views(paths@),
            forall|l: int| 0 <= l < best@.len() ==> #[trigger] best@[l] < paths@.len(),
            forall|l: int| 0 <= l < k ==> v[#[trigger] best@[l] as int] != paths@[i as int]@,
        decreases best@.len() - k,
    {
        if paths[best[k]] == paths[i] {
            assert(v[best@[k as int] as int] == paths@[i as int]@);
            return true;
        }
        k += 1;
    }
    false
}

/// Of the hits in `order`, the first one of each file, for the first `limit` files.
pub open spec fn first_of_each(paths: Seq<Seq<char>>, order: Seq<usize>, limit: int) -> Seq<usize>
    decreases order.len(),
{
    if order.len() == 0 {
        seq![]
    } else {
        let best = first_of_each(paths, order.drop_last(), limit);
        if best.len() < limit && !has_path(paths, best, paths[order.last() as int]) {
            best.push(order.last())
        } else {
            best
        }
    }
}

/// `best` holds the first hit of each file in a list of all hits, each before the one
/// behind it.
pub open spec fn is_first_of_each_file(
    paths: Seq<Seq<char>>,
    scores: Seq<u32>,
    limit: int,
    best: Seq<usize>,
) -> bool {
    exists|all: Seq<usize>| #[trigger]
        is_arranged(scores, all) && best == first_of_each(paths, all, limit)
}

/// Once there are enough files, what follows adds none.
proof fn lemma_enough_files(paths: Seq<Seq<char>>, order: Seq<usize>, limit: int, n: int)
    requires
        0 <= n <= order.len(),
        first_of_each(paths, order.take(n), limit).len() >= limit,
    ensures
        first_of_each(paths, order, limit) == first_of_each(paths, order.take(n), limit),
    decreases order.len() - n,
{
    if n == order.len() {
        assert(order.take(n) =~= order);
    } else {
        assert(order.take(n + 1).drop_last() =~= order.take(n));
        lemma_enough_files(paths, order, limit, n + 1);
    }
}

/// The hit at place `a` of the order has the path of one that was listed no later.
spec fn shown_by(
    paths: Seq<Seq<char>>,
    order: Seq<usize>,
    best: Seq<usize>,
    at: Seq<int>,
    a: int,
) -> bool {
    exists|k: int|
        0 <= k < at.len() && #[trigger] at[k] <= a && paths[best[k] as int] == paths[order[a] as int]
}

/// The hit at place `a` of the order comes behind the last of `limit` files, and has the
/// path of none of them.
spec fn comes_too_late(
    paths: Seq<Seq<char>>,
    order: Seq<usize>,
    best: Seq<usize>,
    at: Seq<int>,
    limit: int,
    a: int,
) -> bool {
    &&& best.len() == limit
    &&& forall|k: int| 0 <= k < at.len() ==> #[trigger] at[k] < a
    &&& !has_path(paths, best, paths[order[a] as int])
}

/// Where in `order` the hits of `first_of_each` stand.
proof fn lemma_places(paths: Seq<Seq<char>>, order: Seq<usize>, limit: int) -> (at: Seq<int>)
    requires
        0 <= limit,
    ensures
        at.len() == first_of_each(paths, order, limit).len(),
        at.len() <= limit,
        forall|k: int|
            0 <= k < at.len() ==> 0 <= #[trigger] at[k] < order.len() && first_of_each(
                paths,
                order,
                limit,
            )[k] == order[at[k]],
        forall|k: int, l: int| 0 <= k < l < at.len() ==> at[k] < at[l],
        forall|k: int, l: int|
            0 <= k < l < at.len() ==> paths[#[trigger] first_of_each(
                paths,
                order,
                limit,
            )[k] as int] != paths[#[trigger] first_of_each(paths, order, limit)[l] as int],
        forall|a: int|
            0 <= a < order.len() ==> #[trigger] shown_by(
                paths,
                order,
                first_of_each(paths, order, limit),
                at,
                a,
            ) || comes_too_late(paths, order, first_of_each(paths, order, limit), at, limit, a),
    decreases order.len(),
{
    if order.len() == 0 {
        seq![]
    } else {
        let front = order.drop_last();
        let before = first_of_each(paths, front, limit);
        let best = first_of_each(paths, order, limit);
        let n = order.len() - 1;
        let path = paths[order.last() as int];
        let at0 = lemma_places(paths, front, limit);
        let at = if best.len() > before.len() {
            at0.push(n)
        } else {
            at0
        };
        assert forall|k: int, l: int| 0 <= k < l < at.len() implies paths[#[trigger] best[k] as int]
            != paths[#[trigger] best[l] as int] by {
            assert(best[k] == before[k]);
            if l < before.len() {
                assert(best[l] == before[l]);
            }
        }
        assert forall|a: int| 0 <= a < order.len() implies #[trigger] shown_by(
            paths,
            order,
            best,
            at,
            a,
        ) || comes_too_late(paths, order, best, at, limit, a) by {
            if a < n {
                assert(front[a] == order[a]);
                if shown_by(paths, front, before, at0, a) {
                    let k = choose|k: int|
                        0 <= k < at0.len() && #[trigger] at0[k] <= a && paths[before[k] as int]
                            == paths[front[a] as int];
                    assert(at[k] == at0[k] && best[k] == before[k]);
                } else {
                    assert(comes_too_late(paths, front, before, at0, limit, a));
                }
            } else if best.len() > before.len() {
                assert(at[before.len() as int] == n);
            } else if has_path(paths, before, path) {
                let k = choose|k: int|
                    0 <= k < before.len() && paths[#[trigger] before[k] as int] == path;
                assert(at[k] <= a);
            }
        }
        at
    }
}

/// Where all scores are numbers, the results are the best hit of each file.
pub proof fn law_numbers_give_the_best_of_each_file(
    paths: Seq<Seq<char>>,
    scores: Seq<u32>,
    limit: int,
    order: Seq<usize>,
)
    requires
        paths.len() == scores.len(),
        scores.len() <= usize::MAX,
        0 <= limit,
        is_ranking(scores, order),
    ensures
        is_best_of_each_file(paths, scores, limit, first_of_each(paths, order, limit)),
{
    let best = first_of_each(paths, order, limit);
    let at = lemma_places(paths, order, limit);
    assert forall|k: int| 0 <= k < best.len() implies #[trigger] best[k] < scores.len() by {
        assert(best[k] == order[at[k]]);
    }
    assert forall|k: int, l: int| 0 <= k < l < best.len() implies #[trigger] precedes(
        scores,
        best[k] as int,
        best[l] as int,
    ) by {
        assert(precedes(scores, order[at[k]] as int, order[at[l]] as int));
    }
    assert forall|k: int, x: int|
        0 <= k < best.len() && 0 <= x < paths.len() && x != best[k] && paths[x]
            == paths[best[k] as int] implies #[trigger] precedes(scores, best[k] as int, x) by {
        let a = lemma_find(scores, order, x);
        assert(best[k] == order[at[k]]);
        assert(has_path(paths, best, paths[order[a] as int]));
        assert(shown_by(paths, order, best, at, a));
        let m = choose|m: int|
            0 <= m < at.len() && #[trigger] at[m] <= a && paths[best[m] as int]
                == paths[order[a] as int];
        if m < k {
            assert(paths[best[m] as int] != paths[best[k] as int]);
        } else if k < m {
            assert(paths[best[k] as int] != paths[best[m] as int]);
        }
        assert(precedes(scores, order[at[k]] as int, order[a] as int));
    }
    assert forall|x: int|
        0 <= x < paths.len() && !has_path(paths, best, #[trigger] paths[x]) implies best.len()
        == limit && comes_last(scores, best, x) by {
        let a = lemma_find(scores, order, x);
        if shown_by(paths, order, best, at, a) {
            let m = choose|m: int|
                0 <= m < at.len() && #[trigger] at[m] <= a && paths[best[m] as int]
                    == paths[order[a] as int];
            assert(has_path(paths, best, paths[x]));
        }
        assert(comes_too_late(paths, order, best, at, limit, a));
        assert forall|k: int| 0 <= k < best.len() implies precedes(
            scores,
            #[trigger] best[k] as int,
            x,
        ) by {
            assert(at[k] < a);
            assert(precedes(scores, order[at[k]] as int, order[a] as int));
        }
    }
}

/// The results of a search: of the hits with the given paths and scores, the best one of
/// each file, best first, for the best `TOP_K` files.
pub fn best_of_each_file(paths: &Vec<String>, scores: &Vec<u32>) -> (best: Vec<usize>)
    requires
        paths@.len() == scores@.len(),
    ensures
        is_first_of_each_file(views(paths@), scores@, TOP_K as int, best@),
        are_numbers(scores@) ==> is_best_of_each_file(
            views(paths@),
            scores@,
            TOP_K as int,
            best@,
        ),
{
    let ghost v = views(paths@);
    let order = ranked(scores);
    let mut best: Vec<usize> = Vec::new();
    let mut i: usize = 0;
    while i < order.len() && best.len() < TOP_K
        invariant
            v == views(paths@),
            paths@.len() == scores@.len(),
            is_arranged(scores@, order@),
            i <= order@.len(),
            best@.len() <= TOP_K,
            best@ == first_of_each(v, order@.take(i as int), TOP_K as int),
            forall|k: int| 0 <= k < best@.len() ==> #[trigger] best@[k] < paths@.len(),
        decreases order@.len() - i,
    {
        let next: usize = order[i];
        proof {
            assert(order@.take(i + 1).drop_last() =~= order@.take(i as int));
            assert(order@.take(i + 1).last() == next);
            assert(v[next as int] == paths@[next as int]@);
        }
        if !has_path_of(paths, &best, next) {
            best.push(next);
        }
        i += 1;
    }
    proof {
        if i < order@.len() {
            lemma_enough_files(v, order@, TOP_K as int, i as int);
        } else {
            assert(order@.take(i as int) =~= order@);
        }
        assert(is_arranged(scores@, order@));
        if are_numbers(scores@) {
            law_numbers_give_the_best_of_each_file(v, scores@, TOP_K as int, order@);
        }
    }
    best
}

/// Where a position stands in a ranking.
proof fn lemma_find(scores: Seq<u32>, order: Seq<usize>, x: int) -> (a: int)
    requires
        is_ranking(scores, order),
        0 <= x < scores.len(),
        scores.len() <= usize::MAX,
    ensures
        0 <= a < order.len(),
        order[a] == x,
{
    assert(order.contains(x as usize));
    choose|a: int| 0 <= a < order.len() && order[a] == x as usize
}

/// Of the two lists, `y` has at place `k` a hit that comes no later than that of `x`.
proof fn lemma_top_no_later(scores: Seq<u32>, limit: int, x: Seq<usize>, y: Seq<usize>, k: int)
    requires
        is_top(scores, limit, x),
        is_top(scores, limit, y),
        0 <= k < x.len(),
        forall|m: int| 0 <= m < k ==> x[m] == y[m],
    ensures
        x[k] == y[k] || precedes(scores, y[k] as int, x[k] as int),
{
    if y.contains(x[k]) {
        let m = choose|m: int| 0 <= m < y.len() && y[m] == x[k];
        if m < k {
            assert(x[m] == x[k]);
            assert(precedes(scores, x[m] as int, x[k] as int));
        } else if m > k {
            assert(precedes(scores, y[k] as int, y[m] as int));
        }
    } else {
        assert(precedes(scores, y[k] as int, x[k] as int));
    }
}

/// The scores leave no choice: there is one list of the `limit` best positions.
pub proof fn law_top_is_unique(scores: Seq<u32>, limit: int, x: Seq<usize>, y: Seq<usize>)
    requires
        is_top(scores, limit, x),
        is_top(scores, limit, y),
    ensures
        x == y,
{
    lemma_top_agrees(scores, limit, x, y, x.len() as int);
    assert(x =~= y);
}

proof fn lemma_top_agrees(scores: Seq<u32>, limit: int, x: Seq<usize>, y: Seq<usize>, n: int)
    requires
        is_top(scores, limit, x),
        is_top(scores, limit, y),
        0 <= n <= x.len(),
    ensures
        forall|m: int| 0 <= m < n ==> x[m] == y[m],
    decreases n,
{
    if n > 0 {
        lemma_top_agrees(scores, limit, x, y, n - 1);
        lemma_top_no_later(scores, limit, x, y, n - 1);
        lemma_top_no_later(scores, limit, y, x, n - 1);
    }
}

/// A ranking is the list of the best positions, with no limit.
pub proof fn law_ranking_is_top_of_all(scores: Seq<u32>, order: Seq<usize>)
    requires
        is_ranking(scores, order),
    ensures
        is_top(scores, scores.len() as int, order),
{
    lemma_ranking_prefix_is_top(scores, order, order.len() as int);
    assert(order.take(order.len() as int) =~= order);
}

proof fn lemma_best_no_later(
    paths: Seq<Seq<char>>,
    scores: Seq<u32>,
    limit: int,
    x: Seq<usize>,
    y: Seq<usize>,
    k: int,
)
    requires
        paths.len() == scores.len(),
        are_numbers(scores),
        is_best_of_each_file(paths, scores, limit, x),
        is_best_of_each_file(paths, scores, limit, y),
        0 <= k < x.len(),
        k <= y.len(),
        forall|m: int| 0 <= m < k ==> x[m] == y[m],
    ensures
        k < y.len(),
        x[k] == y[k] || precedes(scores, y[k] as int, x[k] as int),
{
    let i = x[k] as int;
    assert(x[k] < scores.len());
    let path = paths[i];
    if has_path(paths, y, path) {
        let m = choose|m: int| 0 <= m < y.len() && paths[#[trigger] y[m] as int] == path;
        if m < k {
            assert(paths[x[m] as int] != paths[x[k] as int]);
        }
        if i != y[m] {
            assert(precedes(scores, y[m] as int, i));
        }
        if m > k {
            assert(precedes(scores, y[k] as int, y[m] as int));
        }
    } else {
        assert(!has_path(paths, y, paths[i]));
        assert(comes_last(scores, y, i));
        assert(k < y.len() ==> precedes(scores, y[k] as int, i));
    }
}

proof fn lemma_best_agrees(
    paths: Seq<Seq<char>>,
    scores: Seq<u32>,
    limit: int,
    x: Seq<usize>,
    y: Seq<usize>,
    n: int,
)
    requires
        paths.len() == scores.len(),
        are_numbers(scores),
        is_best_of_each_file(paths, scores, limit, x),
        is_best_of_each_file(paths, scores, limit, y),
        0 <= n <= x.len(),
    ensures
        n <= y.len(),
        forall|m: int| 0 <= m < n ==> x[m] == y[m],
    decreases n,
{
    if n > 0 {
        lemma_best_agrees(paths, scores, limit, x, y, n - 1);
        lemma_best_no_later(paths, scores, limit, x, y, n - 1);
        lemma_best_no_later(paths, scores, limit, y, x, n - 1);
    }
}

/// Where all scores are numbers, the paths and scores of the hits leave no choice: there is
/// one list of results.
pub proof fn law_results_are_unique(
    paths: Seq<Seq<char>>,
    scores: Seq<u32>,
    limit: int,
    x: Seq<usize>,
    y: Seq<usize>,
)
    requires
        paths.len() == scores.len(),
        are_numbers(scores),
        is_best_of_each_file(paths, scores, limit, x),
        is_best_of_each_file(paths, scores, limit, y),
    ensures
        x == y,
{
    lemma_best_agrees(paths, scores, limit, x, y, x.len() as int);
    lemma_best_agrees(paths, scores, limit, y, x, y.len() as int);
    assert(x =~= y);
}

/// Where all scores are numbers, the first result is the best hit of all, as soon as there
/// is a hit.
pub proof fn law_first_result_is_the_best_hit(
    paths: Seq<Seq<char>>,
    scores: Seq<u32>,
    limit: int,
    best: Seq<usize>,
    i: int,
)
    requires
        paths.len() == scores.len(),
        1 <= limit,
        are_numbers(scores),
        is_best_of_each_file(paths, scores, limit, best),
        0 <= i < paths.len(),
    ensures
        best.len() > 0,
        best[0] == i || precedes(scores, best[0] as int, i),
{
    let path = paths[i];
    if has_path(paths, best, path) {
        let m = choose|m: int| 0 <= m < best.len() && paths[#[trigger] best[m] as int] == path;
        if i != best[m] {
            assert(precedes(scores, best[m] as int, i));
        }
        if m > 0 {
            assert(precedes(scores, best[0] as int, best[m] as int));
        }
    } else {
        assert(comes_last(scores, best, i));
        assert(precedes(scores, best[0] as int, i));
    }
}

/// A score is higher than another exactly where its number is larger. The bits of numbers
/// that are not negative are ordered as the numbers are, those of negative ones the other
/// way round, and a number that is not negative is larger than a negative one, but for the
/// two zeros, of which neither is.
pub proof fn law_higher_scores_are_larger_numbers(a: u32, b: u32)
    ensures
        a <= 0x7f80_0000 && b <= 0x7f80_0000 ==> (exceeds(a, b) <==> a > b),
        0x8000_0000 <= a <= 0xff80_0000 && 0x8000_0000 <= b <= 0xff80_0000 ==> (exceeds(a, b)
            <==> a < b),
        a <= 0x7f80_0000 && 0x8000_0000 <= b <= 0xff80_0000 ==> (exceeds(a, b) <==> a > 0 || b
            > 0x8000_0000) && !exceeds(b, a),
{
}

/// What is no number is neither higher nor lower than anything.
pub proof fn law_what_is_no_number_compares_with_nothing(a: u32, b: u32)
    requires
        0x7f80_0000 < a < 0x8000_0000 || 0xff80_0000 < a,
    ensures
        !exceeds(a, b),
        !exceeds(b, a),
{
}

/// Where all scores are numbers, a ranking lists every position once, so that none has a
/// lower score than one behind it, and of equal scores the one that stands first comes
/// first.
pub proof fn law_rankings_go_from_high_to_low(scores: Seq<u32>, order: Seq<usize>)
    requires
        is_arranged(scores, order),
        forall|i: int|
            0 <= i < scores.len() ==> (#[trigger] scores[i]) <= 0x7f80_0000 || 0x8000_0000
                <= scores[i] <= 0xff80_0000,
    ensures
        order.len() == scores.len(),
        order.no_duplicates(),
        forall|a: int| 0 <= a < order.len() ==> #[trigger] order[a] < scores.len(),
        forall|a: int, b: int|
            0 <= a < b < order.len() ==> !exceeds(
                scores[#[trigger] order[b] as int],
                scores[#[trigger] order[a] as int],
            ) && (order[a] > order[b] ==> exceeds(
                scores[order[a] as int],
                scores[order[b] as int],
            )),
{
    law_numbers_are_ranked(scores, order);
    assert forall|a: int, b: int| 0 <= a < b < order.len() implies !exceeds(
        scores[#[trigger] order[b] as int],
        scores[#[trigger] order[a] as int],
    ) && (order[a] > order[b] ==> exceeds(scores[order[a] as int], scores[order[b] as int])) by {
        assert(precedes(scores, order[a] as int, order[b] as int));
    }
}

/// Whatever the scores are, a list lists every position once, and of two neighbours the
/// second does not have the higher score, nor does it stand first where the first does not
/// have the higher one.
pub proof fn law_neighbours_are_in_order(scores: Seq<u32>, order: Seq<usize>, a: int)
    requires
        is_arranged(scores, order),
        0 <= a < order.len() - 1,
    ensures
        order.len() == scores.len(),
        order.no_duplicates(),
        forall|b: int| 0 <= b < order.len() ==> #[trigger] order[b] < scores.len(),
        !exceeds(scores[order[a + 1] as int], scores[order[a] as int]),
        order[a] > order[a + 1] ==> exceeds(
            scores[order[a] as int],
            scores[order[a + 1] as int],
        ),
{
    assert(precedes(scores, order[a] as int, order[a + 1] as int));
}

/// Where all scores are numbers, the candidates are as many as asked for, or all; they go
/// from high to low; and no position that is left out has a higher score than one of them,
/// nor the same score and a place before it.
pub proof fn law_candidates_are_the_highest(scores: Seq<u32>, limit: int, order: Seq<usize>)
    requires
        0 <= limit,
        are_numbers(scores) ==> is_top(scores, limit, order),
        forall|i: int|
            0 <= i < scores.len() ==> (#[trigger] scores[i]) <= 0x7f80_0000 || 0x8000_0000
                <= scores[i] <= 0xff80_0000,
    ensures
        order.len() == (if limit < scores.len() {
            limit
        } else {
            scores.len() as int
        }),
        forall|a: int| 0 <= a < order.len() ==> #[trigger] order[a] < scores.len(),
        forall|a: int, b: int|
            0 <= a < b < order.len() ==> !exceeds(
                scores[#[trigger] order[b] as int],
                scores[#[trigger] order[a] as int],
            ) && order[a] != order[b] && (order[a] > order[b] ==> exceeds(
                scores[order[a] as int],
                scores[order[b] as int],
            )),
        forall|i: usize, a: int|
            0 <= i < scores.len() && !order.contains(i) && 0 <= a < order.len() ==> !exceeds(
                #[trigger] scores[i as int],
                scores[#[trigger] order[a] as int],
            ) && (order[a] > i ==> exceeds(scores[order[a] as int], scores[i as int])),
{
    assert forall|a: int, b: int| 0 <= a < b < order.len() implies !exceeds(
        scores[#[trigger] order[b] as int],
        scores[#[trigger] order[a] as int],
    ) && order[a] != order[b] && (order[a] > order[b] ==> exceeds(
        scores[order[a] as int],
        scores[order[b] as int],
    )) by {
        assert(precedes(scores, order[a] as int, order[b] as int));
    }
    assert forall|i: usize, a: int|
        0 <= i < scores.len() && !order.contains(i) && 0 <= a < order.len() implies !exceeds(
        #[trigger] scores[i as int],
        scores[#[trigger] order[a] as int],
    ) && (order[a] > i ==> exceeds(scores[order[a] as int], scores[i as int])) by {
        assert(precedes(scores, order[a] as int, i as int));
    }
}

/// Whatever the scores are, the candidates are the beginning, of the length asked for, of a
/// list of all positions.
pub proof fn law_candidates_begin_a_list_of_all(
    scores: Seq<u32>,
    limit: int,
    order: Seq<usize>,
) -> (all: Seq<usize>)
    requires
        0 <= limit,
        begins_arranged(scores, limit, order),
    ensures
        is_arranged(scores, all),
        order.len() == (if limit < scores.len() {
            limit
        } else {
            scores.len() as int
        }),
        order == all.take(order.len() as int),
{
    let all = choose|all: Seq<usize>| #[trigger]
        is_arranged(scores, all) && order == (if limit < all.len() {
            all.take(limit)
        } else {
            all
        });
    assert(all.take(all.len() as int) =~= all);
    all
}

/// Where all scores are numbers, the results are at most `limit` hits of different files,
/// from high to low. Each is the highest hit of its file, and the first of those that are
/// as high.
pub proof fn law_results_are_the_highest_of_their_files(
    paths: Seq<Seq<char>>,
    scores: Seq<u32>,
    limit: int,
    best: Seq<usize>,
)
    requires
        paths.len() == scores.len(),
        are_numbers(scores) ==> is_best_of_each_file(paths, scores, limit, best),
        forall|i: int|
            0 <= i < scores.len() ==> (#[trigger] scores[i]) <= 0x7f80_0000 || 0x8000_0000
                <= scores[i] <= 0xff80_0000,
    ensures
        best.len() <= limit,
        forall|k: int| 0 <= k < best.len() ==> #[trigger] best[k] < paths.len(),
        forall|k: int, l: int|
            0 <= k < l < best.len() ==> paths[#[trigger] best[k] as int]
                != paths[#[trigger] best[l] as int] && !exceeds(
                scores[best[l] as int],
                scores[best[k] as int],
            ) && (best[k] > best[l] ==> exceeds(scores[best[k] as int], scores[best[l] as int])),
        forall|k: int, i: int|
            0 <= k < best.len() && 0 <= i < paths.len() && #[trigger] paths[i]
                == paths[#[trigger] best[k] as int] ==> !exceeds(
                scores[i],
                scores[best[k] as int],
            ) && (best[k] > i ==> exceeds(scores[best[k] as int], scores[i])),
{
    assert forall|k: int, l: int| 0 <= k < l < best.len() implies paths[#[trigger] best[k] as int]
        != paths[#[trigger] best[l] as int] && !exceeds(
        scores[best[l] as int],
        scores[best[k] as int],
    ) && (best[k] > best[l] ==> exceeds(scores[best[k] as int], scores[best[l] as int])) by {
        assert(precedes(scores, best[k] as int, best[l] as int));
    }
    assert forall|k: int, i: int|
        0 <= k < best.len() && 0 <= i < paths.len() && #[trigger] paths[i]
            == paths[#[trigger] best[k] as int] implies !exceeds(scores[i], scores[best[k] as int])
        && (best[k] > i ==> exceeds(scores[best[k] as int], scores[i])) by {
        if i != best[k] {
            assert(precedes(scores, best[k] as int, i));
        }
    }
}

/// Where all scores are numbers, a hit whose file is not among the results is no higher than
/// any of them, and there are `limit` of them: a file is left out only for higher ones.
pub proof fn law_files_are_left_out_for_higher_ones(
    paths: Seq<Seq<char>>,
    scores: Seq<u32>,
    limit: int,
    best: Seq<usize>,
    i: int,
)
    requires
        paths.len() == scores.len(),
        are_numbers(scores) ==> is_best_of_each_file(paths, scores, limit, best),
        forall|i: int|
            0 <= i < scores.len() ==> (#[trigger] scores[i]) <= 0x7f80_0000 || 0x8000_0000
                <= scores[i] <= 0xff80_0000,
        0 <= i < paths.len(),
        forall|k: int| 0 <= k < best.len() ==> paths[#[trigger] best[k] as int] != paths[i],
    ensures
        best.len() == limit,
        forall|k: int|
            0 <= k < best.len() ==> !exceeds(scores[i], scores[#[trigger] best[k] as int]) && (
            best[k] > i ==> exceeds(scores[best[k] as int], scores[i])),
{
    assert(!has_path(paths, best, paths[i]));
    assert(comes_last(scores, best, i));
    assert forall|k: int| 0 <= k < best.len() implies !exceeds(
        scores[i],
        scores[#[trigger] best[k] as int],
    ) && (best[k] > i ==> exceeds(scores[best[k] as int], scores[i])) by {
        assert(precedes(scores, best[k] as int, i));
    }
}

/// Whatever the scores are, the results are those of a list of all hits.
pub proof fn law_results_come_from_a_list_of_all(
    paths: Seq<Seq<char>>,
    scores: Seq<u32>,
    limit: int,
    best: Seq<usize>,
) -> (all: Seq<usize>)
    requires
        is_first_of_each_file(paths, scores, limit, best),
    ensures
        is_arranged(scores, all),
        best == first_of_each(paths, all, limit),
{
    choose|all: Seq<usize>| #[trigger]
        is_arranged(scores, all) && best == first_of_each(paths, all, limit)
}

/// A search reranks a hundred chunks and shows five files.
pub proof fn law_searches_are_limited()
    ensures
        RERANK_K == 100,
        TOP_K == 5,
{
}

/// Whatever the scores are, the results of a list of all hits are found from its front: the
/// first hit is one, as long as there is room, and a hit further on is one exactly where
/// there is room left and no result has its path.
pub proof fn law_results_are_taken_from_the_front(
    paths: Seq<Seq<char>>,
    order: Seq<usize>,
    limit: int,
    next: usize,
)
    ensures
        first_of_each(paths, Seq::<usize>::empty(), limit) == Seq::<usize>::empty(),
        ({
            let before = first_of_each(paths, order, limit);
            first_of_each(paths, order.push(next), limit) == (if before.len() < limit && (forall|
                k: int,
            |
                0 <= k < before.len() ==> paths[#[trigger] before[k] as int]
                    != paths[next as int]) {
                before.push(next)
            } else {
                before
            })
        }),
{
    assert(order.push(next).drop_last() =~= order);
    let before = first_of_each(paths, order, limit);
    if !has_path(paths, before, paths[next as int]) {
        assert forall|k: int| 0 <= k < before.len() implies paths[#[trigger] before[k] as int]
            != paths[next as int] by {}
    }
}

} // verus!

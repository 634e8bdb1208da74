//! Ranking of scored ids: highest score first, ties in their given order.
use vstd::prelude::*;

verus! {

/// Whether the scores of `hits` never increase from one hit to the next.
pub open spec fn descending(hits: Seq<(u128, i64)>) -> bool {
    forall|i: int, j: int| 0 <= i < j < hits.len() ==> hits[i].1 >= hits[j].1
}

/// The test whether a hit has exactly the score `score`.
pub open spec fn has_score(score: i64) -> spec_fn((u128, i64)) -> bool {
    |hit: (u128, i64)| hit.1 == score
}

/// The hits that have exactly the score `score`, in their order.
pub open spec fn scored(hits: Seq<(u128, i64)>, score: i64) -> Seq<(u128, i64)> {
    hits.filter(has_score(score))
}

/// Where a hit with the score `score` goes into `sorted`: behind the last
/// hit whose score is not below it.
pub open spec fn insertion_point(sorted: Seq<(u128, i64)>, score: i64) -> int
    decreases sorted.len(),
{
    if sorted.len() == 0 || sorted.last().1 >= score {
        sorted.len() as int
    } else {
        insertion_point(sorted.drop_last(), score)
    }
}

/// The hits in rank order: by descending score, hits of equal score in the
/// order in which `hits` has them.
pub open spec fn ranked(hits: Seq<(u128, i64)>) -> Seq<(u128, i64)>
    decreases hits.len(),
{
    if hits.len() == 0 {
        Seq::empty()
    } else {
        let rest = ranked(hits.drop_last());
        rest.insert(insertion_point(rest, hits.last().1), hits.last())
    }
}

/// The best `k` hits in rank order, or all of them where there are fewer.
pub open spec fn top(hits: Seq<(u128, i64)>, k: nat) -> Seq<(u128, i64)> {
    if k < hits.len() {
        ranked(hits).take(k as int)
    } else {
        ranked(hits)
    }
}

/// The insertion point lies in the sequence, everything from it on scores
/// below `score`, and the hit before it does not.
pub proof fn lemma_insertion_point(sorted: Seq<(u128, i64)>, score: i64)
    ensures
        0 <= insertion_point(sorted, score) <= sorted.len(),
        forall|i: int| insertion_point(sorted, score) <= i < sorted.len() ==> sorted[i].1 < score,
        insertion_point(sorted, score) > 0 ==> sorted[insertion_point(sorted, score) - 1].1
            >= score,
    decreases sorted.len(),
{
    if !(sorted.len() == 0 || sorted.last().1 >= score) {
        let init = sorted.drop_last();
        lemma_insertion_point(init, score);
        assert forall|i: int| insertion_point(sorted, score) <= i < sorted.len() implies sorted[i].1
            < score by {
            if i < init.len() {
                assert(init[i] == sorted[i]);
            }
        }
        if insertion_point(sorted, score) > 0 {
            assert(init[insertion_point(sorted, score) - 1] == sorted[insertion_point(
                sorted,
                score,
            ) - 1]);
        }
    }
}

/// A position with those properties is the insertion point.
pub proof fn lemma_insertion_point_is(sorted: Seq<(u128, i64)>, score: i64, at: int)
    requires
        0 <= at <= sorted.len(),
        forall|i: int| at <= i < sorted.len() ==> sorted[i].1 < score,
        at > 0 ==> sorted[at - 1].1 >= score,
    ensures
        insertion_point(sorted, score) == at,
    decreases sorted.len(),
{
    if at < sorted.len() {
        lemma_insertion_point_is(sorted.drop_last(), score, at);
    }
}

/// Ranking neither drops nor adds a hit.
pub proof fn lemma_ranked_len(hits: Seq<(u128, i64)>)
    ensures
        ranked(hits).len() == hits.len(),
    decreases hits.len(),
{
    if hits.len() > 0 {
        lemma_ranked_len(hits.drop_last());
        lemma_insertion_point(ranked(hits.drop_last()), hits.last().1);
    }
}

/// In rank order the scores never increase.
pub proof fn lemma_ranked_descending(hits: Seq<(u128, i64)>)
    ensures
        descending(ranked(hits)),
    decreases hits.len(),
{
    if hits.len() > 0 {
        let rest = ranked(hits.drop_last());
        let hit = hits.last();
        let at = insertion_point(rest, hit.1);
        lemma_ranked_descending(hits.drop_last());
        lemma_insertion_point(rest, hit.1);
        let out = rest.insert(at, hit);
        assert forall|i: int, j: int| 0 <= i < j < out.len() implies out[i].1 >= out[j].1 by {
            if j < at {
                assert(out[i] == rest[i] && out[j] == rest[j]);
            } else if j == at {
                assert(out[i] == rest[i]);
                assert(rest[i].1 >= rest[at - 1].1);
            } else if i < at {
                assert(out[i] == rest[i] && out[j] == rest[j - 1]);
            } else if i == at {
                assert(out[j] == rest[j - 1]);
            } else {
                assert(out[i] == rest[i - 1] && out[j] == rest[j - 1]);
            }
        }
    }
}

/// Ranking is stable: the hits of any one score keep their order.
pub proof fn lemma_ranked_stable(hits: Seq<(u128, i64)>, score: i64)
    ensures
        scored(ranked(hits), score) == scored(hits, score),
    decreases hits.len(),
{
    let pred = has_score(score);
    if hits.len() == 0 {
        assert(ranked(hits) =~= hits);
    } else {
        let rest = ranked(hits.drop_last());
        let hit = hits.last();
        let at = insertion_point(rest, hit.1);
        lemma_ranked_stable(hits.drop_last(), score);
        lemma_insertion_point(rest, hit.1);
        let front = rest.subrange(0, at);
        let back = rest.subrange(at, rest.len() as int);
        assert(rest =~= front + back);
        Seq::filter_distributes_over_add(front, back, pred);
        Seq::filter_distributes_over_add(front.push(hit), back, pred);
        front.lemma_filter_push(hit, pred);
        hits.drop_last().lemma_filter_push(hit, pred);
        assert(hits =~= hits.drop_last().push(hit));
        assert(ranked(hits) == front.push(hit) + back);
        if hit.1 == score {
            assert forall|i: int| 0 <= i < back.len() implies !pred(#[trigger] back[i]) by {
                assert(back[i] == rest[at + i]);
            }
            back.lemma_all_neg_filter_empty(pred);
            assert(back.filter(pred) =~= Seq::empty());
            assert(front.filter(pred).push(hit) + back.filter(pred) =~= (front.filter(pred)
                + back.filter(pred)).push(hit));
        }
    }
}

/// A hit is in the ranking exactly if it is among the hits.
pub proof fn lemma_ranked_same_hits(hits: Seq<(u128, i64)>, hit: (u128, i64))
    ensures
        ranked(hits).contains(hit) <==> hits.contains(hit),
    decreases hits.len(),
{
    if hits.len() > 0 {
        let rest = ranked(hits.drop_last());
        let last = hits.last();
        let at = insertion_point(rest, last.1);
        lemma_ranked_same_hits(hits.drop_last(), hit);
        lemma_insertion_point(rest, last.1);
        let out = rest.insert(at, last);
        if out.contains(hit) {
            let i = choose|i: int| 0 <= i < out.len() && out[i] == hit;
            if i < at {
                assert(rest[i] == hit);
            } else if i > at {
                assert(rest[i - 1] == hit);
            }
            if rest.contains(hit) {
                let j = choose|j: int| 0 <= j < hits.drop_last().len() && hits.drop_last()[j]
                    == hit;
                assert(hits[j] == hit);
            } else {
                assert(hits[hits.len() - 1] == hit);
            }
        }
        if hits.contains(hit) {
            let j = choose|j: int| 0 <= j < hits.len() && hits[j] == hit;
            if j == hits.len() - 1 {
                assert(out[at] == hit);
            } else {
                assert(hits.drop_last()[j] == hit);
                let i = choose|i: int| 0 <= i < rest.len() && rest[i] == hit;
                if i < at {
                    assert(out[i] == hit);
                } else {
                    assert(out[i + 1] == hit);
                }
            }
        }
    }
}

/// Whether no two hits have the same id.
pub open spec fn distinct_ids(hits: Seq<(u128, i64)>) -> bool {
    forall|i: int, j: int| 0 <= i < j < hits.len() ==> hits[i].0 != hits[j].0
}

/// Ranking hits with pairwise different ids gives hits with pairwise
/// different ids.
pub proof fn lemma_ranked_distinct(hits: Seq<(u128, i64)>)
    requires
        distinct_ids(hits),
    ensures
        distinct_ids(ranked(hits)),
    decreases hits.len(),
{
    if hits.len() > 0 {
        let init = hits.drop_last();
        let last = hits.last();
        let rest = ranked(init);
        let at = insertion_point(rest, last.1);
        assert(distinct_ids(init)) by {
            assert forall|i: int, j: int| 0 <= i < j < init.len() implies init[i].0 != init[j].0 by {
                assert(hits[i].0 != hits[j].0);
            }
        }
        lemma_ranked_distinct(init);
        lemma_insertion_point(rest, last.1);
        assert forall|i: int| 0 <= i < rest.len() implies (#[trigger] rest[i]).0 != last.0 by {
            assert(rest.contains(rest[i]));
            lemma_ranked_same_hits(init, rest[i]);
            let j = choose|j: int| 0 <= j < init.len() && init[j] == rest[i];
            assert(hits[j].0 != hits[hits.len() - 1].0);
        }
        let out = rest.insert(at, last);
        assert forall|i: int, j: int| 0 <= i < j < out.len() implies out[i].0 != out[j].0 by {
            if j < at {
                assert(out[i] == rest[i] && out[j] == rest[j]);
            } else if j == at {
                assert(out[i] == rest[i]);
            } else if i < at {
                assert(out[i] == rest[i] && out[j] == rest[j - 1]);
            } else if i == at {
                assert(out[j] == rest[j - 1]);
            } else {
                assert(out[i] == rest[i - 1] && out[j] == rest[j - 1]);
            }
        }
    }
}

/// The best `k` are at most `k`, all of the hits where those are fewer, and
/// their scores never increase.
pub proof fn lemma_top(hits: Seq<(u128, i64)>, k: nat)
    ensures
        top(hits, k).len() == if k < hits.len() {
            k
        } else {
            hits.len()
        },
        descending(top(hits, k)),
{
    lemma_ranked_len(hits);
    lemma_ranked_descending(hits);
}

/// Puts `hits` in rank order: by descending score, hits of equal score in
/// the order given.
pub fn rank(hits: &Vec<(u128, i64)>) -> (out: Vec<(u128, i64)>)
    ensures
        out@ == ranked(hits@),
        out@.len() == hits@.len(),
        descending(out@),
        forall|score: i64| scored(out@, score) == scored(hits@, score),
{
    let mut out: Vec<(u128, i64)> = Vec::new();
    let mut i: usize = 0;
    while i < hits.len()
        invariant
            i <= hits.len(),
            out@ == ranked(hits@.take(i as int)),
            out@.len() == i,
        decreases hits.len() - i,
    {
        let hit = hits[i];
        let mut at: usize = out.len();
        while at > 0 && out[at - 1].1 < hit.1
            invariant
                at <= out.len(),
                forall|j: int| at <= j < out@.len() ==> out@[j].1 < hit.1,
            decreases at,
        {
            at -= 1;
        }
        proof {
            lemma_insertion_point_is(out@, hit.1, at as int);
            assert(hits@.take(i + 1).drop_last() =~= hits@.take(i as int));
            out@.insert_ensures(at as int, hit);
        }
        out.insert(at, hit);
        i += 1;
    }
    proof {
        assert(hits@.take(hits@.len() as int) =~= hits@);
        lemma_ranked_descending(hits@);
        assert forall|score: i64| scored(out@, score) == scored(hits@, score) by {
            lemma_ranked_stable(hits@, score);
        }
    }
    out
}

/// The best `k` of `hits` in rank order, or all of them where there are fewer.
pub fn top_k(hits: &Vec<(u128, i64)>, k: usize) -> (out: Vec<(u128, i64)>)
    ensures
        out@ == top(hits@, k as nat),
        out@.len() <= k,
        out@.len() <= hits@.len(),
        descending(out@),
{
    let mut out = rank(hits);
    out.truncate(k);
    out
}

} // verus!

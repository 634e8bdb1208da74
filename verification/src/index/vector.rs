//! The reference index: every search compares the query with every stored
//! embedding.
use crate::index::ranking::{descending, top, top_k};
use crate::index::similarity::{cosine_similarity, similarity};
use crate::index::{IndexError, VectorIndex};
use vstd::prelude::*;
use vstd::slice::slice_to_vec;

verus! {

/// The similarity of `query` and the embedding at position `i` of `entries`.
pub open spec fn score_at(entries: Seq<(u128, Seq<i32>)>, query: Seq<i32>, i: int) -> Result<
    i64,
    IndexError,
> {
    similarity(query, entries[i].1)
}

/// Whether `i` is the first position of `entries` whose embedding has no
/// similarity with `query`.
pub open spec fn first_failure(entries: Seq<(u128, Seq<i32>)>, query: Seq<i32>, i: int) -> bool {
    &&& 0 <= i < entries.len()
    &&& score_at(entries, query, i) is Err
    &&& forall|j: int| 0 <= j < i ==> #[trigger] score_at(entries, query, j) is Ok
}

/// Every entry with its similarity to `query`, in the order of the entries;
/// or, where some embedding has none, the error of the first such entry.
pub open spec fn score_all(entries: Seq<(u128, Seq<i32>)>, query: Seq<i32>) -> Result<
    Seq<(u128, i64)>,
    IndexError,
> {
    if exists|i: int| first_failure(entries, query, i) {
        Err(score_at(entries, query, choose|i: int| first_failure(entries, query, i))->Err_0)
    } else {
        Ok(
            Seq::new(
                entries.len(),
                |i: int| (entries[i].0, score_at(entries, query, i)->Ok_0),
            ),
        )
    }
}

/// The answer of an exhaustive search: the `k` entries most similar to
/// `query`, the best first and entries of equal score oldest first.
pub open spec fn exhaustive_search(entries: Seq<(u128, Seq<i32>)>, query: Seq<i32>, k: nat) -> Result<
    Seq<(u128, i64)>,
    IndexError,
> {
    match score_all(entries, query) {
        Ok(hits) => Ok(top(hits, k)),
        Err(error) => Err(error),
    }
}

/// An index that keeps every embedding in a list.
pub struct SimpleVectorIndex {
    vectors: Vec<(u128, Vec<i32>)>,
}

impl SimpleVectorIndex {
    /// An empty index.
    pub fn new() -> (index: Self)
        ensures
            index.entries() == Seq::<(u128, Seq<i32>)>::empty(),
    {
        let index = SimpleVectorIndex { vectors: Vec::new() };
        assert(index.entries() =~= Seq::<(u128, Seq<i32>)>::empty());
        index
    }

    /// The number of registered embeddings.
    pub fn len(&self) -> (n: usize)
        ensures
            n == self.entries().len(),
    {
        self.vectors.len()
    }
}

impl VectorIndex for SimpleVectorIndex {
    closed spec fn entries(&self) -> Seq<(u128, Seq<i32>)> {
        self.vectors@.map_values(|entry: (u128, Vec<i32>)| (entry.0, entry.1@))
    }

    open spec fn answer(&self, query: Seq<i32>, k: nat) -> Result<Seq<(u128, i64)>, IndexError> {
        exhaustive_search(self.entries(), query, k)
    }

    /// Registers `vector` under `id`. This index takes every vector.
    fn add(&mut self, id: u128, vector: &[i32]) -> (done: Result<(), IndexError>)
        ensures
            done is Ok,
    {
        let ghost before = self.entries();
        self.vectors.push((id, slice_to_vec(vector)));
        assert(self.entries() =~= before.push((id, vector@)));
        Ok(())
    }

    /// Compares `vector` with every registered embedding and returns the
    /// `k` most similar, the best first. A registered embedding that has no
    /// similarity with `vector` fails the whole search.
    fn search(&self, vector: &[i32], k: usize) -> (found: Result<Vec<(u128, i64)>, IndexError>) {
        let ghost entries = self.entries();
        let mut hits: Vec<(u128, i64)> = Vec::new();
        let mut i: usize = 0;
        while i < self.vectors.len()
            invariant
                i <= self.vectors@.len(),
                entries == self.entries(),
                entries.len() == self.vectors@.len(),
                hits@.len() == i,
                forall|j: int| 0 <= j < i ==> #[trigger] score_at(entries, vector@, j) is Ok,
                forall|j: int|
                    0 <= j < i ==> hits@[j] == (
                        entries[j].0,
                        score_at(entries, vector@, j)->Ok_0,
                    ),
            decreases self.vectors@.len() - i,
        {
            let id: u128 = self.vectors[i].0;
            match cosine_similarity(vector, self.vectors[i].1.as_slice()) {
                Ok(score) => {
                    hits.push((id, score));
                },
                Err(error) => {
                    proof {
                        assert(first_failure(entries, vector@, i as int));
                        let first = choose|f: int| first_failure(entries, vector@, f);
                        if first < i {
                            assert(score_at(entries, vector@, first) is Ok);
                        } else if i < first {
                            assert(score_at(entries, vector@, i as int) is Ok);
                        }
                    }
                    return Err(error);
                },
            }
            i += 1;
        }
        proof {
            assert forall|f: int| !first_failure(entries, vector@, f) by {
                if 0 <= f < entries.len() {
                    assert(score_at(entries, vector@, f) is Ok);
                }
            }
            assert(hits@ =~= Seq::new(
                entries.len(),
                |i: int| (entries[i].0, score_at(entries, vector@, i)->Ok_0),
            ));
        }
        Ok(top_k(&hits, k))
    }
}

/// Nearest-neighbour ordering: an exhaustive search that succeeds returns
/// at most `k` hits, no more than there are entries, and their scores never
/// increase from one hit to the next.
pub proof fn lemma_search_bounded_descending(
    entries: Seq<(u128, Seq<i32>)>,
    query: Seq<i32>,
    k: nat,
)
    ensures
        exhaustive_search(entries, query, k) matches Ok(found) ==> {
            &&& found.len() <= k
            &&& found.len() <= entries.len()
            &&& descending(found)
        },
{
    if let Ok(hits) = score_all(entries, query) {
        crate::index::ranking::lemma_top(hits, k);
    }
}

/// Where every entry has as many components as the query, and no product
/// of squared magnitudes leaves 128 bits, an exhaustive search succeeds and
/// returns `k` hits, or all the entries where there are fewer: nothing for
/// `k == 0` and nothing from an empty index.
pub proof fn lemma_search_finds_the_nearest(entries: Seq<(u128, Seq<i32>)>, query: Seq<i32>, k: nat)
    requires
        forall|i: int|
            0 <= i < entries.len() ==> (#[trigger] entries[i]).1.len() == query.len()
                && crate::index::similarity::norm_sq(query) * crate::index::similarity::norm_sq(
                entries[i].1,
            ) <= u128::MAX,
    ensures
        exhaustive_search(entries, query, k) is Ok,
        exhaustive_search(entries, query, k)->Ok_0.len() == if k < entries.len() {
            k
        } else {
            entries.len()
        },
        descending(exhaustive_search(entries, query, k)->Ok_0),
{
    assert forall|i: int| !first_failure(entries, query, i) by {
        if 0 <= i < entries.len() {
            assert(entries[i].1.len() == query.len());
            assert(score_at(entries, query, i) is Ok);
        }
    }
    let hits = score_all(entries, query)->Ok_0;
    assert(hits.len() == entries.len());
    crate::index::ranking::lemma_top(hits, k);
}

} // verus!

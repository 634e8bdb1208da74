//! The vector index: nearest-neighbour retrieval over embeddings.
use crate::index::ranking::descending;
use vstd::prelude::*;

pub mod ranking;
pub mod similarity;
pub mod vector;

pub use crate::index::vector::SimpleVectorIndex;

verus! {

/// Why a search or an insertion into the index failed.
#[derive(Clone, Copy, Debug, PartialEq, Eq, Structural)]
pub enum IndexError {
    /// A stored embedding and the query have different lengths.
    DimensionMismatch,
    /// The vectors are too large for the similarity to be computed in 128
    /// bits.
    Overflow,
}

/// An index of embeddings that answers nearest-neighbour queries. An
/// approximate index may stand behind this trait as well as an exhaustive
/// one: the contracts ask for an ordered, bounded answer, not for a
/// particular one.
///
/// The index has no synchronisation of its own: insertion takes the index
/// exclusively, and sharing it between threads is the caller's to arrange.
///
/// What is proved of the query engine over an index holds as far as the
/// index keeps these contracts. An implementation that is not verified is
/// not held to them.
pub trait VectorIndex {
    /// The embeddings registered so far, oldest first. An id may occur more
    /// than once. An index says here what it holds; left as it is, nothing
    /// is known of it.
    open spec fn entries(&self) -> Seq<(u128, Seq<i32>)> {
        arbitrary()
    }

    /// What a search for the `k` nearest neighbours of `query` answers. An
    /// index says here how it searches; left as it is, nothing is known of
    /// the answer.
    open spec fn answer(&self, query: Seq<i32>, k: nat) -> Result<Seq<(u128, i64)>, IndexError> {
        arbitrary()
    }

    /// Registers `vector` under `id`, beside whatever is registered under
    /// that id already. An index that refuses the vector is left as it was.
    fn add(&mut self, id: u128, vector: &[i32]) -> (done: Result<(), IndexError>)
        ensures
            done is Ok ==> final(self).entries() == old(self).entries().push((id, vector@)),
            done is Err ==> final(self).entries() == old(self).entries(),
    ;

    /// The nearest neighbours of `vector`: at most `k` pairs of id and
    /// score, the best first.
    fn search(&self, vector: &[i32], k: usize) -> (found: Result<Vec<(u128, i64)>, IndexError>)
        ensures
            match found {
                Ok(hits) => self.answer(vector@, k as nat) == Ok::<Seq<(u128, i64)>, IndexError>(
                    hits@,
                ),
                Err(error) => self.answer(vector@, k as nat) == Err::<
                    Seq<(u128, i64)>,
                    IndexError,
                >(error),
            },
            found matches Ok(hits) ==> hits@.len() <= k && descending(hits@),
    ;
}

/// A graph of weighted edges between ids.
pub trait GraphIndex {
    /// Adds an edge from `source` to `target`.
    fn add_edge(&mut self, source: u128, target: u128, weight: i64) -> Result<(), IndexError>;

    /// The neighbours of `node`, each with the weight of the edge to it.
    fn get_neighbors(&self, node: u128) -> Result<Vec<(u128, i64)>, IndexError>;
}

} // verus!

//! The query engine: seed, filter, expand, rank. One call is one pass
//! through these four stages over a store and a vector index that it only
//! reads.
use crate::index::ranking::{rank, ranked};
use crate::index::VectorIndex;
use crate::models::{Memory, MemoryView, UNIT};
use crate::query::{criterion_text, meets, Criterion, Direction, Filter, Query, QueryError};
use crate::storage::{StorageManager, StorageView};
use std::collections::HashMap;
use vstd::prelude::*;

verus! {

broadcast use vstd::std_specs::hash::group_hash_axioms;

/// The candidates of a query as it runs: the ids in the order in which
/// they were found, none twice, and the score of each.
pub struct Candidates {
    pub ids: Seq<u128>,
    pub scores: Map<u128, i64>,
}

/// Half of a score, rounded toward zero.
pub open spec fn half(score: i64) -> i64 {
    if score >= 0 {
        (score / 2) as i64
    } else {
        (-((-score) / 2)) as i64
    }
}

/// The score of `id`, or `default` where it has none.
pub open spec fn score_or(scores: Map<u128, i64>, id: u128, default: i64) -> i64 {
    if scores.contains_key(id) {
        scores[id]
    } else {
        default
    }
}

/// `ids` with `id` at the end, unless it is there already.
pub open spec fn with_id(ids: Seq<u128>, id: u128) -> Seq<u128> {
    if ids.contains(id) {
        ids
    } else {
        ids.push(id)
    }
}

impl Candidates {
    /// No candidates and no scores.
    pub open spec fn none() -> Candidates {
        Candidates { ids: Seq::empty(), scores: Map::empty() }
    }

    /// Whether no candidate is listed twice and exactly the candidates
    /// have a score.
    pub open spec fn consistent(self) -> bool {
        self.ids.no_duplicates() && self.scores.dom() == self.ids.to_set()
    }

    /// The candidates after the hit `(id, score)` was taken in as a seed: a
    /// later hit for an id overwrites the score of an earlier one.
    pub open spec fn seed(self, hit: (u128, i64)) -> Candidates {
        Candidates { ids: with_id(self.ids, hit.0), scores: self.scores.insert(hit.0, hit.1) }
    }

    /// The candidates after `neighbour` was reached from `parent`: it
    /// becomes a candidate, and where it has no score yet it gets half of
    /// the parent's (of one whole, should the parent have none).
    pub open spec fn reach(self, parent: u128, neighbour: u128) -> Candidates {
        Candidates {
            ids: with_id(self.ids, neighbour),
            scores: if self.scores.contains_key(neighbour) {
                self.scores
            } else {
                self.scores.insert(neighbour, half(score_or(self.scores, parent, UNIT)))
            },
        }
    }

    /// The candidates after each of `found` was reached from `parent`, in
    /// order.
    pub open spec fn reach_all(self, parent: u128, found: Seq<u128>) -> Candidates
        decreases found.len(),
    {
        if found.len() == 0 {
            self
        } else {
            self.reach_all(parent, found.drop_last()).reach(parent, found.last())
        }
    }
}

/// The candidates that a list of hits seeds.
pub open spec fn seeded(hits: Seq<(u128, i64)>) -> Candidates
    decreases hits.len(),
{
    if hits.len() == 0 {
        Candidates::none()
    } else {
        seeded(hits.drop_last()).seed(hits.last())
    }
}

/// The hits of the fallback scan: every stored memory, in ascending order
/// of id, each with the score of one whole.
pub open spec fn scan_hits(store: StorageView) -> Seq<(u128, i64)> {
    store.memory_ids().map_values(|id: u128| (id, UNIT))
}

/// The test of the filter stage: the id resolves to a record, and the
/// record meets the criteria.
pub open spec fn survives(
    store: StorageView,
    id: Criterion<u128>,
    kind: Criterion<Seq<char>>,
) -> spec_fn(u128) -> bool {
    |candidate: u128|
        store.memories.contains_key(candidate) && meets(store.memories[candidate], id, kind)
}

/// The candidates after the filter stage: those that survive, in their
/// order and with their scores. A candidate that is removed loses its
/// score with its place: should the traversal reach it again, it is scored
/// as any newly found node.
pub open spec fn filtered(
    candidates: Candidates,
    store: StorageView,
    id: Criterion<u128>,
    kind: Criterion<Seq<char>>,
) -> Candidates {
    Candidates {
        ids: candidates.ids.filter(survives(store, id, kind)),
        scores: candidates.scores.restrict(
            candidates.ids.filter(survives(store, id, kind)).to_set(),
        ),
    }
}

/// The nodes one hop from `parent`: the targets of its outgoing edges,
/// where those are followed, then the sources of its incoming edges, where
/// those are followed.
pub open spec fn neighbours(store: StorageView, direction: Direction, parent: u128) -> Seq<u128> {
    (if direction.outbound() {
        store.outbound(parent).map_values(|edge: crate::models::EdgeView| edge.target_id)
    } else {
        Seq::empty()
    }) + (if direction.inbound() {
        store.inbound(parent).map_values(|edge: crate::models::InboundEdgeView| edge.source_id)
    } else {
        Seq::empty()
    })
}

/// The candidates after the neighbours of each of `parents` were reached,
/// parent by parent.
pub open spec fn expanded_from(
    candidates: Candidates,
    store: StorageView,
    direction: Direction,
    parents: Seq<u128>,
) -> Candidates
    decreases parents.len(),
{
    if parents.len() == 0 {
        candidates
    } else {
        expanded_from(candidates, store, direction, parents.drop_last()).reach_all(
            parents.last(),
            neighbours(store, direction, parents.last()),
        )
    }
}

/// The candidates after the traversal stage: one hop from every candidate,
/// and no further.
pub open spec fn expanded(candidates: Candidates, store: StorageView, direction: Direction) -> Candidates {
    expanded_from(candidates, store, direction, candidates.ids)
}

/// The test whether an id resolves to a stored record.
pub open spec fn resolves(store: StorageView) -> spec_fn(u128) -> bool {
    |id: u128| store.memories.contains_key(id)
}

/// Each id with its score, zero where it has none.
pub open spec fn with_scores(ids: Seq<u128>, scores: Map<u128, i64>) -> Seq<(u128, i64)> {
    ids.map_values(|id: u128| (id, score_or(scores, id, 0)))
}

/// The result of the last stage, as ids and scores: the candidates that
/// resolve to a record, by descending score, candidates of equal score in
/// the order in which they were found; cut to `limit` where there is one.
pub open spec fn ranking(candidates: Candidates, store: StorageView, limit: Option<usize>) -> Seq<
    (u128, i64),
> {
    let all = ranked(with_scores(candidates.ids.filter(resolves(store)), candidates.scores));
    match limit {
        Some(n) => if n < all.len() {
            all.take(n as int)
        } else {
            all
        },
        None => all,
    }
}

/// The records of a list of hits.
pub open spec fn records(store: StorageView, hits: Seq<(u128, i64)>) -> Seq<MemoryView> {
    hits.map_values(|hit: (u128, i64)| store.memories[hit.0])
}

/// The candidates after the first three stages, from the hits that seed
/// them.
pub open spec fn gathered(
    store: StorageView,
    seeds: Seq<(u128, i64)>,
    filter: Option<Filter>,
    direction: Option<Direction>,
) -> Candidates {
    let kept = match filter {
        Some(f) => filtered(seeded(seeds), store, f.wanted_id(), f.wanted_type()),
        None => seeded(seeds),
    };
    match direction {
        Some(d) => expanded(kept, store, d),
        None => kept,
    }
}

/// The ranked, bounded result of a query whose seeds are `seeds`.
pub open spec fn response(
    store: StorageView,
    seeds: Seq<(u128, i64)>,
    filter: Option<Filter>,
    direction: Option<Direction>,
    limit: Option<usize>,
) -> Seq<MemoryView> {
    records(store, ranking(gathered(store, seeds, filter, direction), store, limit))
}

/// The embedding that a query searches with, if it has one.
pub open spec fn wanted_embedding(query: Query) -> Option<Seq<i32>> {
    match query.search {
        Some(search) => match search.vector.embedding {
            Some(embedding) => Some(embedding@),
            None => None,
        },
        None => None,
    }
}

/// How many neighbours the seeding search asks for: the limit of the
/// query, or ten.
pub open spec fn seed_count(query: Query) -> usize {
    match query.limit {
        Some(n) => n,
        None => 10,
    }
}

/// The direction of the traversal of a query: none without a traversal,
/// an error where the direction has an unknown name.
pub open spec fn wanted_direction(query: Query) -> Result<Option<Direction>, QueryError> {
    match query.traverse {
        Some(traverse) => match Direction::named(traverse.direction@) {
            Some(direction) => Ok(Some(direction)),
            None => Err(QueryError::InvalidDirection),
        },
        None => Ok(None),
    }
}

/// What a query returns, over a store and the answers of a vector index.
///
/// A traversal with an unknown direction fails the query before anything is
/// read. A query with an embedding is seeded by the index, and fails where
/// the index fails; one without is seeded by a scan of all memories.
pub open spec fn outcome<V: VectorIndex>(query: Query, store: StorageView, index: &V) -> Result<
    Seq<MemoryView>,
    QueryError,
> {
    match wanted_direction(query) {
        Err(error) => Err(error),
        Ok(direction) => match wanted_embedding(query) {
            Some(embedding) => match index.answer(embedding, seed_count(query) as nat) {
                Ok(hits) => Ok(response(store, hits, query.filter, direction, query.limit)),
                Err(error) => Err(QueryError::Index(error)),
            },
            None => Ok(response(store, scan_hits(store), query.filter, direction, query.limit)),
        },
    }
}

/// Half of a score, rounded toward zero.
pub fn halve(score: i64) -> (halved: i64)
    ensures
        halved == half(score),
{
    if score >= 0 {
        score / 2
    } else if score == i64::MIN {
        -4611686018427387904
    } else {
        -((-score) / 2)
    }
}

/// Whether a record meets the two criteria, see [`meets`].
pub fn matches_criteria(memory: &Memory, id: &Criterion<u128>, kind: &Criterion<String>) -> (yes:
    bool)
    ensures
        yes == meets(memory@, *id, criterion_text(*kind)),
{
    let id_fits = match id {
        Criterion::Absent => true,
        Criterion::Unmeetable => false,
        Criterion::Wanted(wanted) => memory.id == *wanted,
    };
    let kind_fits = match kind {
        Criterion::Absent => true,
        Criterion::Unmeetable => false,
        Criterion::Wanted(wanted) => crate::query::same_text(
            memory.memory_type.tag(),
            wanted.as_str(),
        ),
    };
    id_fits && kind_fits
}

/// The candidates of a running query.
pub struct CandidateSet {
    ids: Vec<u128>,
    scores: HashMap<u128, i64>,
}

impl View for CandidateSet {
    type V = Candidates;

    closed spec fn view(&self) -> Candidates {
        Candidates { ids: self.ids@, scores: self.scores@ }
    }
}

/// The ids of a sequence with one more at its end are the ids of the
/// sequence and that one.
pub proof fn lemma_push_to_set(ids: Seq<u128>, id: u128)
    ensures
        ids.push(id).to_set() == ids.to_set().insert(id),
{
    assert forall|x: u128| ids.push(id).to_set().contains(x) <==> ids.to_set().insert(id).contains(
        x,
    ) by {
        if ids.push(id).contains(x) {
            let i = choose|i: int| 0 <= i < ids.push(id).len() && ids.push(id)[i] == x;
            if i < ids.len() {
                assert(ids[i] == x);
            }
        }
        if ids.contains(x) {
            let i = choose|i: int| 0 <= i < ids.len() && ids[i] == x;
            assert(ids.push(id)[i] == x);
        }
        if x == id {
            assert(ids.push(id)[ids.len() as int] == x);
        }
    }
    assert(ids.push(id).to_set() =~= ids.to_set().insert(id));
}

/// A sequence without repetitions stays one when something new is put at
/// its end.
pub proof fn lemma_push_distinct(ids: Seq<u128>, id: u128)
    requires
        ids.no_duplicates(),
        !ids.contains(id),
    ensures
        ids.push(id).no_duplicates(),
{
    let longer = ids.push(id);
    assert forall|i: int, j: int| 0 <= i < longer.len() && 0 <= j < longer.len() && i != j implies longer[i]
        != longer[j] by {
        if i < ids.len() && j < ids.len() {
            assert(ids[i] != ids[j]);
        } else if i < ids.len() {
            assert(ids.contains(ids[i]));
        } else {
            assert(ids.contains(ids[j]));
        }
    }
}

/// What a filter keeps of a sequence without repetitions has none.
pub proof fn lemma_filter_distinct(ids: Seq<u128>, pred: spec_fn(u128) -> bool)
    requires
        ids.no_duplicates(),
    ensures
        ids.filter(pred).no_duplicates(),
    decreases ids.len(),
{
    if ids.len() == 0 {
        assert(ids.filter(pred) =~= Seq::<u128>::empty()) by {
            ids.lemma_filter_len(pred);
        }
    } else {
        let init = ids.drop_last();
        let last = ids.last();
        assert(ids =~= init.push(last));
        assert(init.no_duplicates()) by {
            assert forall|i: int, j: int| 0 <= i < init.len() && 0 <= j < init.len() && i != j implies init[i]
                != init[j] by {
                assert(ids[i] != ids[j]);
            }
        }
        lemma_filter_distinct(init, pred);
        init.lemma_filter_push(last, pred);
        if pred(last) {
            if init.filter(pred).contains(last) {
                init.lemma_filter_contains_rev(pred, last);
                let i = choose|i: int| 0 <= i < init.len() && init[i] == last;
                assert(ids[i] == ids[ids.len() - 1]);
            }
            lemma_push_distinct(init.filter(pred), last);
        }
    }
}

impl CandidateSet {
    #[verifier::type_invariant]
    spec fn every_candidate_once_and_scored(self) -> bool {
        self.ids@.no_duplicates() && self.scores@.dom() == self.ids@.to_set()
    }

    /// No candidates and no scores.
    pub fn new() -> (candidates: Self)
        ensures
            candidates@ == Candidates::none(),
    {
        let ids: Vec<u128> = Vec::new();
        let scores: HashMap<u128, i64> = HashMap::new();
        assert(ids@.to_set() =~= scores@.dom());
        CandidateSet { ids, scores }
    }

    /// The candidates, in the order in which they were found.
    pub fn ids(&self) -> (ids: Vec<u128>)
        ensures
            ids@ == self@.ids,
    {
        let ids = self.ids.clone();
        assert(ids@ =~= self.ids@);
        ids
    }

    /// The score assigned to `id`, if it has one.
    pub fn score_of(&self, id: u128) -> (score: Option<i64>)
        ensures
            match score {
                Some(s) => self@.scores.contains_key(id) && self@.scores[id] == s,
                None => !self@.scores.contains_key(id),
            },
    {
        match self.scores.get(&id) {
            Some(score) => Some(*score),
            None => None,
        }
    }

    /// Takes the hit `(id, score)` in as a seed.
    pub fn seed(self, id: u128, score: i64) -> (candidates: Self)
        ensures
            candidates@ == self@.seed((id, score)),
    {
        proof {
            use_type_invariant(&self);
        }
        let mut ids = self.ids;
        let mut scores = self.scores;
        if !scores.contains_key(&id) {
            proof {
                lemma_push_to_set(ids@, id);
                lemma_push_distinct(ids@, id);
            }
            ids.push(id);
        }
        scores.insert(id, score);
        assert(scores@.dom() =~= ids@.to_set());
        CandidateSet { ids, scores }
    }

    /// The candidates that a list of hits seeds.
    pub fn seeded(hits: &Vec<(u128, i64)>) -> (candidates: Self)
        ensures
            candidates@ == seeded(hits@),
    {
        let mut candidates = CandidateSet::new();
        let mut i: usize = 0;
        while i < hits.len()
            invariant
                i <= hits.len(),
                candidates@ == seeded(hits@.take(i as int)),
            decreases hits.len() - i,
        {
            assert(hits@.take(i + 1).drop_last() =~= hits@.take(i as int));
            candidates = candidates.seed(hits[i].0, hits[i].1);
            i += 1;
        }
        assert(hits@.take(hits@.len() as int) =~= hits@);
        candidates
    }

    /// Reaches `neighbour` from `parent`, see [`Candidates::reach`].
    pub fn reach(self, parent: u128, neighbour: u128) -> (candidates: Self)
        ensures
            candidates@ == self@.reach(parent, neighbour),
    {
        proof {
            use_type_invariant(&self);
        }
        let mut ids = self.ids;
        let mut scores = self.scores;
        if !scores.contains_key(&neighbour) {
            let parent_score: i64 = match scores.get(&parent) {
                Some(score) => *score,
                None => UNIT,
            };
            proof {
                lemma_push_to_set(ids@, neighbour);
                lemma_push_distinct(ids@, neighbour);
            }
            ids.push(neighbour);
            scores.insert(neighbour, halve(parent_score));
        }
        assert(scores@.dom() =~= ids@.to_set());
        CandidateSet { ids, scores }
    }

    /// The filter stage: keeps the candidates that resolve to a record
    /// which meets the criteria, in their order and with their scores, and
    /// forgets the others.
    pub fn retain_matching(
        self,
        storage: &StorageManager,
        id: &Criterion<u128>,
        kind: &Criterion<String>,
    ) -> (candidates: Self)
        ensures
            candidates@ == filtered(self@, storage@, *id, criterion_text(*kind)),
    {
        proof {
            use_type_invariant(&self);
        }
        let ghost pred = survives(storage@, *id, criterion_text(*kind));
        let ids = self.ids;
        let scores = self.scores;
        let mut kept: Vec<u128> = Vec::new();
        let mut kept_scores: HashMap<u128, i64> = HashMap::new();
        assert(ids@.take(0).filter(pred) =~= Seq::<u128>::empty());
        assert(kept_scores@ =~= scores@.restrict(kept@.to_set()));
        let mut i: usize = 0;
        while i < ids.len()
            invariant
                i <= ids.len(),
                pred == survives(storage@, *id, criterion_text(*kind)),
                scores@.dom() == ids@.to_set(),
                kept@ == ids@.take(i as int).filter(pred),
                kept_scores@ == scores@.restrict(kept@.to_set()),
            decreases ids.len() - i,
        {
            let candidate: u128 = ids[i];
            let keep = match storage.peek_memory(candidate) {
                Some(memory) => matches_criteria(memory, id, kind),
                None => false,
            };
            proof {
                assert(ids@.take(i + 1) =~= ids@.take(i as int).push(candidate));
                ids@.take(i as int).lemma_filter_push(candidate, pred);
                assert(keep == pred(candidate));
                assert(ids@.contains(candidate));
            }
            if keep {
                let score: i64 = match scores.get(&candidate) {
                    Some(found) => *found,
                    None => 0,
                };
                proof {
                    lemma_push_to_set(kept@, candidate);
                    assert(scores@.restrict(kept@.to_set()).insert(candidate, score)
                        =~= scores@.restrict(kept@.to_set().insert(candidate)));
                }
                kept.push(candidate);
                kept_scores.insert(candidate, score);
            }
            i += 1;
        }
        assert(ids@.take(ids@.len() as int) =~= ids@);
        assert(kept_scores@.dom() =~= kept@.to_set()) by {
            assert forall|x: u128| kept@.to_set().contains(x) implies scores@.dom().contains(x) by {
                ids@.lemma_filter_contains_rev(pred, x);
            }
        }
        proof {
            lemma_filter_distinct(ids@, pred);
        }
        CandidateSet { ids: kept, scores: kept_scores }
    }

    /// The traversal stage: reaches, from every candidate in turn, the
    /// targets of its outgoing edges and then the sources of its incoming
    /// edges, as far as `direction` follows them. One hop is made: what is
    /// reached is not expanded again.
    pub fn expand(self, storage: &StorageManager, direction: Direction) -> (candidates: Self)
        ensures
            candidates@ == expanded(self@, storage@, direction),
    {
        let parents: Vec<u128> = self.ids.clone();
        assert(parents@ =~= self.ids@);
        let ghost start = self@;
        let ghost store = storage@;
        let mut current = self;
        let mut p: usize = 0;
        while p < parents.len()
            invariant
                p <= parents.len(),
                store == storage@,
                current@ == expanded_from(start, store, direction, parents@.take(p as int)),
            decreases parents.len() - p,
        {
            let parent: u128 = parents[p];
            let ghost base = current@;
            let ghost mut reached: Seq<u128> = Seq::empty();
            if direction.follows_outbound() {
                let edges = storage.get_outbound_edges(parent);
                let ghost targets = store.outbound(parent).map_values(
                    |edge: crate::models::EdgeView| edge.target_id,
                );
                let mut j: usize = 0;
                while j < edges.len()
                    invariant
                        j <= edges.len(),
                        crate::models::edge_views(edges@) == store.outbound(parent),
                        targets.len() == edges@.len(),
                        forall|k: int| 0 <= k < edges@.len() ==> targets[k] == edges@[k].target_id,
                        current@ == base.reach_all(parent, targets.take(j as int)),
                    decreases edges.len() - j,
                {
                    assert(targets.take(j + 1).drop_last() =~= targets.take(j as int));
                    current = current.reach(parent, edges[j].target_id);
                    j += 1;
                }
                proof {
                    assert(targets.take(targets.len() as int) =~= targets);
                    reached = targets;
                }
            }
            if direction.follows_inbound() {
                let edges = storage.get_inbound_edges(parent);
                let ghost sources = store.inbound(parent).map_values(
                    |edge: crate::models::InboundEdgeView| edge.source_id,
                );
                let mut j: usize = 0;
                while j < edges.len()
                    invariant
                        j <= edges.len(),
                        crate::models::inbound_views(edges@) == store.inbound(parent),
                        sources.len() == edges@.len(),
                        forall|k: int| 0 <= k < edges@.len() ==> sources[k] == edges@[k].source_id,
                        current@ == base.reach_all(parent, reached + sources.take(j as int)),
                    decreases edges.len() - j,
                {
                    assert((reached + sources.take(j + 1)).drop_last() =~= reached + sources.take(
                        j as int,
                    ));
                    current = current.reach(parent, edges[j].source_id);
                    j += 1;
                }
                proof {
                    assert(sources.take(sources.len() as int) =~= sources);
                    reached = reached + sources;
                }
            }
            proof {
                assert(reached =~= neighbours(store, direction, parent));
                assert(parents@.take(p + 1).drop_last() =~= parents@.take(p as int));
            }
            p += 1;
        }
        assert(parents@.take(parents@.len() as int) =~= parents@);
        current
    }

    /// The last stage: resolves every candidate to its record, dropping
    /// those that have none; sorts by descending score, candidates of equal
    /// score in the order in which they were found; cuts the list to
    /// `limit`, if there is one.
    pub fn into_ranked(self, storage: &StorageManager, limit: Option<usize>) -> (result: Vec<Memory>)
        ensures
            crate::storage::memory_views(result@) == records(
                storage@,
                ranking(self@, storage@, limit),
            ),
            limit matches Some(n) ==> result@.len() <= n,
    {
        let ghost store = storage@;
        let ghost pred = resolves(store);
        let ids = self.ids;
        let scores = self.scores;
        let mut resolved: Vec<(u128, i64)> = Vec::new();
        assert(ids@.take(0).filter(pred) =~= Seq::<u128>::empty());
        assert(with_scores(Seq::<u128>::empty(), scores@) =~= Seq::<(u128, i64)>::empty());
        let mut i: usize = 0;
        while i < ids.len()
            invariant
                i <= ids.len(),
                store == storage@,
                pred == resolves(store),
                resolved@ == with_scores(ids@.take(i as int).filter(pred), scores@),
            decreases ids.len() - i,
        {
            let id: u128 = ids[i];
            proof {
                assert(ids@.take(i + 1) =~= ids@.take(i as int).push(id));
                ids@.take(i as int).lemma_filter_push(id, pred);
            }
            if storage.peek_memory(id).is_some() {
                let score: i64 = match scores.get(&id) {
                    Some(found) => *found,
                    None => 0,
                };
                proof {
                    let before = ids@.take(i as int).filter(pred);
                    assert(with_scores(before.push(id), scores@) =~= with_scores(
                        before,
                        scores@,
                    ).push((id, score)));
                }
                resolved.push((id, score));
            }
            i += 1;
        }
        assert(ids@.take(ids@.len() as int) =~= ids@);
        let mut order = rank(&resolved);
        if let Some(n) = limit {
            if order.len() > n {
                order.truncate(n);
            }
        }
        assert(order@ == ranking(self@, store, limit));
        proof {
            assert forall|k: int| 0 <= k < order@.len() implies store.memories.contains_key(
                #[trigger] order@[k].0,
            ) by {
                let hit = order@[k];
                assert(ranked(resolved@)[k] == hit);
                assert(ranked(resolved@).contains(hit));
                crate::index::ranking::lemma_ranked_same_hits(resolved@, hit);
                let kept = ids@.filter(pred);
                let at = choose|at: int| 0 <= at < resolved@.len() && resolved@[at] == hit;
                assert(hit.0 == kept[at]);
                ids@.lemma_filter_pred(pred, at);
            }
        }
        let mut result: Vec<Memory> = Vec::new();
        assert(crate::storage::memory_views(result@) =~= records(store, order@.take(0)));
        let mut k: usize = 0;
        while k < order.len()
            invariant
                k <= order.len(),
                store == storage@,
                forall|j: int| 0 <= j < order@.len() ==> store.memories.contains_key(
                    #[trigger] order@[j].0,
                ),
                result@.len() == k,
                crate::storage::memory_views(result@) == records(store, order@.take(k as int)),
            decreases order.len() - k,
        {
            let found = storage.get_memory(order[k].0);
            assert(store.memories.contains_key(order@[k as int].0));
            match found {
                Some(memory) => {
                    proof {
                        let before = crate::storage::memory_views(result@);
                        let after = crate::storage::memory_views(result@.push(memory));
                        let wanted = records(store, order@.take(k + 1));
                        assert(store.lookup(order@[k as int].0) == Some(memory@));
                        assert(after.len() == wanted.len());
                        assert forall|j: int| 0 <= j < after.len() implies after[j] == wanted[j] by {
                            if j < k {
                                assert(after[j] == before[j]);
                                assert(order@.take(k as int)[j] == order@.take(k + 1)[j]);
                                assert(before[j] == records(store, order@.take(k as int))[j]);
                            }
                        }
                        assert(after =~= wanted);
                    }
                    result.push(memory);
                },
                None => {
                    assert(false);
                },
            }
            k += 1;
        }
        assert(order@.take(order@.len() as int) =~= order@);
        result
    }
}

/// The query engine. It holds read-only references to the store and to
/// the vector index, and no state of its own.
pub struct QueryEngine<'a, V: VectorIndex> {
    storage: &'a StorageManager,
    vector_index: &'a V,
}

/// The hits of the fallback scan, see [`scan_hits`].
pub fn scan(storage: &StorageManager) -> (hits: Vec<(u128, i64)>)
    ensures
        hits@ == scan_hits(storage@),
{
    let all = storage.list_memories();
    let mut hits: Vec<(u128, i64)> = Vec::new();
    let mut i: usize = 0;
    while i < all.len()
        invariant
            i <= all.len(),
            all@.len() == storage@.memory_ids().len(),
            forall|j: int| 0 <= j < all@.len() ==> (#[trigger] all@[j]).id == storage@.memory_ids()[j],
            hits@.len() == i,
            forall|j: int| 0 <= j < i ==> hits@[j] == (storage@.memory_ids()[j], UNIT),
        decreases all.len() - i,
    {
        hits.push((all[i].id, UNIT));
        i += 1;
    }
    assert(hits@ =~= scan_hits(storage@));
    hits
}

/// The stages after seeding: filter, expand, rank and bound, from the hits
/// that seed the candidates.
pub fn respond(
    storage: &StorageManager,
    seeds: &Vec<(u128, i64)>,
    filter: &Option<Filter>,
    direction: Option<Direction>,
    limit: Option<usize>,
) -> (result: Vec<Memory>)
    ensures
        crate::storage::memory_views(result@) == response(
            storage@,
            seeds@,
            *filter,
            direction,
            limit,
        ),
        limit matches Some(n) ==> result@.len() <= n,
{
    let mut candidates = CandidateSet::seeded(seeds);
    if let Some(f) = filter {
        let id = f.id_criterion();
        let kind = f.type_criterion();
        candidates = candidates.retain_matching(storage, &id, &kind);
    }
    if let Some(d) = direction {
        candidates = candidates.expand(storage, d);
    }
    candidates.into_ranked(storage, limit)
}

/// The views of the records of a result.
pub open spec fn result_view(result: Result<Vec<Memory>, QueryError>) -> Result<
    Seq<MemoryView>,
    QueryError,
> {
    match result {
        Ok(memories) => Ok(crate::storage::memory_views(memories@)),
        Err(error) => Err(error),
    }
}

impl<'a, V: VectorIndex> QueryEngine<'a, V> {
    /// The store that the engine reads.
    pub closed spec fn store(&self) -> StorageView {
        self.storage@
    }

    /// The vector index that the engine asks.
    pub closed spec fn index(&self) -> &V {
        self.vector_index
    }

    /// An engine over `storage` and `vector_index`.
    pub fn new(storage: &'a StorageManager, vector_index: &'a V) -> (engine: Self)
        ensures
            engine.store() == storage@,
            engine.index() == vector_index,
    {
        QueryEngine { storage, vector_index }
    }

    /// Whether a record meets the criteria of a filter: an `id` criterion
    /// asks for that very id, a `memory_type` criterion for a variant of
    /// that name. Only a criterion that is absent asks for nothing: one that
    /// is no string, or (for `id`) does not read as a UUID, is met by no
    /// record.
    pub fn matches_filter(&self, memory: &Memory, filter: &Filter) -> (yes: bool)
        ensures
            yes == meets(memory@, filter.wanted_id(), filter.wanted_type()),
    {
        let id = filter.id_criterion();
        let kind = filter.type_criterion();
        matches_criteria(memory, &id, &kind)
    }

    /// Runs one query through the four stages and returns the ranked
    /// records, see [`outcome`]. Either the whole result is returned or an
    /// error: there are no partial results.
    pub fn execute(&self, query: Query) -> (result: Result<Vec<Memory>, QueryError>)
        ensures
            result_view(result) == outcome(query, self.store(), self.index()),
            result matches Ok(memories) ==> (query.limit matches Some(n) ==> memories@.len() <= n),
    {
        let direction = match &query.traverse {
            Some(traverse) => match Direction::parse(traverse.direction.as_str()) {
                Some(direction) => Some(direction),
                None => {
                    return Err(QueryError::InvalidDirection);
                },
            },
            None => None,
        };
        let embedding = match &query.search {
            Some(search) => match &search.vector.embedding {
                Some(embedding) => Some(embedding),
                None => None,
            },
            None => None,
        };
        let seeds = match embedding {
            Some(vector) => {
                let count: usize = match query.limit {
                    Some(n) => n,
                    None => 10,
                };
                match self.vector_index.search(vector.as_slice(), count) {
                    Ok(hits) => hits,
                    Err(error) => {
                        return Err(QueryError::Index(error));
                    },
                }
            },
            None => scan(self.storage),
        };
        Ok(respond(self.storage, &seeds, &query.filter, direction, query.limit))
    }
}

/// The ids of a list of hits, in order.
pub open spec fn hit_ids(hits: Seq<(u128, i64)>) -> Seq<u128> {
    hits.map_values(|hit: (u128, i64)| hit.0)
}

/// Hits with pairwise different ids seed exactly those ids, in the order
/// of the hits, each with the score of its hit.
pub proof fn lemma_seeded_distinct(hits: Seq<(u128, i64)>)
    requires
        forall|i: int, j: int| 0 <= i < j < hits.len() ==> hits[i].0 != hits[j].0,
    ensures
        seeded(hits).ids == hit_ids(hits),
        seeded(hits).scores.dom() == hit_ids(hits).to_set(),
        forall|i: int| 0 <= i < hits.len() ==> seeded(hits).scores[hits[i].0] == hits[i].1,
    decreases hits.len(),
{
    if hits.len() == 0 {
        assert(seeded(hits).ids =~= hit_ids(hits));
        assert(seeded(hits).scores.dom() =~= hit_ids(hits).to_set());
    } else {
        let init = hits.drop_last();
        let last = hits.last();
        lemma_seeded_distinct(init);
        assert(!hit_ids(init).contains(last.0)) by {
            if hit_ids(init).contains(last.0) {
                let i = choose|i: int| 0 <= i < hit_ids(init).len() && hit_ids(init)[i] == last.0;
                assert(hits[i].0 == hits[hits.len() - 1].0);
            }
        }
        assert(hit_ids(hits) =~= hit_ids(init).push(last.0));
        lemma_push_to_set(hit_ids(init), last.0);
        assert(seeded(hits).scores.dom() =~= hit_ids(hits).to_set());
        assert forall|i: int| 0 <= i < hits.len() implies seeded(hits).scores[hits[i].0]
            == hits[i].1 by {
            if i < init.len() {
                assert(init[i] == hits[i]);
                assert(hits[i].0 != hits[hits.len() - 1].0);
            }
        }
    }
}

/// Fallback: the scan that seeds a query without an embedding makes every
/// stored memory a candidate, in ascending order of id, each with the score
/// of one whole, and nothing else.
pub proof fn lemma_scan_seeds_every_memory(store: StorageView)
    requires
        store.valid(),
    ensures
        seeded(scan_hits(store)).ids == store.memory_ids(),
        forall|id: u128| seeded(scan_hits(store)).ids.contains(id) <==> store.memories.contains_key(id),
        seeded(scan_hits(store)).scores.dom() == store.memories.dom(),
        forall|id: u128|
            store.memories.contains_key(id) ==> seeded(scan_hits(store)).scores[id] == UNIT,
{
    store.lemma_scan_lists_all();
    let ids = store.memory_ids();
    let hits = scan_hits(store);
    assert(hit_ids(hits) =~= ids);
    lemma_seeded_distinct(hits);
    assert(ids.to_set() =~= store.memories.dom());
    assert forall|id: u128| store.memories.contains_key(id) implies seeded(hits).scores[id]
        == UNIT by {
        assert(ids.contains(id));
        let i = choose|i: int| 0 <= i < ids.len() && ids[i] == id;
        assert(hits[i] == (id, UNIT));
    }
}

/// Reaching neighbours never changes a score that is assigned already, and
/// never removes a candidate.
pub proof fn lemma_reach_all_keeps(candidates: Candidates, parent: u128, found: Seq<u128>, id: u128)
    ensures
        candidates.scores.contains_key(id) ==> {
            &&& candidates.reach_all(parent, found).scores.contains_key(id)
            &&& candidates.reach_all(parent, found).scores[id] == candidates.scores[id]
        },
        candidates.ids.contains(id) ==> candidates.reach_all(parent, found).ids.contains(id),
    decreases found.len(),
{
    if found.len() > 0 {
        lemma_reach_all_keeps(candidates, parent, found.drop_last(), id);
        let before = candidates.reach_all(parent, found.drop_last());
        if before.ids.contains(id) {
            let i = choose|i: int| 0 <= i < before.ids.len() && before.ids[i] == id;
            assert(before.ids.push(found.last())[i] == id);
        }
    }
}

/// The traversal never changes a score that is assigned already, and never
/// removes a candidate.
pub proof fn lemma_expansion_keeps(
    candidates: Candidates,
    store: StorageView,
    direction: Direction,
    parents: Seq<u128>,
    id: u128,
)
    ensures
        candidates.scores.contains_key(id) ==> {
            &&& expanded_from(candidates, store, direction, parents).scores.contains_key(id)
            &&& expanded_from(candidates, store, direction, parents).scores[id]
                == candidates.scores[id]
        },
        candidates.ids.contains(id) ==> expanded_from(
            candidates,
            store,
            direction,
            parents,
        ).ids.contains(id),
    decreases parents.len(),
{
    if parents.len() > 0 {
        lemma_expansion_keeps(candidates, store, direction, parents.drop_last(), id);
        lemma_reach_all_keeps(
            expanded_from(candidates, store, direction, parents.drop_last()),
            parents.last(),
            neighbours(store, direction, parents.last()),
            id,
        );
    }
}

/// A node that is not among those reached gets no score.
pub proof fn lemma_reach_all_skips(candidates: Candidates, parent: u128, found: Seq<u128>, id: u128)
    requires
        !candidates.scores.contains_key(id),
        !found.contains(id),
    ensures
        !candidates.reach_all(parent, found).scores.contains_key(id),
    decreases found.len(),
{
    if found.len() > 0 {
        assert forall|i: int| 0 <= i < found.drop_last().len() implies found.drop_last()[i]
            != id by {
            assert(found[i] != id);
        }
        lemma_reach_all_skips(candidates, parent, found.drop_last(), id);
        assert(found[found.len() - 1] != id);
    }
}

/// A node that is no neighbour of any of the parents gets no score.
pub proof fn lemma_expansion_skips(
    candidates: Candidates,
    store: StorageView,
    direction: Direction,
    parents: Seq<u128>,
    id: u128,
)
    requires
        !candidates.scores.contains_key(id),
        forall|i: int| 0 <= i < parents.len() ==> !neighbours(store, direction, parents[i]).contains(id),
    ensures
        !expanded_from(candidates, store, direction, parents).scores.contains_key(id),
    decreases parents.len(),
{
    if parents.len() > 0 {
        assert forall|i: int| 0 <= i < parents.drop_last().len() implies !neighbours(
            store,
            direction,
            parents.drop_last()[i],
        ).contains(id) by {
            assert(parents.drop_last()[i] == parents[i]);
        }
        lemma_expansion_skips(candidates, store, direction, parents.drop_last(), id);
        assert(parents.last() == parents[parents.len() - 1]);
        lemma_reach_all_skips(
            expanded_from(candidates, store, direction, parents.drop_last()),
            parents.last(),
            neighbours(store, direction, parents.last()),
            id,
        );
    }
}

/// A node without a score that is among those reached from a parent with
/// a score becomes a candidate with half of that score.
pub proof fn lemma_reach_all_halves(
    candidates: Candidates,
    parent: u128,
    found: Seq<u128>,
    neighbour: u128,
)
    requires
        candidates.scores.contains_key(parent),
        !candidates.scores.contains_key(neighbour),
        found.contains(neighbour),
    ensures
        candidates.reach_all(parent, found).scores.contains_key(neighbour),
        candidates.reach_all(parent, found).scores[neighbour] == half(candidates.scores[parent]),
        candidates.reach_all(parent, found).ids.contains(neighbour),
    decreases found.len(),
{
    let init = found.drop_last();
    let before = candidates.reach_all(parent, init);
    if init.contains(neighbour) {
        lemma_reach_all_halves(candidates, parent, init, neighbour);
        let i = choose|i: int| 0 <= i < before.ids.len() && before.ids[i] == neighbour;
        assert(before.ids.push(found.last())[i] == neighbour);
    } else {
        let i = choose|i: int| 0 <= i < found.len() && found[i] == neighbour;
        if i < init.len() {
            assert(init[i] == neighbour);
        }
        assert(found.last() == neighbour);
        lemma_reach_all_skips(candidates, parent, init, neighbour);
        lemma_reach_all_keeps(candidates, parent, init, parent);
        if !before.ids.contains(neighbour) {
            assert(before.ids.push(neighbour)[before.ids.len() as int] == neighbour);
        }
    }
}

/// Score decay: a node that has no score yet and is first reached, in the
/// order of the traversal, from the candidate at position `first`, whose
/// score is `s`, becomes a candidate with the score `half(s)`; what is
/// reached later does not change it.
pub proof fn lemma_first_discovery_halves(
    candidates: Candidates,
    store: StorageView,
    direction: Direction,
    first: int,
    neighbour: u128,
)
    requires
        0 <= first < candidates.ids.len(),
        candidates.scores.contains_key(candidates.ids[first]),
        !candidates.scores.contains_key(neighbour),
        neighbours(store, direction, candidates.ids[first]).contains(neighbour),
        forall|earlier: int|
            0 <= earlier < first ==> !neighbours(
                store,
                direction,
                candidates.ids[earlier],
            ).contains(neighbour),
    ensures
        expanded(candidates, store, direction).ids.contains(neighbour),
        expanded(candidates, store, direction).scores.contains_key(neighbour),
        expanded(candidates, store, direction).scores[neighbour] == half(
            candidates.scores[candidates.ids[first]],
        ),
{
    lemma_discovery_among(candidates, store, direction, candidates.ids, first, neighbour);
}

/// The same for a traversal from any list of parents.
pub proof fn lemma_discovery_among(
    candidates: Candidates,
    store: StorageView,
    direction: Direction,
    parents: Seq<u128>,
    first: int,
    neighbour: u128,
)
    requires
        0 <= first < parents.len(),
        candidates.scores.contains_key(parents[first]),
        !candidates.scores.contains_key(neighbour),
        neighbours(store, direction, parents[first]).contains(neighbour),
        forall|earlier: int|
            0 <= earlier < first ==> !neighbours(store, direction, parents[earlier]).contains(
                neighbour,
            ),
    ensures
        expanded_from(candidates, store, direction, parents).ids.contains(neighbour),
        expanded_from(candidates, store, direction, parents).scores.contains_key(neighbour),
        expanded_from(candidates, store, direction, parents).scores[neighbour] == half(
            candidates.scores[parents[first]],
        ),
    decreases parents.len(),
{
    let init = parents.drop_last();
    let before = expanded_from(candidates, store, direction, init);
    let found = neighbours(store, direction, parents.last());
    if first < init.len() {
        assert(init[first] == parents[first]);
        assert forall|earlier: int| 0 <= earlier < first implies !neighbours(
            store,
            direction,
            init[earlier],
        ).contains(neighbour) by {
            assert(init[earlier] == parents[earlier]);
        }
        lemma_discovery_among(candidates, store, direction, init, first, neighbour);
        lemma_reach_all_keeps(before, parents.last(), found, neighbour);
    } else {
        assert(parents.last() == parents[first]);
        assert forall|i: int| 0 <= i < init.len() implies !neighbours(
            store,
            direction,
            init[i],
        ).contains(neighbour) by {
            assert(init[i] == parents[i]);
        }
        lemma_expansion_skips(candidates, store, direction, init, neighbour);
        lemma_expansion_keeps(candidates, store, direction, init, parents.last());
        lemma_reach_all_halves(before, parents.last(), found, neighbour);
    }
}

/// Reaching neighbours leaves exactly the candidates with a score.
pub proof fn lemma_reach_all_consistent(candidates: Candidates, parent: u128, found: Seq<u128>)
    requires
        candidates.consistent(),
    ensures
        candidates.reach_all(parent, found).consistent(),
    decreases found.len(),
{
    if found.len() > 0 {
        lemma_reach_all_consistent(candidates, parent, found.drop_last());
        let before = candidates.reach_all(parent, found.drop_last());
        lemma_push_to_set(before.ids, found.last());
        if !before.ids.contains(found.last()) {
            lemma_push_distinct(before.ids, found.last());
        }
        assert(before.reach(parent, found.last()).scores.dom() =~= before.reach(
            parent,
            found.last(),
        ).ids.to_set());
    }
}

/// The traversal leaves exactly the candidates with a score.
pub proof fn lemma_expansion_consistent(
    candidates: Candidates,
    store: StorageView,
    direction: Direction,
    parents: Seq<u128>,
)
    requires
        candidates.consistent(),
    ensures
        expanded_from(candidates, store, direction, parents).consistent(),
    decreases parents.len(),
{
    if parents.len() > 0 {
        lemma_expansion_consistent(candidates, store, direction, parents.drop_last());
        lemma_reach_all_consistent(
            expanded_from(candidates, store, direction, parents.drop_last()),
            parents.last(),
            neighbours(store, direction, parents.last()),
        );
    }
}

/// Seeding leaves exactly the candidates with a score.
pub proof fn lemma_seeded_consistent(hits: Seq<(u128, i64)>)
    ensures
        seeded(hits).consistent(),
    decreases hits.len(),
{
    if hits.len() == 0 {
        assert(seeded(hits).scores.dom() =~= seeded(hits).ids.to_set());
    } else {
        lemma_seeded_consistent(hits.drop_last());
        let before = seeded(hits.drop_last());
        lemma_push_to_set(before.ids, hits.last().0);
        if !before.ids.contains(hits.last().0) {
            lemma_push_distinct(before.ids, hits.last().0);
        }
        assert(before.seed(hits.last()).scores.dom() =~= before.seed(hits.last()).ids.to_set());
    }
}

/// After the first three stages of a query, whatever its seeds, filter and
/// direction, no candidate is listed twice and exactly the candidates have
/// a score: no result is ranked by a default.
pub proof fn lemma_gathered_consistent(
    store: StorageView,
    seeds: Seq<(u128, i64)>,
    filter: Option<Filter>,
    direction: Option<Direction>,
)
    ensures
        gathered(store, seeds, filter, direction).consistent(),
{
    lemma_seeded_consistent(seeds);
    let kept = match filter {
        Some(f) => filtered(seeded(seeds), store, f.wanted_id(), f.wanted_type()),
        None => seeded(seeds),
    };
    if let Some(f) = filter {
        let pred = survives(store, f.wanted_id(), f.wanted_type());
        assert forall|id: u128| kept.ids.to_set().contains(id) implies seeded(
            seeds,
        ).scores.dom().contains(id) by {
            seeded(seeds).ids.lemma_filter_contains_rev(pred, id);
        }
        assert(kept.scores.dom() =~= kept.ids.to_set());
        lemma_filter_distinct(seeded(seeds).ids, pred);
    }
    if let Some(d) = direction {
        lemma_expansion_consistent(kept, store, d, kept.ids);
    }
}

/// Whatever a query returns out of a valid store, it returns no memory
/// twice, and every memory under the id by which it was found.
pub proof fn lemma_response_lists_each_memory_once(
    store: StorageView,
    seeds: Seq<(u128, i64)>,
    filter: Option<Filter>,
    direction: Option<Direction>,
    limit: Option<usize>,
)
    requires
        store.valid(),
    ensures
        forall|i: int, j: int|
            0 <= i < j < response(store, seeds, filter, direction, limit).len() ==> response(
                store,
                seeds,
                filter,
                direction,
                limit,
            )[i].id != response(store, seeds, filter, direction, limit)[j].id,
{
    let candidates = gathered(store, seeds, filter, direction);
    lemma_gathered_consistent(store, seeds, filter, direction);
    let pred = resolves(store);
    let found = candidates.ids.filter(pred);
    lemma_filter_distinct(candidates.ids, pred);
    let hits = with_scores(found, candidates.scores);
    assert(crate::index::ranking::distinct_ids(hits)) by {
        assert forall|i: int, j: int| 0 <= i < j < hits.len() implies hits[i].0 != hits[j].0 by {
            assert(found[i] != found[j]);
        }
    }
    crate::index::ranking::lemma_ranked_distinct(hits);
    crate::index::ranking::lemma_ranked_len(hits);
    let all = ranked(hits);
    let order = ranking(candidates, store, limit);
    let result = response(store, seeds, filter, direction, limit);
    assert forall|i: int| 0 <= i < order.len() implies order[i] == all[i] && store.memories.contains_key(
        (#[trigger] order[i]).0,
    ) by {
        assert(all.contains(all[i]));
        crate::index::ranking::lemma_ranked_same_hits(hits, all[i]);
        let at = choose|at: int| 0 <= at < hits.len() && hits[at] == all[i];
        assert(hits[at].0 == found[at]);
        candidates.ids.lemma_filter_pred(pred, at);
    }
    assert forall|i: int, j: int| 0 <= i < j < result.len() implies result[i].id
        != result[j].id by {
        assert(result[i] == store.memories[order[i].0]);
        assert(result[j] == store.memories[order[j].0]);
        assert(all[i].0 != all[j].0);
    }
}

/// Limit enforcement: a result is never longer than the limit of its
/// query.
pub proof fn lemma_limit_bounds_response(
    store: StorageView,
    seeds: Seq<(u128, i64)>,
    filter: Option<Filter>,
    direction: Option<Direction>,
    limit: usize,
)
    ensures
        response(store, seeds, filter, direction, Some(limit)).len() <= limit,
{
}

} // verus!

//! A hybrid memory store for agents: typed memory records with embeddings,
//! a directed weighted graph between them, a nearest-neighbour index and a
//! query engine that fuses similarity search, filtering and one-hop graph
//! expansion into a ranked, bounded result list.
//!
//! Every number that is a fraction in the domain (scores, weights,
//! embedding components, confidences) is held as a fixed-point integer in
//! millionths, see [`models::UNIT`].
pub mod index;
pub mod models;
pub mod query;
pub mod storage;

//! Discovery of short simple cycles in an undirected graph of pairwise relations.
//!
//! A [`graph::Graph`] is built once from a feed of identifier pairs. The
//! enumerator in [`search`] then walks it depth-first with resumable neighbor
//! cursors and records, in a shared [`cycles::CycleSet`], the sorted node set
//! of every closed path of exactly the requested length that the walk meets.
//! [`run`] repeats this for a list of lengths. [`feed`] decodes the feed of
//! pairs from the symbol listing of an exchange.

pub mod cursor;
pub mod cycles;
pub mod feed;
pub mod graph;
pub mod order;
pub mod run;
pub mod search;

//! Retained heap sizes of the objects and threads of a heap snapshot.
//!
//! A snapshot is a graph of objects, each with a size, the addresses it refers to and the
//! addresses that refer to it, together with the root sets of the threads. The retained size
//! of an object or of a thread is the number of bytes that are released once it is removed,
//! found by counting down the live references into each address.
//!
//! - `graph`: the objects, the threads and their mathematical model.
//! - `removal`: what a removal releases, as a definition.
//! - `subtree`: the strict subtrees and the search that finds them.
//! - `worklist`: the engine that computes a removal by passes over a frontier.
//! - `calculator`: the calculator with one removal per object and per thread.
//! - `laws`: what holds of the retained sizes of every snapshot.
//! - `ownership`: why the size of a subtree root may stand for its whole subtree.
//! - `parse`, `text`: the text form of a snapshot.
//! - `hashing`, `sums`: the hash collections and sums over sets.
pub mod calculator;
pub mod graph;
pub mod hashing;
pub mod laws;
pub mod ownership;
pub mod parse;
pub mod removal;
pub mod subtree;
pub mod sums;
pub mod text;
pub mod worklist;

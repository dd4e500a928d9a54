//! Block metadata assembly for a BFT validator node: collecting validators'
//! votes, building the metadata record of a committed block, its canonical
//! encoding for the execution layer, and the key-store commands.
pub mod account;
pub mod block_metadata;
pub mod text;
pub mod types;
pub mod validators;
pub mod vote_map;
pub mod vote_store;

//! Tag-pair counting for proximity-ligation reads, and bait–prey edge
//! aggregation over a reference alignment.
pub mod codec;
pub mod extract;
pub mod tally;
pub mod text;
pub mod sam;
pub mod edges;
pub mod pipeline;

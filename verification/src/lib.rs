//! A verified warehouse-allocation core with its surrounding catalog types.
//!
//! The heart of the crate is [`warehouse`]: a three-level grid (rows, columns,
//! zones) that places batches of identical items into contiguous runs of
//! zones, defragments scattered placements, and evicts items by expiration
//! priority. Around it stand the product catalog ([`product`]), a media
//! lending catalog ([`catalog`]), and a few small verified utilities.

pub mod arrays;
pub mod catalog;
pub mod date;
pub mod product;
pub mod seqtools;
pub mod text;
pub mod warehouse;

//! An ordered key-value index built as a B+Tree over 64-bit keys, with the
//! fixed-size page framing and little-endian byte codec that its on-disk
//! format is written with.
pub mod b_tree;
pub mod byte_encoder;
pub mod column;
pub mod paging;

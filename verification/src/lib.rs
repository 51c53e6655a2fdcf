//! Verified core of a sprite-atlas repacker.
//!
//! An atlas is one source image plus a descriptor locating named sprite
//! regions inside it. This library parses descriptor elements into sprite
//! records, deduplicates identical pixel regions, checks that the regions
//! can be packed back into a bin with a maximal-rectangles heuristic, and
//! reconstructs each sprite's full (possibly trimmed) canvas pixel by pixel.
//! File discovery, image decoding and file writing live outside the library;
//! it works on plain values and hands plain values back.
pub mod compose;
pub mod config;
pub mod dedup;
pub mod extract;
pub mod naming;
pub mod numparse;
pub mod packer;
pub mod parse;
pub mod pipeline;
pub mod records;
pub mod xml;

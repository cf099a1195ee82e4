//! Reads a document of coordinate pairs and prepares it for a great-circle
//! distance benchmark: a verified JSON parser, the extraction of the pairs
//! under the `{"pairs": [...]}` schema, the decoding of a reference stream of
//! little-endian doubles, and the bookkeeping of a cycle-counter profiler.
pub mod canonical;
pub mod json;
pub mod pairs;
pub mod reference;
pub mod timing;

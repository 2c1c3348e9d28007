//! Decoder for a proprietary game-asset container and its paletted images.
//!
//! The `rez` module parses the container: a fixed header followed by a
//! recursive directory table whose entries are either subdirectories or
//! files, each a view (an index range) into the caller's byte buffer.
//! The `pid` module decodes the embedded image payload: a fixed header,
//! a flag word, two alternative run-length pixel encodings, and an
//! optional 256-entry RGB palette.

pub mod bytes;
pub mod error;
pub mod pid;
pub mod rez;

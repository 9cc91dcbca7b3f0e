//! Verified core of a tile-graphics patching tool.
//!
//! The library has two parts: a codec for fixed 32-byte planar tiles
//! ([`tile`]) and a parser/expander for the line-oriented edit-script format
//! ([`script`]). All file and image I/O lives outside the library; the
//! functions here work on plain byte buffers and pixel grids.

pub mod script;
pub mod tile;

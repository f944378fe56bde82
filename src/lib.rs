//! Reading and writing the asset archives of a handheld game: the
//! LZ77/run-length codec its data files use, and the small record types
//! built on top of it.

pub mod compression;
pub mod consts;
pub mod laws;
pub mod map;
pub mod misc;
pub mod utils;

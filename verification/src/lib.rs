//! Codec for the MLOD/P3DM model container: little-endian records, null-terminated
//! strings, an ordered tag table closed by a sentinel, and a standalone
//! compressed-integer utility. Every function states its result over a
//! mathematical model of the byte layout, and the laws that tie reading to
//! writing are proved in `layout` and `taggs`.
//!
//! Beside the codec stand the rules of the sign maker that uses it: which
//! towns a key-point description names (`towns`), and how folders, files,
//! texture paths and the configuration are named (`signs`).
pub mod error;
pub mod io;
pub mod layout;
pub mod le;
pub mod p3d;
pub mod record;
pub mod signs;
pub mod taggs;
pub mod text;
pub mod towns;

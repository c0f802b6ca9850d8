//! Case-insensitive path resolution.
//!
//! The crate decomposes raw path-component byte strings into streams of
//! decoded Unicode scalar values interleaved with undecodable raw bytes,
//! case-folds the decoded values, and builds a total order, equality and
//! hash over whole paths from those folded streams.  On top of that it
//! offers a purely textual normalizer that collapses parent-directory
//! markers, and a breadth-expanding resolver that finds every on-disk
//! entry matching a requested path up to letter case.

pub mod path;
pub mod resolve;
pub mod serve;
pub mod units;

pub use path::resolve_parents;
pub use path::Component;
pub use path::InsensitivePath;
pub use units::compare_osstr_case_insensitive;
pub use units::osstr_chars;
pub use units::osstr_chars_lowercased;
pub use units::CharOrByte;

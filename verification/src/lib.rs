//! Segment a stream of text lines into blocks.
//!
//! A block is a maximal run of lines separated by at least a configurable
//! number (the *tolerance*) of blank lines; lines matching a configured
//! comment prefix may count as blank for the purpose of separation.
//! The crate offers a line classifier, a segmenter that walks the lines of a
//! text and yields one block at a time, an independent block counter, and
//! helpers that trim blank lines from a block's text.

pub mod classify;
pub mod count;
pub mod lines;
pub mod segment;
pub mod trim;

pub use classify::is_blank;
pub use classify::is_comment;
pub use count::blank_lines;
pub use count::count_blocks;
pub use lines::split_lines;
pub use segment::Blocks;
pub use trim::clean;
pub use trim::clean_all_blank;
pub use trim::remove_blank_at_beginning;
pub use trim::remove_blank_at_end;

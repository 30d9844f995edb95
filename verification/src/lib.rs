//! Discovery of frequent contiguous character groups ("n-grams") in a text
//! corpus, and frequency-greedy induction of likely multi-character words
//! from those groups.
//!
//! The corpus is a sequence of lines, each a sequence of characters.  A first
//! pass slides a width-`n` window over every line and tallies each completed
//! window; a threshold filter prunes rare groups; a second pass slides a
//! width-`2n-1` window and, for each completed window, tallies the most
//! frequent length-`n` candidate inside it; the final table is ranked by
//! descending count and rendered as tab-separated lines.

pub mod accept;
pub mod counter;
pub mod laws;
pub mod rank;
pub mod scan;
pub mod settings;
pub mod table;

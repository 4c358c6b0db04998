//! Word boxes: square grids of letters in which every row and every column
//! spells a word of a dictionary, found by backtracking over a prefix index.

pub mod filter;
pub mod laws;
pub mod lexicon;
pub mod search;
pub mod word_box;
pub mod words;

//! Ranks the words of one or more dictionaries by their edit distance to a
//! reference word, and loads those dictionaries from their on-disk format.
pub mod comparison;
pub mod selector;
pub mod word_list;
pub mod request;

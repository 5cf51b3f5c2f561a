//! Fills an n-dimensional grid with words so that every run of cells along
//! every axis is a phrase attested in a corpus, and no two cells of the same
//! distance shell hold the same word.

pub mod cell_order;
pub mod corpus;
pub mod dictionary;
pub mod digest;
pub mod fill_sort;
pub mod grid;
pub mod phrase_set;
pub mod rule;
pub mod search;
pub mod solve;
pub mod string_handlers;
pub mod text;
pub mod vocabulary;
pub mod word_set;

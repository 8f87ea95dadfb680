//! The solver: a null window search with a transposition table, driven by a binary search on the score.
pub mod exact_score;
pub mod mtd;
pub mod null_window_search;
pub mod transposition_table;

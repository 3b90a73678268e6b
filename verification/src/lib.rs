pub mod accounting;
pub mod bits;
pub mod board;
pub mod cascade;
pub mod coin_drop;
pub mod coin_list;
pub mod constants;
pub mod evaluation;
pub mod hash_table;
pub mod helper;
pub mod solver;

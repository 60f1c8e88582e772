pub mod case_index;
pub mod collection;
pub mod executor;
pub mod global;
pub mod group;
pub mod helpers;
pub mod printer;
pub mod record;
pub mod reorder;
pub mod solver;
pub mod text;
pub mod tokens;

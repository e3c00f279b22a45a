pub mod calculus;
pub mod compiler;
pub mod fast_tree;
mod hash_table;
pub mod lexer;
pub mod old_tree;
pub mod optimizations;
pub mod parser;
pub mod render;
pub mod text;

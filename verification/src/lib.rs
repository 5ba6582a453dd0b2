pub mod classes;
pub mod combos;
pub mod config;
pub mod engine;
pub mod enumerate;
pub mod hashing;
pub mod locate;
pub mod pipeline;
pub mod selector;
mod seq_lemmas;
pub mod text;

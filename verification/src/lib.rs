pub mod arena;
pub mod config;
pub mod engine;
pub mod store;
pub mod tree;

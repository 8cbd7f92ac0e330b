//! A small expression language whose programs live in files that call each
//! other, evaluated with verified semantics, plus the caches that make every
//! file be read at most once.

pub mod ast;
pub mod cache;
pub mod common;
pub mod engine;
pub mod exec;
pub mod file;
pub mod finish;

//! Turns an introspected API schema into generated Rust client source text.
pub mod schema;
pub mod naming;
pub mod handlers;
pub mod tokens;
pub mod render;
pub mod codegen;

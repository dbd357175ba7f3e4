pub mod tokens;
pub mod ast;

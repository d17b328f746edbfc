pub mod token;
pub mod ast;

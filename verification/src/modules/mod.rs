pub mod lexical;
pub mod syntactic;

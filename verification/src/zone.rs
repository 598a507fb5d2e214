pub mod error;
pub mod parser;
pub mod scanner;
pub mod token;

pub mod manager;
pub mod parser;
pub mod text;

pub mod text;
pub mod paths;
pub mod lexer;
pub mod parser;
pub mod def;
pub mod conf;
pub mod writer;
pub mod walk;
pub mod excerpt;

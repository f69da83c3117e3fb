pub mod commands;
pub mod lambda;
pub mod lexer;
pub mod parser;
pub mod round_trip;
pub mod runtime;
pub mod text;

//! A minimal interactive command interpreter core: a lexer that splits an
//! input line into statements, recognizes quoted literal spans and escaped
//! separators, builds validated commands, and a planner that decides which
//! commands to run and whether the session should end.

pub mod executor;
pub mod laws;
pub mod lexer;
pub mod model;
pub mod parser;

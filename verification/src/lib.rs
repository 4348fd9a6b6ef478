//! A small POSIX-style shell core: lexing, parsing, variable expansion,
//! built-in command logic, completion bookkeeping and the HTTP API helpers.
pub mod text;
pub mod strmap;
pub mod token;
pub mod lexer;
pub mod ast;
pub mod parser;
pub mod shell_context;
pub mod engine;
pub mod completion_registry;
pub mod server;
pub mod registry;
pub mod execution;
pub mod builtins;
pub mod autocomplete;
pub mod external;
pub mod cli;

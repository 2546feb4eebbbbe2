//! Front end of a POSIX-family command language interpreter: source
//! locations, the operator trie, the character lexer, the parser core with
//! its alias retry protocol and here-document queues, the attributed
//! character model of word expansion, and pathname expansion; besides them,
//! the tokenizer of arithmetic expressions, job lookup for the targets of
//! `kill`, the runtime execution context stack and the internal `SIGCHLD`
//! handler settings.

pub mod source;
pub mod text;
pub mod op;
pub mod parser;
pub mod lex;
pub mod expansion;
pub mod glob;
pub mod arith;
pub mod job;
pub mod kill;
pub mod stack;
pub mod trap;

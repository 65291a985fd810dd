//! Yoakke language-tooling building blocks: interval algebra, a regular
//! expression parser, finite automata, an incremental lexer core and the
//! result types of a packrat parser.

pub mod endpoint;
pub mod bound;
pub mod interval;
pub mod interval_set;
pub mod interval_map;
pub mod regex_ast;
pub mod regex_parser;
pub mod regex_lang;
pub mod nfa;
pub mod dfa;
pub mod parse_result;
pub mod position;
pub mod token;
pub mod lexer;
pub mod drec;
pub mod bnf;
pub mod irec;
pub mod matcher;
pub mod char_bounds;
pub mod format;
pub mod console;
pub mod rnd;
pub mod str_gen;
pub mod fuzz_gen;
pub mod token_defs;
pub mod dfa_lexer;
pub mod relex;
pub mod call_stack;

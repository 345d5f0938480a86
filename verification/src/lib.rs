//! A small expression language: lexer, parser, static type checker, bytecode
//! compiler, bytecode file format and virtual machine.
pub mod assoc;
pub mod ast;
pub mod code;
pub mod compiler;
pub mod error_reporter;
pub mod lexer;
pub mod object;
pub mod parser;
pub mod record_map;
pub mod serializer;
pub mod stdlib;
pub mod symbol_table;
pub mod text;
pub mod type_checker;
pub mod vm;

//! A small markup language: escape-aware scanning, bracket containerization,
//! command-call parsing, an HTML backend, and a template substitution engine.

mod text;
pub mod scan;
pub mod container;
pub mod split;
pub mod ast;
pub mod command;
pub mod parser;
pub mod preprocess;
pub mod template;
pub mod shell;
pub mod engine;
pub mod backend;
pub mod html;

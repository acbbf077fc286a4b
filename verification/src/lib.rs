//! PDFLang: the language front end (lexer, parser, formatter, linter) and the
//! text, report, comparison, package and command-line rules of the `pdfl`
//! validator, verified.

pub mod text;
pub mod lexer;
pub mod fmt;
pub mod report;
pub mod ast;
pub mod parser;
pub mod progress;
pub mod pixelcmp;
pub mod escape;
pub mod textns;
pub mod codesns;
pub mod datans;
pub mod structns;
pub mod watch;
pub mod testcmd;
pub mod cli;
pub mod doccmd;
pub mod lint;
pub mod viewer;
pub mod fixns;
pub mod visualns;
pub mod json;
pub mod compare;
pub mod linediff;
pub mod package;
pub mod inspect;


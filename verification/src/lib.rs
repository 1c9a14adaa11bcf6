//! A verified reader for the Spine configuration format: a lexer, a parser
//! with error accumulation, a value API, a JSON rendering and a Spine writer.
#![allow(unused_imports)]

use vstd::prelude::*;

pub mod text;
pub mod token;
pub mod number;
pub mod lexer;
pub mod value;
pub mod parser;
pub mod json;
pub mod writer;
pub mod document;
pub mod serial;
pub mod laws;

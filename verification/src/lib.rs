//! Small programs from a programming-languages course, with contracts proved by Verus.
pub mod text;
pub mod token;
pub mod lexer;
pub mod parser;
pub mod ordered_map;
pub mod interpreter;
pub mod notation;
pub mod widget;
pub mod roundtrip;
pub mod point;
pub mod event;
pub mod grammar;

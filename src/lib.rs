//! An evaluating front end for a small arithmetic language: a scanner
//! (`tokenizer`), the variables of a program (`symbols`), and a
//! recursive-descent parser that computes each statement's value as it reads it
//! (`parser`), with general properties of its evaluation (`laws`).

pub mod laws;
pub mod parser;
pub mod symbols;
pub mod tokenizer;

//! Arithmetic practice problems over exact fractions: a constrained random
//! expression generator, a renderer, an evaluator for rendered text and a
//! grader for submitted answers.

pub mod error;
pub mod divisor;
pub mod fraction;
pub mod rational;
pub mod text;
pub mod decimal;
pub mod canonical;
pub mod operator;
pub mod expression;
pub mod token;
pub mod parser;
pub mod render;
pub mod generator;
pub mod grader;
pub mod lines;
pub mod roundtrip;
pub mod braces;
pub mod exercise;

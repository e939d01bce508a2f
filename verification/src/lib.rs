//! Expressions reduced step by step, for teaching how programs are read.
//!
//! The heart of the crate is a small expression language in two domains,
//! truth values and 64-bit integers:
//!
//! - `expr`, `ops`: the tree and what each operator does to literals;
//! - `scan`, `boolean`, `arithmetic`: the two grammars, as functions on the
//!   bytes of the input, and random expressions of each domain;
//! - `path`: paths from the root to a node, and replacing the node at a path;
//! - `reduce`: the next reducible node (leftmost and innermost), one
//!   reduction, the whole sequence of frames, and evaluation;
//! - `practice`: what a click on a node of the tree does;
//! - `render`, `text`: the expression as text, with the place of a node in it;
//! - `layout`: the tree on a grid of rows and columns;
//! - `laws`, `roundtrip`: what holds of every tree.
//!
//! Beside it stand the generator of pseudo-random numbers (`rng`,
//! `choices`) and the small programs that the other lessons step through
//! (`state`, `if_else`, `loops`, `functions`, `flowchart`).
//!
//! Contracts are stated over the trees themselves and over sequences of
//! path steps, bytes and characters.

pub mod arithmetic;
pub mod boolean;
pub mod choices;
pub mod error;
pub mod expr;
pub mod flowchart;
pub mod functions;
pub mod if_else;
pub mod laws;
pub mod layout;
pub mod loops;
pub mod ops;
pub mod path;
pub mod practice;
pub mod reduce;
pub mod render;
pub mod rng;
pub mod roundtrip;
pub mod scan;
pub mod state;
pub mod text;

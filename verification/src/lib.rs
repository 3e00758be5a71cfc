//! Small quantum circuits: a circuit as nodes with dependencies, its text
//! in a subset of OpenQASM 2.0, a flat list of its gates, and what a
//! simulation applies to the state.
//!
//! Every operation carries a contract over the mathematical content of its
//! arguments, and is proved to meet it.

pub mod text;
pub mod case;
pub mod pattern;
pub mod params;
pub mod node;
pub mod dag;
pub mod gates;
pub mod topo;
pub mod order;
pub mod writer;
pub mod lines;
pub mod parser;
pub mod circuit;
pub mod quantum;
pub mod state;
pub mod display;
pub mod drawing;
pub mod menu;
pub mod editor;
pub mod keys;
pub mod laws;

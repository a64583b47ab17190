//! Parsing, netlist extraction, structural diff and rendering support for
//! Xschem schematics (`.sch` / `.sym`).
pub mod theme;
pub mod text;
pub mod order;
pub mod strmap;
pub mod models;
pub mod grammar;
pub mod parser;
pub mod netlist;
pub mod error;
pub mod text_layout;
pub mod renderer;
pub mod xschemrc;
pub mod semantic;
pub mod scene;
pub mod walk;

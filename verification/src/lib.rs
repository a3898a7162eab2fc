//! Text-level editing of KiCad schematics.
//!
//! A schematic is one S-expression. The tools here find the blocks they are
//! about and rewrite those bytes alone, so that everything else in a file stays
//! as it was written. Coordinates stay numerals: what a number is worth, and
//! what sums of numbers are, comes in from the caller.

// Bytes, S-expressions and edits.
pub mod text;
pub mod scan;
pub mod node;
pub mod edit;
pub mod alike;
pub mod quote;
pub mod num;
pub mod numeral;
pub mod coord;

// What a tool is called with, and where it works.
pub mod args;
pub mod cache;
pub mod project;

// The sheet.
pub mod page;
pub mod graphics;
pub mod reread;
pub mod redrawn;
pub mod region;
pub mod back;
pub mod inside;

// Its symbols.
pub mod symbols;
pub mod properties;
pub mod graft;
pub mod rename;
pub mod components;
pub mod carried;
pub mod grouping;
pub mod shown;
pub mod placement;
pub mod reset;
pub mod anchored;
pub mod pins;

// Their definitions.
pub mod library;
pub mod refresh;
pub mod again;
pub mod update;
pub mod replace;
pub mod swapped;

// What is reported of all of these.
pub mod listed;

//! A small browser engine core: cascade resolution, style trees, box trees,
//! box-model layout and display-list generation, with the markup and
//! stylesheet parsers that feed them.
//!
//! Lengths are `i64` counts of thousandths of a pixel throughout.

pub mod arith;
pub mod boxmodel;
pub mod cascade;
pub mod css;
pub mod css_parser;
pub mod display;
pub mod dom;
pub mod geometry;
pub mod html;
pub mod layout;
pub mod painting;
pub mod scan;
pub mod strmap;
pub mod style;
pub mod text;

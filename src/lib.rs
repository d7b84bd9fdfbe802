//! A color expression language: literals, named colors, transforms and user
//! functions over a perceptual lightness/chroma/hue space, evaluated against
//! a palette of named colors.
//!
//! - `color`: the color model, in fixed-point arithmetic.
//! - `grammar`: the grammar of expressions and palette lines.
//! - `parser`: parsing text into expression trees.
//! - `palette`: the palette table and the evaluator.
//! - `format`: textual renderings of a resolved color.
//! - `eval`: evaluating a single expression and choosing its rendering.

pub mod color;
pub mod palette;
pub mod grammar;
pub mod parser;
pub mod format;
pub mod eval;

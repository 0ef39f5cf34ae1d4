//! Incremental escape-time computation on a rectangular sampling grid.
//!
//! - [`grid`]: the rectangular container.
//! - [`mandel`]: the escape-time evaluator for one point, checked and batched.
//! - [`fractal`]: the state over all points, advanced pass by pass.
//! - [`image`]: gray levels of the step counts and their PNG encoding.
//! - [`text`]: a grid as a text table.

pub mod fractal;
pub mod grid;
pub mod image;
pub mod mandel;
pub mod text;

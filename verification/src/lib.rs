//! Gauss-Jordan solver for linear systems entered as an augmented matrix through an
//! interactive grid.
//!
//! * [`app`] is the editor of the grid: the size buffer, the cell store, the cursor and
//!   the commands of the user.
//! * [`decimal`] reads the order of the system and the numbers of the cells.
//! * [`matrix`] is the elimination engine, on exact rational numbers.
//! * [`elimination`] says what the engine computes and why the result is the solution.
//! * [`rational`] and [`number_theory`] are the arithmetic underneath.

pub mod number_theory;
pub mod rational;
pub mod elimination;
pub mod matrix;
pub mod decimal;
pub mod app;

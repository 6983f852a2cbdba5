//! Compiles the boundary and transition constraints of an algebraic intermediate
//! representation into constraint groups, with the field and polynomial arithmetic they use.
//!
//! - `field`, `extension`: the base field and its quadratic extension.
//! - `polynom`: polynomial evaluation, arithmetic, division and interpolation.
//! - `assertion`, `divisor`, `boundary`: assertions, their divisors and boundary constraints.
//! - `transition`, `context`, `options`: constraint degrees and computation parameters.
//! - `air`: the compiler from assertions and degrees to constraint groups.
//! - `algebra`: why interpolation gives back its values and division is exact.
//! - `poly_table`: the table of trace polynomials.
pub mod field;
pub mod extension;
pub mod polynom;
pub mod error;
pub mod assertion;
pub mod options;
pub mod transition;
pub mod context;
pub mod divisor;
pub mod boundary;
pub mod air;
pub mod poly_table;
pub mod algebra;

//! Conway's surreal numbers: values built from two finite collections of
//! simpler values, the recursive order between them, arithmetic over
//! that order, and the passage to and from dyadic real numbers.
//!
//! Every contract is stated over [`form::Form`], the mathematical model
//! of a value. The executable engine:
//!
//! - [`surreal`]: the value, its constructors and accessors;
//! - [`order`], [`compare`]: Conway's order, `==` and `<`;
//! - [`arith`], [`product`], [`quotient`], [`ops`]: addition, negation,
//!   multiplication, inverse and division, and the operators;
//! - [`dyadic`], [`conv`], [`search`]: dyadic real numbers, the real
//!   number of a value and the search for the value of a real number;
//! - [`inf`]: values with a denumerable side;
//! - [`render`]: set notation;
//! - [`ceiling`], [`error`]: ceilings and failures.
//!
//! The laws, each proved from the definitions:
//!
//! - [`order`]: the order is reflexive and transitive, and total on
//!   numbers;
//! - [`laws`]: zero, negatives, the units of multiplication, addition and
//!   the order, sums of numbers;
//! - [`group`]: the ordered group of forms;
//! - [`ring`], [`monotone`]: products commute; products of numbers are
//!   numbers, respect equivalence and obey the rule of signs;
//! - [`exact`]: the real number of a value is an exact dyadic number;
//! - [`whole`]: whole numbers come back from their real numbers.

pub mod arith;
pub mod ceiling;
pub mod compare;
pub mod conv;
pub mod dyadic;
pub mod error;
pub mod exact;
pub mod form;
pub mod group;
pub mod inf;
pub mod laws;
pub mod monotone;
pub mod ops;
pub mod order;
pub mod product;
pub mod quotient;
pub mod render;
pub mod ring;
pub mod search;
pub mod surreal;
pub mod whole;

pub use arith::{add, neg, sub};
pub use ceiling::Ceiling;
pub use conv::{is_divisible, is_pseudo, logic, stof};
pub use dyadic::Dyadic;
pub use error::SurrealError;
pub use inf::SurrealInf;
pub use order::leq;
pub use product::{mul, mul_within};
pub use quotient::{divide, inv};
pub use search::ftos;
pub use surreal::{cnv, Surreal};

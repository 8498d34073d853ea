//! Exhaustive enumeration of finite algebraic structures.
//!
//! The crate walks every point of a finite Cartesian or function space with a
//! mixed-radix counter (an "odometer"), and layers law checking on top of the
//! raw walk to enumerate only the candidates that denote valid structures:
//! associative binary operations, finite categories, and presheaves over a
//! finite category.

pub mod arena;
pub mod assoc;
pub mod cat;
pub mod psh;
pub mod set;

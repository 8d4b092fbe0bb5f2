//! A flattening pass that lowers programs with nested arithmetic,
//! comparison, equality, power and conditional expressions into a
//! restricted form whose statements are directly encodable as rank-1
//! constraints: every multiplication or division in the output acts on
//! affine operands only, and every definition target is assigned once.

pub mod absy;
pub mod field;
pub mod flatten;
pub mod semantics;

//! Exact integer homology of finite simplicial complexes of dimension at most two.
//!
//! The crate pairs a Smith normal form solver over `i128` matrices with a
//! homology extractor that reads free rank and torsion off two consecutive
//! boundary operators. Matrices are stored as `nalgebra::DMatrix<i128>`; every
//! arithmetic step is checked, so a computation either returns an exact result
//! or reports that it left the range of `i128`.
//!
//! - [`matrix`], [`linear`], [`determinant`]: matrices, their products,
//!   elementary operations and determinants, as mathematics.
//! - [`arith`], [`elementary`], [`product`]: checked arithmetic on stored
//!   matrices.
//! - [`smith_form`], [`snf`], [`course`]: the Smith normal form, the solver,
//!   and the course of its reduction.
//! - [`reduce`], [`kernel`]: column reduction of bases, and bases of the
//!   kernel of a matrix.
//! - [`boundary`], [`cycles`]: complexes, their boundary operators, and the
//!   vanishing of the boundary of a boundary.
//! - [`homology`], [`homology_group`]: homology groups from boundary operators.

pub mod error;
pub mod matrix;
pub mod linear;
pub mod determinant;
pub mod arith;
pub mod elementary;
pub mod product;
pub mod smith_form;
pub mod snf;
pub mod course;
pub mod reduce;
pub mod kernel;
pub mod boundary;
pub mod cycles;
pub mod homology;
pub mod homology_group;

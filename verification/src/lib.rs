//! Verified building blocks of a Halo-style recursive proof system over the
//! Pasta curves: field elements of the two Pasta fields, affine points,
//! the circuit description and its trace, the PLONK gate constraints and the
//! polynomial-commitment helpers of the accumulation scheme.
#![allow(non_snake_case)]

pub mod modular;
pub mod field;
pub mod affine;
pub mod circuit;
pub mod constraints;
pub mod table;
pub mod trace_builder;
pub mod sigma;
pub mod hpoly;
pub mod pp;

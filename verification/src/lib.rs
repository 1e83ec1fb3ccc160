//! Local value numbering and trivial dead code elimination for a small
//! typed intermediate representation, with machine-checked contracts.
//!
//! The passes work on the items of [`ir`]. [`cfg`] splits a function body
//! into basic blocks; [`lvn`] numbers the values of each block with the
//! table of [`table`], following the mathematical model of [`model`];
//! [`tdce`] drops the definitions that nothing reads. The remaining
//! modules hold what is proved of the passes: that the table stays
//! consistent ([`consistency`]), that labels, effects and destinations
//! stay where they are ([`shape`]), that the meaning of the code is kept
//! ([`semantics`], [`soundness`], [`scope`], [`effects`]), and on which
//! blocks value numbering changes nothing ([`fixed_point`]).

pub mod assoc;
pub mod cfg;
pub mod consistency;
pub mod effects;
pub mod expr;
pub mod fixed_point;
pub mod ir;
pub mod lvn;
pub mod model;
pub mod naming;
pub mod options;
pub mod order;
pub mod scope;
pub mod semantics;
pub mod shape;
pub mod soundness;
pub mod table;
pub mod tdce;

//! Resolvent: exact rational algebra, polynomial arithmetic, certified real
//! roots, and structural equation-system analysis, with machine-checked
//! contracts.
#![allow(unused_imports)]

pub mod uncertain;
pub mod system;
pub mod sorting;
pub mod scc;
pub mod reach;
pub mod structural;
pub mod alternating;
pub mod units;
pub mod rational;
pub mod qfield;
pub mod polydiv;
pub mod lazy_real;
pub mod algebra;
pub mod ratmat;
pub mod roots;
pub mod polymat;
pub mod polynomial;
pub mod sqrt_ext;
pub mod spec;
pub mod refinement;
pub mod scientific;
pub mod term;
pub mod receipt;
pub mod term_store;
pub mod term_wire;
pub mod term_decode;
pub mod text;

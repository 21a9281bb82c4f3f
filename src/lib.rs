//! Approximate evaluation of characteristic classes in a truncated graded
//! algebra modelling the mod-2 cohomology of oriented Grassmannians.

pub mod algebra;
pub mod basis;
pub mod coeff;
pub mod driver;
pub mod fxmap;
pub mod model;
pub mod relations;
pub mod symmetric;
pub mod torsion;

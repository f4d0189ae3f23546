//! The optimization passes. Each pass takes a program, rewrites it in place,
//! and reports whether it changed anything; `naive_dce_pass` is the one
//! exception, reporting only whether the last function changed.
pub mod const_prop;
pub mod dce;
pub mod example;
pub mod live;
pub mod loops;
pub mod lvn;
pub mod name_map;
pub mod pointer_analysis;

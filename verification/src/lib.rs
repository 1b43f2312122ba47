//! A verified core of a machine-code decompiler: address spaces, the p-code
//! intermediate representation, and the analyses and rewrite rules that run over it.

pub mod space;
pub mod opcode;
pub mod types;
pub mod fspec;
pub mod funcdata;
pub mod stackvars;
pub mod ptrarith;
pub mod addtree;
pub mod restrictlocal;
pub mod ancestor;
pub mod recover;
pub mod printc;
pub mod transform;
pub mod splitflow;

//! A verified back end for the Scry instruction set.
use vstd::prelude::*;

pub mod abi;
pub mod assemble;
pub mod backend;
pub mod bb;
pub mod cfg;
pub mod chain;
pub mod bytes;
pub mod emission;
pub mod emit;
pub mod flow;
pub mod graph;
pub mod inst;
pub mod ir;
pub mod isa;
pub mod isatype;
pub mod issues;
pub mod label;
pub mod laws;
pub mod layout;
pub mod length;
pub mod lower;
pub mod machinst;
pub mod operands;
pub mod pass;
pub mod passes;
pub mod patches;
pub mod print;
pub mod reg;
pub mod rename;
pub mod table;
pub mod typemap;
pub mod vcode;

verus! {

} // verus!

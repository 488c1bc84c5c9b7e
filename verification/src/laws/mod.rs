//! What the passes do to a function, in terms of the code before and after.
pub mod branches;
pub mod code;
pub mod copies;
pub mod distances;
pub mod emission;
pub mod frame;
pub mod jumps;
pub mod layout;
pub mod limits;
pub mod operands;
pub mod operations;
pub mod pipeline;
pub mod reception;
pub mod stack;
pub mod tables;
pub mod texts;
pub mod types;
pub mod values;
pub mod widening;

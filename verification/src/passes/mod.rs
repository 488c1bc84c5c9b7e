//! The passes that turn the lowered code into code for the operand queues.
pub mod branches;
pub mod capacities;
pub mod casts;
pub mod distances;
pub mod duplicates;
pub mod echoes;
pub mod far_jumps;
pub mod frame;
pub mod infer;
pub mod orderings;
pub mod live_ins;
pub mod lowered;
pub mod order;
pub mod params;
pub mod resolve;
pub mod rets;
pub mod settle;
pub mod stack_args;
pub mod triggers;
pub mod types;

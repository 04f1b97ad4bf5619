//! Lowering of a single SSA function into an arithmetic-circuit template.

pub mod circom_codegen;
pub mod completeness;
pub mod consumer;
pub mod contract;
pub mod control_flow;
pub mod error;
pub mod instructions;
pub mod ir;
pub mod legality;
pub mod lowering;
pub mod memo;
pub mod names;
pub mod signal_declarations;

//! Leader-rotation and ledger-walk logic of a write stage and its cluster checks.

pub mod keys;
pub mod leader_schedule;
pub mod write_stage;
pub mod ledger_ticks;
pub mod fullnode_config;
pub mod bench_args;

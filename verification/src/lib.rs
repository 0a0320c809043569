pub mod deployment;
pub mod docgen;
pub mod staking;

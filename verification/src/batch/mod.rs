pub mod aggregator;
pub mod evaluator;
pub mod histogram;
pub mod top_n;
pub mod types;

//! Bayesian additive regression trees grown by sequential Monte Carlo.

// Numbers, arrays and chance.
pub mod binary64;
pub mod draws;
pub mod matrix;
pub mod numerics;
pub mod random;

// Trees.
pub mod pickling;
pub mod predict;
pub mod response;
pub mod tree;
pub mod tree_model;

// Growing a tree.
pub mod mutation;
pub mod particle;
pub mod resampling;
pub mod smc;
pub mod splitting;
pub mod update;
pub mod weight;

// The sampler.
pub mod columns;
pub mod config;
pub mod data;
pub mod kernel;
pub mod running_sd;
pub mod sampler;
pub mod settings;
pub mod state;

// What holds of them.
pub mod answer_laws;
pub mod call_laws;
pub mod count_laws;
pub mod growth_laws;
pub mod kernel_laws;
pub mod leaf_laws;
pub mod line_laws;
pub mod node_laws;
pub mod prediction_laws;
pub mod proposal_laws;
pub mod repeat_laws;
pub mod response_laws;
pub mod routing;
pub mod run_laws;
pub mod running_laws;
pub mod settings_laws;
pub mod setup_laws;
pub mod share_laws;
pub mod smc_laws;
pub mod spread_laws;
pub mod start_laws;
pub mod step_laws;
pub mod sum_laws;
pub mod tree_laws;
pub mod tuning_laws;
pub mod weight_laws;

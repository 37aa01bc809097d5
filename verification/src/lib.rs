pub mod text;
pub mod paths;
pub mod ratio;
pub mod config;
pub mod classifier;
pub mod strmap;
pub mod walker;
pub mod digest;
pub mod textdiff;
pub mod code_diff;
pub mod values;
pub mod data_diff;
pub mod tabular;
pub mod jsondata;
pub mod matcher;
pub mod crawler;
pub mod report;
pub mod laws;

pub mod config;
pub mod gate;
pub mod ledger;
pub mod naming;
pub mod plan;
pub mod run;
pub mod text;

pub mod text;
pub mod numbers;
pub mod maps;
pub mod identity;
pub mod coverage;
pub mod commands;
pub mod kernel;
pub mod store;
pub mod query;
pub mod query_code;
pub mod model;
pub mod model_code;
pub mod lizard;
pub mod git;
pub mod observation;
pub mod analyzers;
pub mod runtime;
pub mod sdk;
pub mod memory;
pub mod syntax;
pub mod semantics;

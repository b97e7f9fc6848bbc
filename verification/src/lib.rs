pub mod baseline;
pub mod bundle;
pub mod cli;
pub mod config;
pub mod graphgen;
pub mod jsgen;
pub mod paths;
pub mod project;
pub mod resolve;
pub mod scan;
pub mod semiring;
pub mod splitter;
pub mod text;
pub mod transform;
pub mod tropical;

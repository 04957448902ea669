pub mod text;
pub mod token;
pub mod chex;
pub mod spex;
pub mod closure;
pub mod parser;
pub mod builder;
pub mod laws;
pub mod mermaid;

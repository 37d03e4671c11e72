//! Fast `.env` file parser with variable interpolation, multi-file layering, and type-safe loading.
//!
//! - Parse `.env` content with quoted values, comments, and escape sequences
//! - Variable interpolation using `${VAR_NAME}` syntax
//! - Multi-file layering with priority ordering (later pairs override earlier ones)
//! - Type-safe accessors for common types
//! - Required variable validation

pub mod dotenv;
pub mod error;
pub mod interp;
pub mod laws;
pub mod parse;
pub mod parse_laws;
pub mod text;

pub use dotenv::DotEnv;
pub use error::DotEnvError;
pub use interp::interpolate;
pub use parse::parse_env_content;

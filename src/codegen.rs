//! Declaration generators.
pub mod typescript;

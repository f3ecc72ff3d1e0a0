//! Schema collection and TypeScript declaration generation.
//!
//! A [`collection::Collection`] maps canonical schema ids to schemas; schemas
//! whose references point at other documents are taken in by an
//! [`ingest::Ingestion`], which asks its caller for each document it needs.
//! The [`codegen::typescript::TypeScriptGenerator`] turns stored schemas into
//! declaration text.
pub mod codegen;
pub mod collection;
pub mod foreign;
pub mod ingest;
pub mod references;
pub mod schema;
pub mod util;

//! Reading and rewriting Docker Compose files.
pub mod parser;
pub mod updater;

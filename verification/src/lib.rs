//! Keeps the image tags in Docker Compose files up to date.
pub mod text;
pub mod version;
pub mod config;
pub mod strategy;
pub mod registry;
pub mod compose;
pub mod health;
pub mod scheduler;

pub mod text;
pub mod diff;
pub mod timestamp;
pub mod error;
pub mod walker;
pub mod models;
pub mod events;
pub mod trash;
pub mod config;
pub mod sync;
pub mod paths;
pub mod progress;
pub mod downloader;
pub mod commands;

pub mod cli;
pub mod clock;
pub mod components;
pub mod config;
pub mod deps;
pub mod digest;
pub mod elf;
pub mod graph;
pub mod index;
pub mod license;
pub mod metadata;
pub mod model;
pub mod naming;
pub mod order;
pub mod paths;
pub mod pipeline;
pub mod plugin;
pub mod repo;
pub mod resolve;
mod outside;
pub mod text;
pub mod ui;
pub mod upload;

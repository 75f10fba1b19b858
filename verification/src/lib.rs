pub mod text;
pub mod paths;
pub mod specifier;
pub mod strmap;
pub mod platform;
pub mod manifest;
pub mod dependency;
pub mod config;
pub mod workspace;
pub mod integrity;
pub mod error;
pub mod store;
pub mod semver;
pub mod graph;
pub mod packages;
pub mod resolver;
pub mod lockfile;
pub mod import;
pub mod registry;
pub mod link;
pub mod commands;

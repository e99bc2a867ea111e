//! Dependency-caching planner for Rust workspaces: resolves which workspace
//! members a binary needs, plans the minimal stub workspace, and renders the
//! multi-stage Dockerfile.

pub mod strings;
pub mod graph;
pub mod paths;
pub mod metadata;
pub mod builder;
pub mod generator;
pub mod dockerfile;
pub mod manifest;
pub mod laws;
pub mod cli;
pub mod lockfile;

//! Version-locked binaries from GitHub release assets, configured in `Cargo.toml`.
pub mod text;
pub mod manifest;
pub mod filesystem;
pub mod binary;
pub mod add_asset;
pub mod cli;
pub mod shims;

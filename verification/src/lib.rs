//! A game-content patcher core: digest-based change detection, staged
//! downloads, reversible file swaps with per-source manifests, and the
//! orchestration rules that tie them together.
//!
//! All file-system and network effects live outside this crate; the logic
//! here operates on explicit values and on a model of the installation's
//! files, so that every rule is stated and proved.

pub mod digest;
pub mod errors;
pub mod events;
pub mod ini;
pub mod manifest;
pub mod numbers;
pub mod patching;
pub mod settings;
pub mod store;
pub mod text;

pub use errors::PatchError;

//! rustpack: a verified core for a cross-platform application bundler.
//!
//! The library models a package as a payload tree (binaries laid out per
//! target, assets, a license file and a manifest), offers two archive
//! encodings of that tree (a self-extracting artifact and a plain zip),
//! resolves the host platform against the manifest, computes and applies
//! binary patches for incremental updates, and checksums and signs finished
//! artifacts.  All decision logic is specified and verified; calls into
//! outside codec and crypto crates stand behind small trusted wrappers.

pub mod chartext;
pub mod platform;
pub mod manifest;
pub mod patch;
pub mod strings;
pub mod numtext;
pub mod b64;
pub mod integrity;
pub mod patch_text;
pub mod payload;
pub mod archive;
pub mod manifest_text;
pub mod stamp;
pub mod assemble;
pub mod bootstrap;
pub mod cargo_meta;

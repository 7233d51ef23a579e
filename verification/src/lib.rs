//! Version management core for an OpenShift client version tool.
//!
//! The library holds the verified logic: ordering of version strings,
//! resolution of partial versions against a list of available ones,
//! mirror URL construction, and the on-disk version cache with its
//! legacy-format migration.  All file and network traffic stays with
//! the surrounding application, which hands plain values in and out.

pub mod cache;
pub mod cli;
pub mod json;
pub mod platform;
pub mod text;
pub mod version;

pub use platform::{Platform, OC_BIN_DIR, OC_MIRROR_BASE};
pub use version::{
    compare_versions, extract_major_minor, extract_version_from_path, extract_version_number,
    find_matching_version, is_stable_version,
};

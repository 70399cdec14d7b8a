//! Verified core of a terraform/opentofu version manager: semantic-version
//! parsing and ordering, constraint extraction from project declaration
//! files, the version-resolution precedence engine, remote-catalog parsing,
//! and the checksum trust chain that guards installation.

pub mod catalog;
pub mod chars;
pub mod constraint;
pub mod installer;
pub mod resolve;
pub mod trust;
pub mod version;

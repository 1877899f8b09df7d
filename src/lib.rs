//! Differences between two Nix closures: store path parsing, version
//! ordering, pairing of package versions and the sectioned report.
pub mod backend;
pub mod diff;
pub mod fixtures;
pub mod pairing;
pub mod render;
pub mod report;
pub mod store_path;
pub mod text;
pub mod util;
pub mod version;

pub use store_path::{DerivationId, StorePath};
pub use version::Version;

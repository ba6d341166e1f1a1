//! A typed model of the `pubspec.lock` dependency lockfile and its codec.
//!
//! A lockfile is decoded from, and encoded to, a tree of [`Node`]s: scalars,
//! lists and records, as any structured text format yields them. Decoding is
//! lenient about keys it does not know; encoding writes the canonical form.

pub mod classifier;
pub mod description;
pub mod entries;
pub mod error;
pub mod lockfile;
pub mod node;
pub mod package;
pub mod record;
pub mod sorted_map;
pub mod text;

pub use crate::classifier::DependencyKind;
pub use crate::classifier::PackageSource;
pub use crate::description::Description;
pub use crate::error::DecodeError;
pub use crate::lockfile::LockFile;
pub use crate::node::Node;
pub use crate::package::Package;
pub use crate::sorted_map::SortedMap;

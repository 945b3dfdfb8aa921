//! Lossless compaction of generator-produced block-state data, and a
//! one-directional compatibility comparator between two compacted files.
//!
//! The verified core covers: classification of raw property value lists,
//! mixed-radix verification of per-state numeric identifiers, collision
//! detection among enumerated properties, construction of the deduplicated
//! compact schema, and the compatibility comparator. File handling and JSON
//! encoding live outside the library and hand it plain values.

pub mod collisions;
pub mod compact;
pub mod compare;
pub mod data;
pub mod errors;
pub mod identifier;
pub mod info;
pub mod metadata;
pub mod property;
pub mod raw;
pub mod rules;
pub mod states;
pub mod table;

pub use collisions::CollisionList;
pub use compare::{BlockComparison, PropertyComparison};
pub use data::{ModernBlockData, ModernBlockList, PropertyValue};
pub use errors::{BuildError, CompactError};
pub use identifier::Identifier;
pub use metadata::MetaData;
pub use property::{EnumProperty, PropertyKind, PropertyKindParseError};
pub use raw::{RawBlockData, RawBlockList, RawBlockState};
pub use rules::ModernPropertyRules;

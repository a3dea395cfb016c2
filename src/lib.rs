pub mod cell;
pub mod link;
pub mod list;
pub mod vec;
pub mod version;

pub use cell::PersistentCell;
pub use link::{Link, Tag};
pub use list::{ListStore, PersistenLinkedList};
pub use vec::VecView;
pub use version::{PartialVersion, Version, VersionList};

//! Terms over version index bitsets, where a whole term fits in one `u64`.

pub mod term;

pub use crate::version::{VersionIndex, VersionSet};
pub use term::{Relation, Term};

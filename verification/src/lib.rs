pub mod strmap;

pub use strmap::{StrMap, StrSet};
pub use types::{DocData, InMemoryIndex, SearchMode, SnapshotData, TermFrequency, TermPosting};
pub mod text;
pub mod fuzzy;
pub mod types;
pub mod docbuild;
pub mod highlight;
pub mod index;
pub mod snapshot;
pub mod search;
pub mod laws;

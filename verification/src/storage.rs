//! What the store of recent files and settings exchanges with its callers.

use vstd::prelude::*;

verus! {

#[derive(Debug, Clone)]
pub struct StorageOptions {
    /// Path of the store's file; the default place is used when `None`.
    pub sqlite_path: Option<String>,
}

impl Default for StorageOptions {
    fn default() -> (o: Self)
        ensures
            o.sqlite_path is None,
    {
        StorageOptions { sqlite_path: None }
    }
}

#[derive(Debug, Clone)]
pub struct RecentFile {
    pub path: String,
    pub display_name: String,
    pub last_opened_at_ms: i64,
    pub exists: bool,
    pub pinned: bool,
}

} // verus!

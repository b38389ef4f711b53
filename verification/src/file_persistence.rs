use vstd::prelude::*;
use vstd::string::StringExecFns;

verus! {

/// Where a storage is saved to and loaded from.
pub struct FilePersistence {
    path: String,
}

impl FilePersistence {
    /// The file path, as characters.
    pub closed spec fn path_view(&self) -> Seq<char> {
        self.path@
    }

    /// Persistence to the file at `path`.
    pub fn new(path: &str) -> (persistence: Self)
        ensures
            persistence.path_view() == path@,
    {
        Self { path: String::from_str(path) }
    }

    /// The file path.
    pub fn path(&self) -> (path: &str)
        ensures
            path@ == self.path_view(),
    {
        self.path.as_str()
    }
}

} // verus!

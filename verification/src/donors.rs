//! The donor-image registry: a logical donor key ("supplement", "pop", …)
//! maps to a disk image, so the dataset names a key rather than a machine
//! path. Reading and parsing the registry file is the caller's part.

use crate::keyed::{lookup, Keyed};
use vstd::prelude::*;

verus! {

/// A donor: a disk-image path, optionally flagged as a read-only reservoir of
/// already-installed content (copied verbatim rather than harvested).
#[derive(Clone, Debug)]
pub enum Donor {
    /// A bare path: a MacPack-style harvest donor.
    Path(String),
    /// `{ "path": …, "reservoir": … }`.
    Full { path: String, reservoir: bool },
}

impl Donor {
    /// The disk-image path, whichever form the entry took.
    pub open spec fn path_of(&self) -> Seq<char> {
        match self {
            Donor::Path(p) => p@,
            Donor::Full { path, .. } => path@,
        }
    }

    /// The disk-image path, whichever form the entry took.
    pub fn path(&self) -> (r: &str)
        ensures
            r@ == self.path_of(),
    {
        match self {
            Donor::Path(p) => p.as_str(),
            Donor::Full { path, .. } => path.as_str(),
        }
    }

    /// Whether this donor is a verbatim-copy reservoir (vs a harvest donor).
    pub fn reservoir(&self) -> (r: bool)
        ensures
            r == (self matches Donor::Full { reservoir: true, .. }),
    {
        match self {
            Donor::Full { reservoir, .. } => *reservoir,
            Donor::Path(_) => false,
        }
    }
}

/// Donor key → [`Donor`], keys ascending.
#[derive(Clone, Debug)]
pub struct Registry(pub Keyed<Donor>);

impl Default for Registry {
    /// The empty registry.
    fn default() -> (r: Self)
        ensures
            r.0.wf(),
            r.0.entries@.len() == 0,
    {
        Registry(Keyed::new())
    }
}

impl Registry {
    /// The registry the default file gave, or the empty one where it was
    /// absent or unreadable.
    pub fn load_default(loaded: Option<Registry>) -> (r: Registry)
        ensures
            match loaded {
                Some(g) => r == g,
                None => r.0.entries@.len() == 0,
            },
    {
        match loaded {
            Some(g) => g,
            None => Registry::default(),
        }
    }

    /// The donor under `key`.
    pub fn get(&self, key: &str) -> (r: Option<&Donor>)
        ensures
            match r {
                Some(d) => lookup(self.0.entries@, key@) == Some(*d),
                None => lookup(self.0.entries@, key@) is None,
            },
    {
        self.0.get(key)
    }

    /// The donor keys, ascending.
    pub fn keys(&self) -> (r: Vec<String>)
        ensures
            r@.len() == self.0.entries@.len(),
            forall|j: int| 0 <= j < r@.len() ==> (#[trigger] r@[j])@ == self.0.entries@[j].0@,
    {
        self.0.keys()
    }
}

} // verus!

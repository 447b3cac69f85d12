//! What the server is configured with, fixed at startup.

use vstd::prelude::*;
use crate::access::IpAddress;
use crate::cli::DirectoryListingViewType;

verus! {

/// One served path, with what it was found to be at startup.
pub struct Root {
    /// The absolute path.
    pub path: String,
    /// Whether the path is a directory.
    pub is_directory: bool,
}

/// The served paths, in the order they were configured. Never empty.
pub struct RootSet {
    roots: Vec<Root>,
}

impl View for RootSet {
    type V = Seq<Root>;

    closed spec fn view(&self) -> Seq<Root> {
        self.roots@
    }
}

impl RootSet {
    #[verifier::type_invariant]
    spec fn populated(self) -> bool {
        self.roots@.len() > 0
    }

    /// The set of the given roots; none if there is no root.
    pub fn new(roots: Vec<Root>) -> (set: Option<RootSet>)
        ensures
            set is Some <==> roots@.len() > 0,
            set matches Some(s) ==> s@ == roots@,
    {
        if roots.len() == 0 {
            None
        } else {
            Some(RootSet { roots })
        }
    }

    /// The number of roots, which is at least one.
    pub fn len(&self) -> (n: usize)
        ensures
            n == self@.len(),
            n > 0,
    {
        proof {
            use_type_invariant(self);
        }
        self.roots.len()
    }

    /// The root at position `i`.
    pub fn get(&self, i: usize) -> (root: &Root)
        requires
            i < self@.len(),
        ensures
            *root == self@[i as int],
    {
        &self.roots[i]
    }
}

/// The server's configuration.
pub struct AppState {
    /// The addresses that may connect; empty if every address may.
    pub whitelisted_ips: Vec<IpAddress>,
    /// The served paths.
    pub paths: RootSet,
    /// Whether clients may upload new files.
    pub upload: bool,
    /// Whether clients may upload files and overwrite existing ones.
    pub upload_overwrite: bool,
    /// The view that listings start in.
    pub default_view: DirectoryListingViewType,
    /// The page title where no item is open.
    pub title: Option<String>,
}

} // verus!

//! What a batch of package commands fetches, and what each package learns of
//! how the fetch of its repository went.

use vstd::prelude::*;
use crate::maps::{enumerates, map_of, text_map_contents, text_pairs, TextMap};

verus! {

/// Brings every repository behind a batch of packages up to date once, and
/// remembers what failed rather than raising it: a repository nobody could
/// reach only concerns the packages that wanted it.
pub struct Fetcher {
    /// What went wrong, keyed by the local path of the repository.
    pub failures: TextMap,
}

impl Fetcher {
    /// The repositories to bring up to date for packages that live at the
    /// local paths and come from the remotes of `wanted`: each local path
    /// once, with the remote of the last package that wants it, in an order
    /// nothing is claimed of. Packages sharing a repository, such as the
    /// children of one, fetch it once.
    pub fn repos(wanted: Vec<(String, String)>) -> (v: Vec<(String, String)>)
        ensures
            enumerates(text_pairs(v@), map_of(text_pairs(wanted@))),
    {
        TextMap::from_entries(wanted).entries()
    }

    /// The fetcher that remembers `failures`: each failed local path with
    /// what went wrong.
    pub fn new(failures: Vec<(String, String)>) -> (f: Fetcher)
        ensures
            text_map_contents(f.failures) == map_of(text_pairs(failures@)),
    {
        Fetcher { failures: TextMap::from_entries(failures) }
    }

    /// Fails with whatever kept the repository at `local` from being
    /// fetched.
    pub fn check(&self, local: &str) -> (res: Result<(), String>)
        ensures
            match res {
                Ok(()) => !text_map_contents(self.failures).contains_key(local@),
                Err(e) => text_map_contents(self.failures).contains_key(local@)
                    && text_map_contents(self.failures)[local@] == e@,
            },
    {
        match self.failures.get(local) {
            Some(e) => Err(e),
            None => Ok(()),
        }
    }
}

} // verus!

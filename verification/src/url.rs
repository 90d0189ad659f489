//! The locations that rules are matched against: a scheme and a path.

use vstd::prelude::*;

verus! {

/// The kind of listing a URL belongs to.
#[derive(Clone, Copy, Debug, PartialEq, Eq, Structural)]
pub enum Scheme {
    /// A path on the local file system.
    Regular,
    /// A flattened search listing, holding entries from below its folder.
    Search,
}

/// A location: its scheme, the domain a search was made in, and its path.
#[derive(Clone, Debug)]
pub struct Url {
    pub scheme: Scheme,
    pub domain: String,
    pub loc: String,
}

pub struct UrlView {
    pub scheme: Scheme,
    pub domain: Seq<char>,
    pub loc: Seq<char>,
}

impl View for Url {
    type V = UrlView;

    open spec fn view(&self) -> UrlView {
        UrlView { scheme: self.scheme, domain: self.domain@, loc: self.loc@ }
    }
}

impl Url {
    /// A local path.
    pub fn regular(loc: &str) -> (u: Url)
        ensures
            u@ == (UrlView { scheme: Scheme::Regular, domain: Seq::empty(), loc: loc@ }),
    {
        Url { scheme: Scheme::Regular, domain: String::new(), loc: String::from_str(loc) }
    }

    /// The search listing made under `domain` for the folder at `loc`.
    pub fn search(domain: &str, loc: &str) -> (u: Url)
        ensures
            u@ == (UrlView { scheme: Scheme::Search, domain: domain@, loc: loc@ }),
    {
        Url { scheme: Scheme::Search, domain: String::from_str(domain), loc: String::from_str(loc) }
    }

    /// Whether this is a flattened listing.
    pub fn is_search(&self) -> (b: bool)
        ensures
            b == (self@.scheme == Scheme::Search),
    {
        match self.scheme {
            Scheme::Search => true,
            Scheme::Regular => false,
        }
    }

    /// A copy with the same view.
    pub fn duplicate(&self) -> (u: Url)
        ensures
            u@ == self@,
    {
        Url {
            scheme: self.scheme,
            domain: self.domain.clone(),
            loc: self.loc.clone(),
        }
    }
}

} // verus!

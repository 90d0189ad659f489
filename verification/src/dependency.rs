//! A package entry of `package.toml`: a plugin or a flavor, named by its
//! repository `owner/repository` and an optional `:child` inside it.

use vstd::prelude::*;
use crate::text::{first_index, find_char, lemma_first_index};

verus! {

pub struct DependencyView {
    pub use_: Seq<char>,
    pub name: Seq<char>,
    pub parent: Seq<char>,
    pub child: Seq<char>,
    pub rev: Seq<char>,
    pub hash: Seq<char>,
    pub is_flavor: bool,
}

/// Whether `a` and `b` name the same package: the same repository and the
/// same child in it.
pub open spec fn same_package(a: DependencyView, b: DependencyView) -> bool {
    a.parent == b.parent && a.child == b.child
}

/// Whether a revision is pinned (written with a leading `=`).
pub open spec fn pinned_spec(rev: Seq<char>) -> bool {
    rev.len() > 0 && rev[0] == '='
}

/// How a package URL `owner/repository[:child]` reads, or `None` when the
/// part before the `:` has no `/`.
pub open spec fn parse_dependency(s: Seq<char>) -> Option<DependencyView> {
    let colon = first_index(s, ':');
    let parent = s.take(colon);
    let child = if colon < s.len() { s.skip(colon + 1) } else { Seq::<char>::empty() };
    let slash = first_index(parent, '/');
    if slash == parent.len() {
        None
    } else {
        let repo = parent.skip(slash + 1);
        Some(
            DependencyView {
                use_: s,
                name: if child.len() > 0 { child } else { repo },
                parent,
                child,
                rev: Seq::empty(),
                hash: Seq::empty(),
                is_flavor: false,
            },
        )
    }
}

/// Why a package command cannot go ahead.
pub enum PackageError {
    /// The package URL is not `owner/repository[:child]`.
    BadUrl { url: String },
    /// `package.toml`, or the batch in hand, already has the package.
    Exists { flavor: bool, name: String },
    /// `package.toml` does not have the package.
    Missing { url: String },
}

/// How an error reads when it is reported.
pub open spec fn error_message(e: PackageError) -> Seq<char> {
    match e {
        PackageError::BadUrl { url } => "Package URL `"@ + url@ + "` must be in the format `owner/repository`"@,
        PackageError::Exists { flavor, name } => (if flavor {
            "Flavor `"@
        } else {
            "Plugin `"@
        }) + name@ + "` already exists in package.toml"@,
        PackageError::Missing { url } => "`"@ + url@ + "` was not found in package.toml"@,
    }
}

impl PackageError {
    /// The text the error is reported with.
    pub fn message(&self) -> (m: String)
        ensures
            m@ == error_message(*self),
    {
        match self {
            PackageError::BadUrl { url } => {
                let mut m = String::from_str("Package URL `");
                m.append(url.as_str());
                m.append("` must be in the format `owner/repository`");
                m
            },
            PackageError::Exists { flavor, name } => {
                let mut m = if *flavor {
                    String::from_str("Flavor `")
                } else {
                    String::from_str("Plugin `")
                };
                m.append(name.as_str());
                m.append("` already exists in package.toml");
                m
            },
            PackageError::Missing { url } => {
                let mut m = String::from_str("`");
                m.append(url.as_str());
                m.append("` was not found in package.toml");
                m
            },
        }
    }
}

/// What deleting a package's files takes.
#[derive(Clone, Copy, Debug, PartialEq, Eq, Structural)]
pub enum DeleteStep {
    /// Its directory is not there: nothing to delete.
    Missing,
    /// Its files are checked against the recorded hash first, so that local
    /// changes are not lost, then removed.
    CheckThenRemove,
    /// Its files are removed, local changes discarded.
    Remove,
}

/// What deleting the files of a package takes, given whether its directory
/// may exist and whether local changes are to be discarded.
pub open spec fn delete_step_spec(exists: bool, discard: bool) -> DeleteStep {
    if !exists {
        DeleteStep::Missing
    } else if !discard {
        DeleteStep::CheckThenRemove
    } else {
        DeleteStep::Remove
    }
}

pub struct Dependency {
    pub use_: String,
    pub name: String,
    pub parent: String,
    pub child: String,
    pub rev: String,
    pub hash: String,
    pub is_flavor: bool,
}

impl View for Dependency {
    type V = DependencyView;

    open spec fn view(&self) -> DependencyView {
        DependencyView {
            use_: self.use_@,
            name: self.name@,
            parent: self.parent@,
            child: self.child@,
            rev: self.rev@,
            hash: self.hash@,
            is_flavor: self.is_flavor,
        }
    }
}

impl Dependency {
    /// Reads a package URL `owner/repository[:child]`; the name is the child
    /// when there is one, else the repository.
    pub fn from_str(s: &str) -> (res: Result<Dependency, PackageError>)
        ensures
            match res {
                Ok(d) => parse_dependency(s@) == Some(d@),
                Err(e) => parse_dependency(s@) is None && (e matches PackageError::BadUrl { url } && url@ == s@),
            },
    {
        proof {
            lemma_first_index(s@, ':');
        }
        let n = s.unicode_len();
        let (parent, child): (&str, &str) = match find_char(s, ':') {
            Some(i) => (s.substring_char(0, i), s.substring_char(i + 1, n)),
            None => (s, s.substring_char(n, n)),
        };
        proof {
            assert(parent@ =~= s@.take(first_index(s@, ':')));
            if first_index(s@, ':') < s@.len() {
                assert(child@ =~= s@.skip(first_index(s@, ':') + 1));
            } else {
                assert(child@ =~= Seq::<char>::empty());
            }
            lemma_first_index(parent@, '/');
        }
        match find_char(parent, '/') {
            None => Err(PackageError::BadUrl { url: String::from_str(s) }),
            Some(j) => {
                let repo = parent.substring_char(j + 1, parent.unicode_len());
                proof {
                    assert(repo@ =~= parent@.skip(j + 1));
                }
                let name = if child.unicode_len() > 0 {
                    String::from_str(child)
                } else {
                    String::from_str(repo)
                };
                Ok(
                    Dependency {
                        use_: String::from_str(s),
                        name,
                        parent: String::from_str(parent),
                        child: String::from_str(child),
                        rev: String::new(),
                        hash: String::new(),
                        is_flavor: false,
                    },
                )
            },
        }
    }

    /// Whether `self` and `other` name the same package.
    pub fn identical(&self, other: &Dependency) -> (b: bool)
        ensures
            b == same_package(self@, other@),
    {
        self.parent == other.parent && self.child == other.child
    }

    /// Whether the revision is pinned, which keeps the package where it is.
    pub fn pinned(&self) -> (b: bool)
        ensures
            b == pinned_spec(self@.rev),
    {
        self.rev.as_str().unicode_len() > 0 && self.rev.as_str().get_char(0) == '='
    }

    /// What deleting the package's files takes: nothing when its directory
    /// is not there, else a hash check first unless local changes are
    /// discarded, then the removal.
    pub fn delete_step(exists: bool, discard: bool) -> (s: DeleteStep)
        ensures
            s == delete_step_spec(exists, discard),
    {
        if !exists {
            DeleteStep::Missing
        } else if !discard {
            DeleteStep::CheckThenRemove
        } else {
            DeleteStep::Remove
        }
    }

    /// A copy with the same view.
    pub fn duplicate(&self) -> (d: Dependency)
        ensures
            d@ == self@,
    {
        Dependency {
            use_: self.use_.clone(),
            name: self.name.clone(),
            parent: self.parent.clone(),
            child: self.child.clone(),
            rev: self.rev.clone(),
            hash: self.hash.clone(),
            is_flavor: self.is_flavor,
        }
    }
}

} // verus!

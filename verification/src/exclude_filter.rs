//! The exclusion rules resolved for one folder, as its listing applies them.

use vstd::prelude::*;
use crate::exclude::{rules_verdict, Exclude, ExcludeView};
use crate::file::{File, FileView};
use crate::files::{rules_in, Files};
use crate::url::{Scheme, Url};

verus! {

pub struct ExcludeFilterView {
    pub rules: Seq<ExcludeView>,
    pub recursive: bool,
}

/// Whether the rules exclude `f`: a whitelist or no match at all keeps it.
pub open spec fn excluded(ex: ExcludeFilterView, f: FileView) -> bool {
    rules_verdict(ex.rules, f.url, f.cha.is_dir, ex.recursive) == Some(true)
}

/// The rules that apply in one folder, in declaration order, and whether its
/// listing is flattened.
pub struct ExcludeFilter {
    rules: Vec<Exclude>,
    recursive: bool,
}

impl View for ExcludeFilter {
    type V = ExcludeFilterView;

    closed spec fn view(&self) -> ExcludeFilterView {
        ExcludeFilterView { rules: self.rules@.map_values(|e: Exclude| e@), recursive: self.recursive }
    }
}

impl ExcludeFilter {
    /// A filter applying `rules`, in order, to a listing that is flattened
    /// when `recursive`.
    pub fn new(rules: Vec<Exclude>, recursive: bool) -> (f: ExcludeFilter)
        ensures
            f@ == (ExcludeFilterView { rules: rules@.map_values(|e: Exclude| e@), recursive }),
    {
        ExcludeFilter { rules, recursive }
    }

    /// The filter for the folder at `folder`: the rules of `files` that apply
    /// there, flattened when the folder is a search listing.
    pub fn for_folder(files: &Files, folder: &Url) -> (f: ExcludeFilter)
        ensures
            f@ == (ExcludeFilterView {
                rules: rules_in(files.rules(), folder@),
                recursive: folder@.scheme == Scheme::Search,
            }),
    {
        let picked = files.excludes_in(folder);
        let mut rules: Vec<Exclude> = Vec::new();
        let mut i: usize = 0;
        while i < picked.len()
            invariant
                i <= picked.len(),
                rules@.map_values(|e: Exclude| e@) == picked@.take(i as int).map_values(|e: &Exclude| e@),
            decreases picked.len() - i,
        {
            let ghost prev = rules@.map_values(|e: Exclude| e@);
            let d = picked[i].duplicate();
            rules.push(d);
            proof {
                assert(rules@.map_values(|e: Exclude| e@) =~= prev.push(picked@[i as int]@));
                assert(picked@.take(i + 1).map_values(|e: &Exclude| e@) =~= picked@.take(
                    i as int,
                ).map_values(|e: &Exclude| e@).push(picked@[i as int]@));
            }
            i += 1;
        }
        proof {
            assert(picked@.take(picked.len() as int) =~= picked@);
        }
        ExcludeFilter { rules, recursive: folder.is_search() }
    }

    /// Whether the rules exclude `file`.
    pub fn matches(&self, file: &File) -> (b: bool)
        ensures
            b == excluded(self@, file@),
    {
        let mut refs: Vec<&Exclude> = Vec::new();
        let mut i: usize = 0;
        while i < self.rules.len()
            invariant
                i <= self.rules.len(),
                refs@.map_values(|e: &Exclude| e@) == self.rules@.take(i as int).map_values(|e: Exclude| e@),
            decreases self.rules.len() - i,
        {
            let ghost prev = refs@.map_values(|e: &Exclude| e@);
            refs.push(&self.rules[i]);
            proof {
                assert(refs@.map_values(|e: &Exclude| e@) =~= prev.push(self.rules@[i as int]@));
                assert(self.rules@.take(i + 1).map_values(|e: Exclude| e@) =~= self.rules@.take(
                    i as int,
                ).map_values(|e: Exclude| e@).push(self.rules@[i as int]@));
            }
            i += 1;
        }
        proof {
            assert(self.rules@.take(self.rules.len() as int) =~= self.rules@);
        }
        match Exclude::verdict(refs.as_slice(), &file.url, file.is_dir(), self.recursive) {
            Some(b) => b,
            None => false,
        }
    }

    /// A copy with the same view.
    pub fn duplicate(&self) -> (f: ExcludeFilter)
        ensures
            f@ == self@,
    {
        let mut rules: Vec<Exclude> = Vec::new();
        let mut i: usize = 0;
        while i < self.rules.len()
            invariant
                i <= self.rules.len(),
                rules@.map_values(|e: Exclude| e@) == self.rules@.take(i as int).map_values(|e: Exclude| e@),
            decreases self.rules.len() - i,
        {
            let ghost prev = rules@.map_values(|e: Exclude| e@);
            let d = self.rules[i].duplicate();
            rules.push(d);
            proof {
                assert(rules@.map_values(|e: Exclude| e@) =~= prev.push(self.rules@[i as int]@));
                assert(self.rules@.take(i + 1).map_values(|e: Exclude| e@) =~= self.rules@.take(
                    i as int,
                ).map_values(|e: Exclude| e@).push(self.rules@[i as int]@));
            }
            i += 1;
        }
        proof {
            assert(self.rules@.take(self.rules.len() as int) =~= self.rules@);
        }
        ExcludeFilter { rules, recursive: self.recursive }
    }
}

/// The folder filter conceals an entry exactly when the folder's rules give
/// it the verdict `Some(true)`: an entry that a `!` glob whitelists
/// (`Some(false)`) or that no rule matches (`None`) is never concealed.
pub proof fn lemma_filter_hides_exactly_the_excluded(ex: ExcludeFilterView, f: FileView)
    ensures
        excluded(ex, f) <==> rules_verdict(ex.rules, f.url, f.cha.is_dir, ex.recursive) == Some(true),
        rules_verdict(ex.rules, f.url, f.cha.is_dir, ex.recursive) == Some(false) ==> !excluded(ex, f),
        rules_verdict(ex.rules, f.url, f.cha.is_dir, ex.recursive) is None ==> !excluded(ex, f),
{
}

} // verus!

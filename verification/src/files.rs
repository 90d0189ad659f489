//! The `[files]` section of the configuration: the exclusion rules, in
//! declaration order.

use vstd::prelude::*;
use crate::exclude::{covers_spec, rules_verdict, Exclude, ExcludeView};
use crate::url::{Scheme, Url, UrlView};

verus! {

/// The rules of `rules` that apply in the folder at `url`, in order.
pub open spec fn rules_in(rules: Seq<ExcludeView>, url: UrlView) -> Seq<ExcludeView>
    decreases rules.len(),
{
    if rules.len() == 0 {
        Seq::empty()
    } else {
        let rest = rules_in(rules.drop_last(), url);
        if covers_spec(rules.last().within, url) {
            rest.push(rules.last())
        } else {
            rest
        }
    }
}

/// Whether a rule applies in the folder at `url`.
pub open spec fn applies_in(url: UrlView) -> spec_fn(Exclude) -> bool {
    |e: Exclude| covers_spec(e@.within, url)
}

/// What the rules say of `url` listed as a directory (`is_dir`) or a file in
/// the folder at `context`: contents globs count in flattened listings only.
pub open spec fn files_verdict(rules: Seq<ExcludeView>, url: UrlView, is_dir: bool, context: UrlView) -> Option<bool> {
    rules_verdict(rules_in(rules, context), url, is_dir, context.scheme == Scheme::Search)
}

pub struct Files {
    pub excludes: Vec<Exclude>,
}

impl Files {
    /// The rules, as their views.
    pub open spec fn rules(&self) -> Seq<ExcludeView> {
        self.excludes@.map_values(|e: Exclude| e@)
    }

    /// The rules that apply in the folder at `url`, in declaration order:
    /// the rules of `self`, each once and in order, whose scope covers `url`.
    pub fn excludes_in(&self, url: &Url) -> (res: Vec<&Exclude>)
        ensures
            res@.map_values(|e: &Exclude| *e) == self.excludes@.filter(applies_in(url@)),
            res@.map_values(|e: &Exclude| e@) == rules_in(self.rules(), url@),
    {
        let ghost rs = self.rules();
        let mut res: Vec<&Exclude> = Vec::new();
        let mut i: usize = 0;
        while i < self.excludes.len()
            invariant
                i <= self.excludes.len(),
                rs == self.rules(),
                res@.map_values(|e: &Exclude| e@) == rules_in(rs.take(i as int), url@),
                res@.map_values(|e: &Exclude| *e) == self.excludes@.take(i as int).filter(
                    applies_in(url@),
                ),
            decreases self.excludes.len() - i,
        {
            proof {
                assert(rs.take(i + 1).drop_last() =~= rs.take(i as int));
                assert(rs.take(i + 1).last() == self.excludes@[i as int]@);
                assert(self.excludes@.take(i + 1).drop_last() =~= self.excludes@.take(i as int));
                assert(self.excludes@.take(i + 1).last() == self.excludes@[i as int]);
            }
            let e = &self.excludes[i];
            let ghost before = res@.map_values(|e: &Exclude| *e);
            proof {
                assert(self.excludes@.take(i + 1) =~= self.excludes@.take(i as int).push(self.excludes@[i as int]));
                self.excludes@.take(i as int).lemma_filter_push(self.excludes@[i as int], applies_in(url@));
            }
            if e.matches_context(url) {
                res.push(e);
                proof {
                    assert(res@.map_values(|e: &Exclude| e@) =~= rules_in(rs.take(i + 1), url@));
                    assert(res@.map_values(|e: &Exclude| *e) =~= before.push(*e));
                }
            }
            i += 1;
        }
        proof {
            assert(rs.take(self.excludes.len() as int) =~= rs);
            assert(self.excludes@.take(self.excludes.len() as int) =~= self.excludes@);
        }
        res
    }

    /// `Some(true)` excluded, `Some(false)` whitelisted, `None` no match, for
    /// `url` listed in the folder at `context`. Resolves the applicable rules
    /// on every call; a caller walking a whole folder should hoist
    /// [`Self::excludes_in`] out of its loop instead.
    pub fn matches(&self, url: &Url, is_dir: bool, context: &Url) -> (res: Option<bool>)
        ensures
            res == files_verdict(self.rules(), url@, is_dir, context@),
    {
        let rules = self.excludes_in(context);
        Exclude::verdict(rules.as_slice(), url, is_dir, context.is_search())
    }
}

} // verus!

//! `package.toml` and the decisions of the package commands: which entries a
//! command finds, adds or drops, and how each outcome is reported.

use vstd::prelude::*;
use crate::dependency::{
    parse_dependency, pinned_spec, same_package, Dependency, DependencyView, PackageError,
};
use crate::tally::{line_is, Outcome, ReportLine, Tally};

verus! {

/// The views of a list of dependencies.
pub open spec fn dep_views(ds: Seq<Dependency>) -> Seq<DependencyView> {
    ds.map_values(|d: Dependency| d@)
}

/// `i` is the first index of `ds` that names the same package as `d`.
pub open spec fn first_same_at(ds: Seq<DependencyView>, d: DependencyView, i: int) -> bool {
    &&& 0 <= i < ds.len()
    &&& same_package(ds[i], d)
    &&& forall|j: int| 0 <= j < i ==> !same_package(#[trigger] ds[j], d)
}

/// Some entry of `ds` names the same package as `d`.
pub open spec fn has_same(ds: Seq<DependencyView>, d: DependencyView) -> bool {
    exists|i: int| 0 <= i < ds.len() && same_package(#[trigger] ds[i], d)
}

/// `i` is the first successful entry of `pending` that names the same
/// package as `d`.
pub open spec fn first_pending_at(pending: Seq<Result<Dependency, PackageError>>, d: DependencyView, i: int) -> bool {
    &&& 0 <= i < pending.len()
    &&& (pending[i] matches Ok(p) && same_package(p@, d))
    &&& forall|j: int|
        0 <= j < i ==> !(#[trigger] pending[j] matches Ok(p) && same_package(p@, d))
}

/// Some successful entry of `pending` names the same package as `d`.
pub open spec fn pending_has(pending: Seq<Result<Dependency, PackageError>>, d: DependencyView) -> bool {
    exists|i: int| 0 <= i < pending.len() && (#[trigger] pending[i] matches Ok(p) && same_package(p@, d))
}

/// `ds` without the entries that name the same package as `d`.
pub open spec fn without(ds: Seq<DependencyView>, d: DependencyView) -> Seq<DependencyView>
    decreases ds.len(),
{
    if ds.len() == 0 {
        Seq::empty()
    } else {
        let rest = without(ds.drop_last(), d);
        if same_package(ds.last(), d) {
            rest
        } else {
            rest.push(ds.last())
        }
    }
}

/// The line that lists `d`: its URL, and its revision in brackets if it has
/// one.
pub open spec fn entry_line(d: DependencyView) -> Seq<char> {
    if d.rev.len() == 0 {
        "\t"@ + d.use_
    } else {
        "\t"@ + d.use_ + " ("@ + d.rev + ")"@
    }
}

/// The listing of `package.toml`: plugins, then flavors.
pub open spec fn listing_spec(plugins: Seq<DependencyView>, flavors: Seq<DependencyView>) -> Seq<Seq<char>> {
    seq!["Plugins:"@] + plugins.map_values(|d: DependencyView| entry_line(d)) + seq!["Flavors:"@]
        + flavors.map_values(|d: DependencyView| entry_line(d))
}

/// Where `package.toml` lives in the configuration directory `dir`.
pub open spec fn toml_path(dir: Seq<char>) -> Seq<char> {
    if dir.len() == 0 || dir.last() == '/' {
        dir + "package.toml"@
    } else {
        dir + "/"@ + "package.toml"@
    }
}

/// The contents of `package.toml`.
pub struct Package {
    pub plugins: Vec<Dependency>,
    pub flavors: Vec<Dependency>,
}

/// Whether `d` is among `uses`, or `uses` is empty and so selects everything.
pub open spec fn selected_spec(uses: Seq<String>, d: DependencyView) -> bool {
    uses.len() == 0 || exists|i: int| 0 <= i < uses.len() && (#[trigger] uses[i])@ == d.use_
}

/// What an upgrade does with one package.
#[derive(Clone, Copy, Debug, PartialEq, Eq, Structural)]
pub enum UpgradeStep {
    /// The upgrade does not cover it: nothing is done or reported.
    Skip,
    /// It is pinned: it stays where it is, its repository untouched, and it
    /// is reported as an upgrade that deployed nothing new.
    KeepPinned,
    /// Its repository is checked, then it moves onto the latest revision.
    Fetch,
}

/// What an upgrade of `uses` does with `d`.
pub open spec fn upgrade_step_spec(uses: Seq<String>, d: DependencyView) -> UpgradeStep {
    if !selected_spec(uses, d) {
        UpgradeStep::Skip
    } else if pinned_spec(d.rev) {
        UpgradeStep::KeepPinned
    } else {
        UpgradeStep::Fetch
    }
}

/// How many entries of `ds` an upgrade of `uses` covers.
pub open spec fn selected_count(uses: Seq<String>, ds: Seq<DependencyView>) -> nat
    decreases ds.len(),
{
    if ds.len() == 0 {
        0
    } else {
        selected_count(uses, ds.drop_last()) + if selected_spec(uses, ds.last()) {
            1nat
        } else {
            0nat
        }
    }
}

/// The entries of `ds` whose repositories an upgrade of `uses` fetches: those
/// it covers that are not pinned, in order.
pub open spec fn fetched(uses: Seq<String>, ds: Seq<DependencyView>) -> Seq<DependencyView>
    decreases ds.len(),
{
    if ds.len() == 0 {
        Seq::empty()
    } else {
        let rest = fetched(uses, ds.drop_last());
        if selected_spec(uses, ds.last()) && !pinned_spec(ds.last().rev) {
            rest.push(ds.last())
        } else {
            rest
        }
    }
}

pub proof fn lemma_selected_count_append(uses: Seq<String>, a: Seq<DependencyView>, b: Seq<DependencyView>)
    ensures
        selected_count(uses, a + b) == selected_count(uses, a) + selected_count(uses, b),
    decreases b.len(),
{
    if b.len() == 0 {
        assert(a + b =~= a);
    } else {
        assert((a + b).drop_last() =~= a + b.drop_last());
        lemma_selected_count_append(uses, a, b.drop_last());
    }
}

pub proof fn lemma_fetched_append(uses: Seq<String>, a: Seq<DependencyView>, b: Seq<DependencyView>)
    ensures
        fetched(uses, a + b) == fetched(uses, a) + fetched(uses, b),
    decreases b.len(),
{
    if b.len() == 0 {
        assert(a + b =~= a);
        assert(fetched(uses, a) + fetched(uses, b) =~= fetched(uses, a));
    } else {
        assert((a + b).drop_last() =~= a + b.drop_last());
        lemma_fetched_append(uses, a, b.drop_last());
        if selected_spec(uses, b.last()) && !pinned_spec(b.last().rev) {
            assert(fetched(uses, a) + fetched(uses, b) =~= (fetched(uses, a) + fetched(uses, b.drop_last())).push(
                b.last(),
            ));
        }
    }
}

/// `q` is `p` after forgetting `d` from the list `d` belongs to.
pub open spec fn forgets(p: Package, q: Package, d: DependencyView) -> bool {
    &&& d.is_flavor ==> dep_views(q.flavors@) == without(dep_views(p.flavors@), d) && q.plugins@ == p.plugins@
    &&& !d.is_flavor ==> dep_views(q.plugins@) == without(dep_views(p.plugins@), d) && q.flavors@ == p.flavors@
}

/// `q` is `p` after adopting `d` into the list it belongs to.
pub open spec fn adopts(p: Package, q: Package, d: Dependency) -> bool {
    &&& d.is_flavor ==> q.flavors@ == p.flavors@.push(d) && q.plugins@ == p.plugins@
    &&& !d.is_flavor ==> q.plugins@ == p.plugins@.push(d) && q.flavors@ == p.flavors@
}

/// `u` counts one more change than `t`, and nothing else differs.
pub open spec fn one_more_changed(t: Tally, u: Tally) -> bool {
    u.changed == t.changed + 1 && u.unchanged == t.unchanged && u.failed == t.failed
}

/// `u` counts one more unchanged package than `t`, and nothing else differs.
pub open spec fn one_more_unchanged(t: Tally, u: Tally) -> bool {
    u.changed == t.changed && u.unchanged == t.unchanged + 1 && u.failed == t.failed
}

/// `u` counts one more failure than `t`, and nothing else differs.
pub open spec fn one_more_failed(t: Tally, u: Tally) -> bool {
    u.changed == t.changed && u.unchanged == t.unchanged && u.failed == t.failed + 1
}

/// Appends the entries of `ds` that an upgrade of `uses` fetches.
fn push_fetched(out: &mut Vec<Dependency>, ds: &Vec<Dependency>, uses: &[String])
    ensures
        dep_views(final(out)@) == dep_views(old(out)@) + fetched(uses@, dep_views(ds@)),
{
    let ghost start = dep_views(out@);
    let mut i: usize = 0;
    while i < ds.len()
        invariant
            i <= ds.len(),
            dep_views(out@) == start + fetched(uses@, dep_views(ds@.take(i as int))),
        decreases ds.len() - i,
    {
        let d = &ds[i];
        proof {
            assert(dep_views(ds@.take(i + 1)) =~= dep_views(ds@.take(i as int)).push(d@));
            assert(dep_views(ds@.take(i + 1)).drop_last() =~= dep_views(ds@.take(i as int)));
        }
        if Package::selected(uses, d) && !d.pinned() {
            let ghost before = dep_views(out@);
            out.push(d.duplicate());
            proof {
                assert(dep_views(out@) =~= before.push(d@));
            }
        }
        i += 1;
    }
    proof {
        assert(ds@.take(ds.len() as int) =~= ds@);
    }
}

/// Looks through `ds` for the first entry naming the same package as `other`.
fn find_in<'a>(ds: &'a Vec<Dependency>, other: &Dependency) -> (res: Option<&'a Dependency>)
    ensures
        match res {
            Some(d) => exists|i: int| first_same_at(dep_views(ds@), other@, i) && d@ == ds@[i]@,
            None => !has_same(dep_views(ds@), other@),
        },
{
    let mut i: usize = 0;
    while i < ds.len()
        invariant
            i <= ds.len(),
            forall|j: int| 0 <= j < i ==> !same_package(#[trigger] dep_views(ds@)[j], other@),
        decreases ds.len() - i,
    {
        if ds[i].identical(other) {
            assert(first_same_at(dep_views(ds@), other@, i as int));
            return Some(&ds[i]);
        }
        i += 1;
    }
    None
}

impl Package {
    /// Every entry: plugins, then flavors.
    pub open spec fn all(&self) -> Seq<DependencyView> {
        dep_views(self.plugins@) + dep_views(self.flavors@)
    }

    /// Builds the package list from the two lists of `package.toml`; every
    /// entry of the second is a flavor.
    pub fn from_lists(plugins: Vec<Dependency>, flavors: Vec<Dependency>) -> (p: Package)
        ensures
            p.plugins@ == plugins@,
            p.flavors@.len() == flavors@.len(),
            forall|i: int|
                0 <= i < flavors@.len() ==> (#[trigger] p.flavors@[i])@ == (DependencyView {
                    is_flavor: true,
                    ..flavors@[i]@
                }),
    {
        let mut fl: Vec<Dependency> = Vec::new();
        let mut rest = flavors;
        let ghost orig = rest@;
        while rest.len() > 0
            invariant
                fl@.len() + rest@.len() == orig.len(),
                forall|k: int| 0 <= k < rest@.len() ==> rest@[k] == orig[fl@.len() + k],
                forall|k: int|
                    0 <= k < fl@.len() ==> (#[trigger] fl@[k])@ == (DependencyView {
                        is_flavor: true,
                        ..orig[k]@
                    }),
            decreases rest@.len(),
        {
            let mut d = rest.remove(0);
            d.is_flavor = true;
            fl.push(d);
        }
        Package { plugins, flavors: fl }
    }

    /// The entry that names the same package as `other`, plugins first.
    pub fn identical(&self, other: &Dependency) -> (res: Option<&Dependency>)
        ensures
            match res {
                Some(d) => exists|i: int| first_same_at(self.all(), other@, i) && d@ == self.all()[i],
                None => !has_same(self.all(), other@),
            },
    {
        let ghost p = dep_views(self.plugins@);
        let ghost f = dep_views(self.flavors@);
        proof {
            assert(self.all() =~= p + f);
        }
        match find_in(&self.plugins, other) {
            Some(d) => {
                proof {
                    let i = choose|i: int| first_same_at(p, other@, i) && d@ == self.plugins@[i]@;
                    assert(self.all()[i] == p[i]);
                    assert(first_same_at(self.all(), other@, i));
                }
                Some(d)
            },
            None => match find_in(&self.flavors, other) {
                Some(d) => {
                    proof {
                        let i = choose|i: int| first_same_at(f, other@, i) && d@ == self.flavors@[i]@;
                        let k = p.len() + i;
                        assert(self.all()[k] == f[i]);
                        assert forall|j: int| 0 <= j < k implies !same_package(
                            #[trigger] self.all()[j],
                            other@,
                        ) by {
                            if j < p.len() {
                                assert(self.all()[j] == p[j]);
                            } else {
                                assert(self.all()[j] == f[j - p.len()]);
                            }
                        }
                        assert(first_same_at(self.all(), other@, k));
                    }
                    Some(d)
                },
                None => {
                    proof {
                        assert forall|j: int| 0 <= j < self.all().len() implies !same_package(
                            #[trigger] self.all()[j],
                            other@,
                        ) by {
                            if j < p.len() {
                                assert(self.all()[j] == p[j]);
                            } else {
                                assert(self.all()[j] == f[j - p.len()]);
                            }
                        }
                    }
                    None
                },
            },
        }
    }

    /// Parses a package URL, rejecting it if `package.toml` or the rest of the
    /// same batch already covers it.
    pub fn resolve(&self, pending: &[Result<Dependency, PackageError>], use_: &str) -> (res: Result<Dependency, PackageError>)
        ensures
            match parse_dependency(use_@) {
                None => res matches Err(PackageError::BadUrl { url }) && url@ == use_@,
                Some(d) => if has_same(self.all(), d) {
                    res matches Err(PackageError::Exists { flavor, name }) && name@ == d.name
                        && exists|i: int| first_same_at(self.all(), d, i) && flavor == self.all()[i].is_flavor
                } else if pending_has(pending@, d) {
                    res matches Err(PackageError::Exists { flavor, name }) && name@ == d.name
                        && exists|i: int|
                        first_pending_at(pending@, d, i) && (pending@[i] matches Ok(p) && flavor
                            == p.is_flavor)
                } else {
                    res matches Ok(r) && r@ == d
                },
            },
    {
        let dep = match Dependency::from_str(use_) {
            Ok(d) => d,
            Err(e) => return Err(e),
        };
        match self.identical(&dep) {
            Some(d) => {
                return Err(PackageError::Exists { flavor: d.is_flavor, name: dep.name });
            },
            None => {},
        }
        let mut i: usize = 0;
        while i < pending.len()
            invariant
                i <= pending@.len(),
                !has_same(self.all(), dep@),
                parse_dependency(use_@) == Some(dep@),
                forall|j: int|
                    0 <= j < i ==> !(#[trigger] pending@[j] matches Ok(p) && same_package(p@, dep@)),
            decreases pending@.len() - i,
        {
            match &pending[i] {
                Ok(p) => {
                    if p.identical(&dep) {
                        proof {
                            assert(first_pending_at(pending@, dep@, i as int));
                        }
                        return Err(PackageError::Exists { flavor: p.is_flavor, name: dep.name });
                    }
                },
                Err(_) => {},
            }
            i += 1;
        }
        Ok(dep)
    }

    /// The entry that `use_` names, for deleting it.
    pub fn locate(&self, use_: &str) -> (res: Result<Dependency, PackageError>)
        ensures
            match parse_dependency(use_@) {
                None => res matches Err(PackageError::BadUrl { url }) && url@ == use_@,
                Some(d) => if has_same(self.all(), d) {
                    res matches Ok(r) && exists|i: int| first_same_at(self.all(), d, i) && r@ == self.all()[i]
                } else {
                    res matches Err(PackageError::Missing { url }) && url@ == use_@
                },
            },
    {
        let dep = match Dependency::from_str(use_) {
            Ok(d) => d,
            Err(e) => return Err(e),
        };
        match self.identical(&dep) {
            Some(d) => Ok(d.duplicate()),
            None => Err(PackageError::Missing { url: String::from_str(use_) }),
        }
    }

    /// Drops every entry that names the same package as `dep` from the list
    /// `dep` belongs to.
    pub fn forget(&mut self, dep: &Dependency)
        ensures
            dep.is_flavor ==> dep_views(final(self).flavors@) == without(dep_views(old(self).flavors@), dep@)
                && final(self).plugins@ == old(self).plugins@,
            !dep.is_flavor ==> dep_views(final(self).plugins@) == without(dep_views(old(self).plugins@), dep@)
                && final(self).flavors@ == old(self).flavors@,
    {
        if dep.is_flavor {
            let mut list: Vec<Dependency> = Vec::new();
            std::mem::swap(&mut list, &mut self.flavors);
            self.flavors = retain_other(list, dep);
        } else {
            let mut list: Vec<Dependency> = Vec::new();
            std::mem::swap(&mut list, &mut self.plugins);
            self.plugins = retain_other(list, dep);
        }
    }

    /// Records a package that was just added, in the list it belongs to.
    pub fn adopt(&mut self, dep: Dependency)
        ensures
            dep.is_flavor ==> final(self).flavors@ == old(self).flavors@.push(dep) && final(self).plugins@
                == old(self).plugins@,
            !dep.is_flavor ==> final(self).plugins@ == old(self).plugins@.push(dep) && final(self).flavors@
                == old(self).flavors@,
    {
        if dep.is_flavor {
            self.flavors.push(dep);
        } else {
            self.plugins.push(dep);
        }
    }

    /// Whether an upgrade of `uses` covers `d`: all packages when `uses` is
    /// empty.
    pub fn selected(uses: &[String], d: &Dependency) -> (b: bool)
        ensures
            b == selected_spec(uses@, d@),
    {
        if uses.len() == 0 {
            return true;
        }
        let mut i: usize = 0;
        while i < uses.len()
            invariant
                i <= uses@.len(),
                uses@.len() > 0,
                forall|j: int| 0 <= j < i ==> (#[trigger] uses@[j])@ != d.use_@,
            decreases uses@.len() - i,
        {
            if uses[i] == d.use_ {
                return true;
            }
            i += 1;
        }
        false
    }

    /// The lines that `ya pkg list` prints.
    pub fn listing(&self) -> (lines: Vec<String>)
        ensures
            lines@.map_values(|l: String| l@) == listing_spec(dep_views(self.plugins@), dep_views(self.flavors@)),
    {
        let mut lines: Vec<String> = Vec::new();
        lines.push(String::from_str("Plugins:"));
        let ghost p = dep_views(self.plugins@).map_values(|d: DependencyView| entry_line(d));
        let ghost f = dep_views(self.flavors@).map_values(|d: DependencyView| entry_line(d));
        proof {
            assert(lines@.map_values(|l: String| l@) =~= seq!["Plugins:"@]);
        }
        push_lines(&mut lines, &self.plugins);
        let ghost a = lines@.map_values(|l: String| l@);
        lines.push(String::from_str("Flavors:"));
        proof {
            assert(lines@.map_values(|l: String| l@) =~= a.push("Flavors:"@));
        }
        push_lines(&mut lines, &self.flavors);
        proof {
            assert(lines@.map_values(|l: String| l@) =~= seq!["Plugins:"@] + p + seq!["Flavors:"@] + f);
        }
        lines
    }

    /// Records how adding the package named `use_` went: an added package joins
    /// the list it belongs to and is reported as added, a failure is reported
    /// with its reason and changes nothing.
    pub fn added(&mut self, tally: &mut Tally, use_: &str, outcome: Result<Dependency, String>) -> (l: ReportLine)
        requires
            old(tally).changed < usize::MAX,
            old(tally).failed < usize::MAX,
        ensures
            match outcome {
                Ok(d) => line_is(l, Outcome::Done, "Added"@, d.name@ + " "@ + d.rev@)
                    && one_more_changed(*old(tally), *final(tally))
                    && adopts(*old(self), *final(self), d),
                Err(reason) => line_is(l, Outcome::Fail, "Failed"@, use_@ + ": "@ + reason@)
                    && one_more_failed(*old(tally), *final(tally))
                    && *final(self) == *old(self),
            },
    {
        match outcome {
            Ok(d) => {
                let mut body = d.name.clone();
                body.append(" ");
                body.append(d.rev.as_str());
                let l = tally.change("Added", body);
                self.adopt(d);
                l
            },
            Err(reason) => tally.fail(use_, reason.as_str()),
        }
    }

    /// Records how deleting `dep`, the entry that `use_` named, went: its files
    /// were removed (`Ok(true)`) or were already gone (`Ok(false)`), and either
    /// way it leaves `package.toml`; a failure is reported against `use_` and
    /// keeps the entry.
    pub fn deleted(&mut self, tally: &mut Tally, use_: &str, dep: &Dependency, outcome: &Result<bool, String>) -> (l: ReportLine)
        requires
            old(tally).changed < usize::MAX,
            old(tally).unchanged < usize::MAX,
            old(tally).failed < usize::MAX,
        ensures
            match outcome {
                Ok(true) => line_is(l, Outcome::Done, "Deleted"@, dep.name@)
                    && one_more_changed(*old(tally), *final(tally))
                    && forgets(*old(self), *final(self), dep@),
                Ok(false) => line_is(l, Outcome::Noop, "Missing"@, dep.name@)
                    && one_more_unchanged(*old(tally), *final(tally))
                    && forgets(*old(self), *final(self), dep@),
                Err(reason) => line_is(l, Outcome::Fail, "Failed"@, use_@ + ": "@ + reason@)
                    && one_more_failed(*old(tally), *final(tally))
                    && *final(self) == *old(self),
            },
    {
        match outcome {
            Ok(removed) => {
                let l = if *removed {
                    tally.change("Deleted", dep.name.clone())
                } else {
                    tally.keep("Missing", dep.name.clone())
                };
                self.forget(dep);
                l
            },
            Err(reason) => tally.fail(use_, reason.as_str()),
        }
    }

    /// What an upgrade of `uses` does with `dep`: skips it when not covered,
    /// keeps it in place when pinned, and otherwise fetches and moves it.
    pub fn upgrade_step(uses: &[String], dep: &Dependency) -> (a: UpgradeStep)
        ensures
            a == upgrade_step_spec(uses@, dep@),
    {
        if !Package::selected(uses, dep) {
            UpgradeStep::Skip
        } else if dep.pinned() {
            UpgradeStep::KeepPinned
        } else {
            UpgradeStep::Fetch
        }
    }

    /// How many packages an upgrade of `uses` covers: all of them when `uses`
    /// is empty.
    pub fn upgrade_total(&self, uses: &[String]) -> (n: usize)
        requires
            self.plugins@.len() + self.flavors@.len() <= usize::MAX,
        ensures
            n == selected_count(uses@, self.all()),
    {
        let ghost p = dep_views(self.plugins@);
        let ghost f = dep_views(self.flavors@);
        let mut n: usize = 0;
        let mut i: usize = 0;
        while i < self.plugins.len()
            invariant
                p == dep_views(self.plugins@),
                i <= self.plugins.len(),
                n == selected_count(uses@, p.take(i as int)),
                n <= i,
            decreases self.plugins.len() - i,
        {
            proof {
                assert(p.take(i + 1).drop_last() =~= p.take(i as int));
            }
            if Package::selected(uses, &self.plugins[i]) {
                n += 1;
            }
            i += 1;
        }
        proof {
            assert(p.take(p.len() as int) =~= p);
            assert(f.take(0) =~= Seq::<DependencyView>::empty());
        }
        let mut j: usize = 0;
        while j < self.flavors.len()
            invariant
                p == dep_views(self.plugins@),
                f == dep_views(self.flavors@),
                self.plugins@.len() + self.flavors@.len() <= usize::MAX,
                j <= self.flavors.len(),
                n == selected_count(uses@, p) + selected_count(uses@, f.take(j as int)),
                n <= self.plugins.len() + j,
            decreases self.flavors.len() - j,
        {
            proof {
                assert(f.take(j + 1).drop_last() =~= f.take(j as int));
            }
            if Package::selected(uses, &self.flavors[j]) {
                n += 1;
            }
            j += 1;
        }
        proof {
            assert(f.take(f.len() as int) =~= f);
            lemma_selected_count_append(uses@, p, f);
        }
        n
    }

    /// The packages whose repositories an upgrade of `uses` fetches, plugins
    /// first: those it covers, less the pinned ones, which stay where they are.
    pub fn upgrade_fetches(&self, uses: &[String]) -> (v: Vec<Dependency>)
        ensures
            dep_views(v@) == fetched(uses@, self.all()),
    {
        let mut v: Vec<Dependency> = Vec::new();
        push_fetched(&mut v, &self.plugins, uses);
        push_fetched(&mut v, &self.flavors, uses);
        proof {
            assert(dep_views(Seq::<Dependency>::empty()) =~= Seq::<DependencyView>::empty());
            lemma_fetched_append(uses@, dep_views(self.plugins@), dep_views(self.flavors@));
            assert(Seq::<DependencyView>::empty() + fetched(uses@, dep_views(self.plugins@)) =~= fetched(
                uses@,
                dep_views(self.plugins@),
            ));
        }
        v
    }

    /// Where `package.toml` lives, given the configuration directory.
    pub fn toml(config_dir: &str) -> (path: String)
        ensures
            path@ == toml_path(config_dir@),
    {
        let n = config_dir.unicode_len();
        let mut path = String::from_str(config_dir);
        if n > 0 && config_dir.get_char(n - 1) != '/' {
            path.append("/");
        }
        path.append("package.toml");
        path
    }
}

/// `list` without the entries that name the same package as `dep`, order kept.
fn retain_other(list: Vec<Dependency>, dep: &Dependency) -> (res: Vec<Dependency>)
    ensures
        dep_views(res@) == without(dep_views(list@), dep@),
{
    let ghost orig = list@;
    let mut rest = list;
    let mut kept: Vec<Dependency> = Vec::new();
    let ghost mut done: Seq<Dependency> = Seq::empty();
    while rest.len() > 0
        invariant
            done + rest@ == orig,
            dep_views(kept@) == without(dep_views(done), dep@),
        decreases rest@.len(),
    {
        let d = rest.remove(0);
        proof {
            let nd = done.push(d);
            assert(dep_views(nd).drop_last() =~= dep_views(done));
            assert(nd + rest@ =~= orig);
            done = nd;
        }
        if !d.identical(dep) {
            kept.push(d);
        }
        proof {
            assert(dep_views(kept@) =~= without(dep_views(done), dep@));
        }
    }
    proof {
        assert(done =~= orig);
    }
    kept
}

/// Appends the listing line of every entry of `ds`.
fn push_lines(lines: &mut Vec<String>, ds: &Vec<Dependency>)
    ensures
        final(lines)@.map_values(|l: String| l@) == old(lines)@.map_values(|l: String| l@) + dep_views(ds@).map_values(
            |d: DependencyView| entry_line(d),
        ),
{
    let ghost start = lines@.map_values(|l: String| l@);
    let mut i: usize = 0;
    while i < ds.len()
        invariant
            i <= ds.len(),
            lines@.map_values(|l: String| l@) == start + dep_views(ds@.take(i as int)).map_values(
                |d: DependencyView| entry_line(d),
            ),
        decreases ds.len() - i,
    {
        let d = &ds[i];
        let mut line = String::from_str("\t");
        line.append(d.use_.as_str());
        if d.rev.as_str().unicode_len() > 0 {
            line.append(" (");
            line.append(d.rev.as_str());
            line.append(")");
        }
        proof {
            assert(line@ == entry_line(d@));
        }
        let ghost before = lines@.map_values(|l: String| l@);
        lines.push(line);
        proof {
            assert(lines@.map_values(|l: String| l@) =~= before.push(entry_line(d@)));
            assert(dep_views(ds@.take(i + 1)) =~= dep_views(ds@.take(i as int)).push(ds@[i as int]@));
            assert(dep_views(ds@.take(i + 1)).map_values(|d: DependencyView| entry_line(d))
                =~= dep_views(ds@.take(i as int)).map_values(|d: DependencyView| entry_line(d)).push(
                entry_line(ds@[i as int]@),
            ));
        }
        i += 1;
    }
    proof {
        assert(ds@.take(ds.len() as int) =~= ds@);
    }
}

/// Forgetting a package leaves no entry that names it, and keeps every other
/// entry.
pub proof fn lemma_forget_removes(ds: Seq<DependencyView>, d: DependencyView)
    ensures
        !has_same(without(ds, d), d),
        forall|i: int| 0 <= i < without(ds, d).len() ==> ds.contains(#[trigger] without(ds, d)[i]),
        forall|i: int| 0 <= i < ds.len() && !same_package(#[trigger] ds[i], d) ==> without(ds, d).contains(ds[i]),
    decreases ds.len(),
{
    if ds.len() > 0 {
        let p = ds.drop_last();
        lemma_forget_removes(p, d);
        let w = without(ds, d);
        let wp = without(p, d);
        assert forall|i: int| 0 <= i < w.len() implies ds.contains(#[trigger] w[i]) by {
            if i < wp.len() {
                assert(w[i] == wp[i]);
                let j = choose|j: int| 0 <= j < p.len() && p[j] == wp[i];
                assert(ds[j] == p[j]);
            } else {
                assert(w[i] == ds.last());
                assert(ds[ds.len() - 1] == ds.last());
            }
        }
        assert forall|i: int| 0 <= i < ds.len() && !same_package(#[trigger] ds[i], d) implies w.contains(ds[i]) by {
            if i < p.len() {
                assert(ds[i] == p[i]);
                let j = choose|j: int| 0 <= j < wp.len() && wp[j] == p[i];
                assert(w[j] == wp[j]);
            } else {
                assert(w[w.len() - 1] == ds[i]);
            }
        }
        assert forall|i: int| 0 <= i < w.len() implies !same_package(#[trigger] w[i], d) by {
            if i < wp.len() {
                assert(w[i] == wp[i]);
            }
        }
    }
}

/// A package just adopted is found again.
pub proof fn lemma_adopted_is_found(ds: Seq<DependencyView>, d: DependencyView)
    ensures
        has_same(ds.push(d), d),
{
    assert(ds.push(d)[ds.len() as int] == d);
}

} // verus!

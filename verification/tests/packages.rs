//! The package manager's bookkeeping: reading package URLs, what each command
//! finds, adds and drops, and how the outcomes are reported.

use yazi_excludes::dependency::{DeleteStep, Dependency, PackageError};
use yazi_excludes::fetcher::Fetcher;
use yazi_excludes::package::{Package, UpgradeStep};
use yazi_excludes::tally::{Outcome, Report, ReportLine, Tally};

fn dep(url: &str) -> Dependency {
    match Dependency::from_str(url) {
        Ok(d) => d,
        Err(e) => panic!("{}", e.message()),
    }
}

fn with_rev(url: &str, rev: &str) -> Dependency {
    let mut d = dep(url);
    d.rev = rev.to_string();
    d
}

fn flavor(url: &str) -> Dependency {
    let mut d = dep(url);
    d.is_flavor = true;
    d
}

fn uses(list: &[&str]) -> Vec<String> {
    list.iter().map(|s| s.to_string()).collect()
}

fn line(l: &ReportLine) -> (Outcome, String, String) {
    (l.outcome, l.verb.clone(), l.body.clone())
}

fn message(r: Result<Dependency, PackageError>) -> String {
    match r {
        Ok(d) => panic!("unexpectedly found {}", d.use_),
        Err(e) => e.message(),
    }
}

#[test]
fn a_package_url_names_a_repository_and_maybe_a_child() {
    let d = dep("owner/repo");
    assert_eq!((d.parent.as_str(), d.child.as_str(), d.name.as_str()), ("owner/repo", "", "repo"));

    let d = dep("owner/mono:plugin");
    assert_eq!((d.parent.as_str(), d.child.as_str(), d.name.as_str()), ("owner/mono", "plugin", "plugin"));
    assert_eq!(d.use_, "owner/mono:plugin");
    assert!(d.rev.is_empty() && !d.is_flavor);
}

#[test]
fn a_package_url_without_an_owner_is_refused() {
    assert_eq!(
        message(Dependency::from_str("repo:owner/child")),
        "Package URL `repo:owner/child` must be in the format `owner/repository`"
    );
}

#[test]
fn children_of_one_repository_are_different_packages() {
    assert!(dep("o/r:a").identical(&dep("o/r:a")));
    assert!(!dep("o/r:a").identical(&dep("o/r:b")));
    assert!(!dep("o/r").identical(&dep("o/r:a")));
}

#[test]
fn a_leading_equals_pins_the_revision() {
    assert!(with_rev("o/r", "=abc").pinned());
    assert!(!with_rev("o/r", "abc").pinned());
    assert!(!dep("o/r").pinned());
}

#[test]
fn flavors_are_marked_as_they_are_read() {
    let p = Package::from_lists(vec![dep("o/a")], vec![dep("o/b")]);
    assert!(!p.plugins[0].is_flavor);
    assert!(p.flavors[0].is_flavor);
}

#[test]
fn resolving_refuses_what_is_already_there() {
    let p = Package::from_lists(vec![dep("o/a")], vec![dep("o/b")]);
    assert_eq!(message(p.resolve(&[], "o/a")), "Plugin `a` already exists in package.toml");
    assert_eq!(message(p.resolve(&[], "o/b")), "Flavor `b` already exists in package.toml");
    assert_eq!(message(p.resolve(&[], "bad")), "Package URL `bad` must be in the format `owner/repository`");

    let pending = vec![Ok(flavor("o/c")), Err(PackageError::BadUrl { url: "x".to_string() })];
    assert_eq!(message(p.resolve(&pending, "o/c")), "Flavor `c` already exists in package.toml");

    match p.resolve(&pending, "o/d") {
        Ok(d) => assert_eq!(d.name, "d"),
        Err(e) => panic!("{}", e.message()),
    }
}

#[test]
fn locating_finds_the_entry_or_says_it_is_missing() {
    let p = Package::from_lists(vec![with_rev("o/a", "r1")], vec![]);
    match p.locate("o/a") {
        Ok(d) => assert_eq!(d.rev, "r1"),
        Err(e) => panic!("{}", e.message()),
    }
    assert_eq!(message(p.locate("o/z")), "`o/z` was not found in package.toml");
}

#[test]
fn forgetting_removes_every_entry_of_the_package() {
    let mut p = Package::from_lists(vec![dep("o/a"), dep("o/b"), dep("o/a")], vec![flavor("o/a")]);
    p.forget(&dep("o/a"));
    let left: Vec<&str> = p.plugins.iter().map(|d| d.use_.as_str()).collect();
    assert_eq!(left, ["o/b"]);
    assert_eq!(p.flavors.len(), 1);
}

#[test]
fn an_adopted_package_is_found_again() {
    let mut p = Package::from_lists(vec![], vec![]);
    p.adopt(flavor("o/f"));
    assert!(p.identical(&dep("o/f")).is_some());
    assert_eq!(p.flavors.len(), 1);
    assert!(p.plugins.is_empty());
}

#[test]
fn the_listing_shows_plugins_then_flavors() {
    let p = Package::from_lists(vec![with_rev("o/a", "r1"), dep("o/b")], vec![dep("o/c")]);
    assert_eq!(p.listing(), ["Plugins:", "\to/a (r1)", "\to/b", "Flavors:", "\to/c"]);
}

#[test]
fn package_toml_sits_in_the_configuration_directory() {
    assert_eq!(Package::toml("/home/u/.config/yazi"), "/home/u/.config/yazi/package.toml");
    assert_eq!(Package::toml("/cfg/"), "/cfg/package.toml");
}

#[test]
fn an_upgrade_covers_what_it_names_and_fetches_the_unpinned() {
    let p = Package::from_lists(
        vec![with_rev("o/a", "=r1"), with_rev("o/b", "r2")],
        vec![with_rev("o/c", "r3")],
    );
    assert_eq!(p.upgrade_total(&[]), 3);
    assert_eq!(p.upgrade_total(&uses(&["o/a", "o/c"])), 2);

    let all: Vec<String> = p.upgrade_fetches(&[]).into_iter().map(|d| d.use_).collect();
    assert_eq!(all, ["o/b", "o/c"]);
    let some: Vec<String> = p.upgrade_fetches(&uses(&["o/a", "o/c"])).into_iter().map(|d| d.use_).collect();
    assert_eq!(some, ["o/c"]);
    assert!(Package::selected(&[], &dep("o/x")));
    assert!(!Package::selected(&uses(&["o/a"]), &dep("o/x")));
}

#[test]
fn each_package_gets_its_upgrade_step() {
    let covered = uses(&["o/a", "o/b"]);
    assert_eq!(Package::upgrade_step(&covered, &with_rev("o/a", "=r1")), UpgradeStep::KeepPinned);
    assert_eq!(Package::upgrade_step(&covered, &with_rev("o/b", "r2")), UpgradeStep::Fetch);
    assert_eq!(Package::upgrade_step(&covered, &with_rev("o/c", "r3")), UpgradeStep::Skip);
    assert_eq!(Package::upgrade_step(&[], &dep("o/c")), UpgradeStep::Fetch);
}

#[test]
fn an_added_package_joins_its_list_and_a_failure_changes_nothing() {
    let mut p = Package::from_lists(vec![], vec![]);
    let mut t = Tally::new();
    let l = p.added(&mut t, "o/a", Ok(with_rev("o/a", "r1")));
    assert_eq!(line(&l), (Outcome::Done, "Added".to_string(), "a r1".to_string()));
    assert_eq!(p.plugins.len(), 1);

    let l = p.added(&mut t, "o/b", Err("no network".to_string()));
    assert_eq!(line(&l), (Outcome::Fail, "Failed".to_string(), "o/b: no network".to_string()));
    assert_eq!(p.plugins.len(), 1);
    assert_eq!((t.changed, t.unchanged, t.failed), (1, 0, 1));
}

#[test]
fn a_deleted_package_leaves_package_toml_even_when_already_gone() {
    let mut p = Package::from_lists(vec![dep("o/a"), dep("o/b")], vec![]);
    let mut t = Tally::new();
    let a = dep("o/a");
    let l = p.deleted(&mut t, "o/a", &a, &Ok(false));
    assert_eq!(line(&l), (Outcome::Noop, "Missing".to_string(), "a".to_string()));
    assert_eq!(p.plugins.len(), 1);

    let b = dep("o/b");
    let l = p.deleted(&mut t, "o/b", &b, &Err("busy".to_string()));
    assert_eq!(line(&l), (Outcome::Fail, "Failed".to_string(), "o/b: busy".to_string()));
    assert_eq!(p.plugins.len(), 1);

    let l = p.deleted(&mut t, "o/b", &b, &Ok(true));
    assert_eq!(line(&l), (Outcome::Done, "Deleted".to_string(), "b".to_string()));
    assert!(p.plugins.is_empty());
    assert_eq!((t.changed, t.unchanged, t.failed), (1, 1, 1));
}

#[test]
fn the_heading_counts_packages() {
    assert_eq!(line(&Tally::heading("Installing", 1)).2, "1 package");
    assert_eq!(line(&Tally::heading("Installing", 0)).2, "0 packages");
    assert_eq!(line(&Tally::heading("Upgrading", 12)), (Outcome::Done, "Upgrading".to_string(), "12 packages".to_string()));
}

#[test]
fn an_install_is_reported_by_what_it_did() {
    let mut t = Tally::new();
    let d = with_rev("o/a", "r1");
    assert_eq!(line(&t.installed(&d, &Ok(true))), (Outcome::Done, "Installed".to_string(), "a r1".to_string()));
    assert_eq!(line(&t.installed(&d, &Ok(false))), (Outcome::Noop, "Unchanged".to_string(), "a r1".to_string()));
    assert_eq!(line(&t.installed(&d, &Err("e".to_string()))), (Outcome::Fail, "Failed".to_string(), "a: e".to_string()));
    assert_eq!((t.changed, t.unchanged, t.failed), (1, 1, 1));
}

#[test]
fn an_upgrade_is_reported_by_how_the_revision_moved() {
    let mut t = Tally::new();
    let pinned = with_rev("o/p", "=r0");
    assert_eq!(line(&t.upgraded(&pinned, "=r0", false)), (Outcome::Noop, "Pinned".to_string(), "p =r0".to_string()));

    let fresh = with_rev("o/f", "r2");
    assert_eq!(line(&t.upgraded(&fresh, "r1", true)), (Outcome::Done, "Installed".to_string(), "f r2".to_string()));
    assert_eq!(line(&t.upgraded(&fresh, "", false)), (Outcome::Done, "Installed".to_string(), "f r2".to_string()));
    assert_eq!(line(&t.upgraded(&fresh, "r2", false)), (Outcome::Noop, "Unchanged".to_string(), "f r2".to_string()));
    assert_eq!(line(&t.upgraded(&fresh, "r1", false)), (Outcome::Done, "Upgraded".to_string(), "f r1 -> r2".to_string()));
    assert_eq!((t.changed, t.unchanged, t.failed), (3, 2, 0));
}

#[test]
fn the_summary_leaves_out_zero_counts_and_fails_on_any_failure() {
    let t = Tally { changed: 2, unchanged: 0, failed: 1 };
    let (l, failed) = t.finish("upgraded");
    assert_eq!(line(&l), (Outcome::Done, "Finished".to_string(), "2 upgraded, 1 failed".to_string()));
    assert!(failed);

    let (l, failed) = Tally::new().finish("added");
    assert_eq!(l.body, "");
    assert!(!failed);

    let t = Tally { changed: 0, unchanged: 3, failed: 0 };
    assert_eq!(t.finish("installed").0.body, "3 unchanged");
}

#[test]
fn a_failure_names_its_package_and_reason() {
    let mut t = Tally::new();
    let l = t.fail("o/a", "could not clone");
    assert_eq!(line(&l), (Outcome::Fail, "Failed".to_string(), "o/a: could not clone".to_string()));
}

#[test]
fn verbs_right_align_and_bodies_stay_in_their_column() {
    let (verb, body) = Report::columns("Added", "a r1\n");
    assert_eq!(verb, "       Added");
    assert_eq!(body, "a r1");

    let (_, body) = Report::columns("Failed", "x: git said\nfatal: no\n\n");
    assert_eq!(body, "x: git said\n             fatal: no");

    let (verb, _) = Report::columns("Extraordinarily", "");
    assert_eq!(verb, "Extraordinarily");
}

#[test]
fn deleting_checks_the_hash_unless_changes_are_discarded() {
    assert_eq!(Dependency::delete_step(false, false), DeleteStep::Missing);
    assert_eq!(Dependency::delete_step(false, true), DeleteStep::Missing);
    assert_eq!(Dependency::delete_step(true, false), DeleteStep::CheckThenRemove);
    assert_eq!(Dependency::delete_step(true, true), DeleteStep::Remove);
}

#[test]
fn user_data_left_behind_is_reported() {
    assert_eq!(
        line(&Report::preserved("/cfg/plugins/a.yazi")),
        (Outcome::Noop, "Preserved".to_string(), "user data in /cfg/plugins/a.yazi, delete it manually".to_string())
    );
}

#[test]
fn a_shared_repository_is_fetched_once() {
    let mut repos = Fetcher::repos(vec![
        ("/r/mono".to_string(), "https://x/mono".to_string()),
        ("/r/one".to_string(), "https://x/one".to_string()),
        ("/r/mono".to_string(), "https://x/mono".to_string()),
    ]);
    repos.sort();
    assert_eq!(
        repos,
        [("/r/mono".to_string(), "https://x/mono".to_string()), ("/r/one".to_string(), "https://x/one".to_string())]
    );
}

#[test]
fn a_failed_fetch_concerns_only_its_repository() {
    let f = Fetcher::new(vec![("/r/mono".to_string(), "could not resolve host".to_string())]);
    assert_eq!(f.check("/r/mono"), Err("could not resolve host".to_string()));
    assert_eq!(f.check("/r/one"), Ok(()));
}

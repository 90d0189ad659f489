//! A listing with an exclusion filter: what a full load, an in-place update
//! and the show-excluded toggle leave visible.

use yazi_excludes::entries::Entries;
use yazi_excludes::exclude::Exclude;
use yazi_excludes::exclude_filter::ExcludeFilter;
use yazi_excludes::file::{Cha, File};
use yazi_excludes::maps::FileMap;
use yazi_excludes::url::Url;

fn file(name: &str) -> File {
    let cha = Cha { is_dir: false, is_hidden: false, len: 0, mtime: 0 };
    File::new(Url::regular(&format!("/p/{name}")), cha)
}

/// Hides anything whose last path segment is `secret`.
fn hiding_secret() -> ExcludeFilter {
    let globs = vec!["**/secret".to_string()];
    let rule = match Exclude::from_globs("*", &globs) {
        Ok(r) => r,
        Err(e) => panic!("bad pattern {}", e.pattern),
    };
    ExcludeFilter::new(vec![rule], false)
}

fn visible(entries: &Entries) -> Vec<String> {
    entries.items().iter().map(|f| f.url.loc.clone()).collect()
}

/// The ticket of the load that `loaded` makes.
const TICKET: u64 = 1;

fn loaded() -> Entries {
    let mut entries = Entries::new(true);
    entries.set_excludes(Some(hiding_secret()));
    entries.update_full(vec![file("a"), file("secret")], TICKET);
    entries
}

fn one(f: File) -> FileMap {
    FileMap::from_entries(vec![(f.key().to_string(), f)])
}

#[test]
fn a_full_load_conceals_the_excluded_entry() {
    assert_eq!(visible(&loaded()), ["/p/a"]);
}

#[test]
fn an_in_place_update_does_not_resurface_it() {
    let mut entries = loaded();
    entries.update_upserting(one(file("secret")));

    assert_eq!(visible(&entries), ["/p/a"]);
}

#[test]
fn an_in_place_update_still_lands_for_a_visible_entry() {
    let mut entries = loaded();
    entries.update_upserting(one(file("b")));

    assert_eq!(visible(&entries), ["/p/a", "/p/b"]);
}

#[test]
fn toggling_show_excluded_reveals_and_conceals_again() {
    let mut entries = loaded();

    entries.set_show_excluded(true);
    let mut shown = visible(&entries);
    shown.sort();
    assert_eq!(shown, ["/p/a", "/p/secret"]);

    entries.set_show_excluded(false);
    assert_eq!(visible(&entries), ["/p/a"]);
}

#[test]
fn an_update_while_revealed_keeps_the_entry_visible() {
    let mut entries = loaded();
    entries.set_show_excluded(true);

    entries.update_upserting(one(file("secret")));

    let mut shown = visible(&entries);
    shown.sort();
    assert_eq!(shown, ["/p/a", "/p/secret"]);
}

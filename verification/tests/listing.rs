//! The folder listing on concrete entries: loads, in-place changes, the
//! settings that conceal entries, and the order it sorts them in.

use yazi_excludes::entries::Entries;
use yazi_excludes::file::{Cha, File, Filter};
use yazi_excludes::maps::{FileMap, KeySet, SizeMap};
use yazi_excludes::sorter::{FilesSorter, SortBy};
use yazi_excludes::url::Url;

fn entry(name: &str, is_dir: bool, is_hidden: bool, len: u64, mtime: u64) -> File {
    File::new(Url::regular(&format!("/p/{name}")), Cha { is_dir, is_hidden, len, mtime })
}

fn file(name: &str) -> File {
    entry(name, false, false, 0, 0)
}

fn names(entries: &Entries) -> Vec<String> {
    entries.items().iter().map(|f| f.urn().to_string()).collect()
}

fn loaded(show_hidden: bool, files: Vec<File>) -> Entries {
    let mut e = Entries::new(show_hidden);
    e.update_full(files, 1);
    e
}

#[test]
fn a_full_load_sets_hidden_files_aside() {
    let e = loaded(false, vec![file("a"), entry(".h", false, true, 0, 0), file("b")]);
    assert_eq!(names(&e), ["a", "b"]);
    assert_eq!(e.ticket(), 1);
    assert_eq!(e.revision, 1);
}

#[test]
fn an_empty_full_load_of_an_empty_listing_keeps_the_revision() {
    let e = loaded(true, vec![]);
    assert!(names(&e).is_empty());
    assert_eq!(e.revision, 0);
}

#[test]
fn an_entry_without_a_path_is_never_listed() {
    let nameless = File::new(Url::regular(""), Cha { is_dir: false, is_hidden: false, len: 0, mtime: 0 });
    let e = loaded(true, vec![nameless, file("a")]);
    assert_eq!(names(&e), ["a"]);
}

#[test]
fn a_partial_load_of_another_ticket_is_dropped() {
    let mut e = loaded(true, vec![file("a")]);
    e.update_part(vec![file("b")], 2);
    assert_eq!(names(&e), ["a"]);
    assert_eq!(e.revision, 1);

    e.update_part(vec![file("b")], 1);
    assert_eq!(names(&e), ["a", "b"]);
    assert_eq!(e.revision, 2);
}

#[test]
fn an_empty_partial_load_starts_a_ticket_afresh() {
    let mut e = loaded(true, vec![file("a")]);
    e.update_part(vec![], 7);
    assert!(names(&e).is_empty());
    assert_eq!(e.ticket(), 7);
    assert_eq!(e.revision, 2);
}

#[test]
fn an_io_error_empties_the_listing() {
    let mut e = loaded(true, vec![file("a")]);
    e.update_ioerr(9);
    assert!(names(&e).is_empty());
    assert_eq!(e.ticket(), 9);
    assert_eq!(e.revision, 1);
}

#[test]
fn catching_up_sorts_once_and_then_settles() {
    let mut e = Entries::new(true);
    e.set_sorter(FilesSorter::new(SortBy::Alphabetical, false, false));
    e.update_full(vec![file("c"), file("a"), file("b")], 1);
    assert_eq!(names(&e), ["c", "a", "b"]);

    assert!(e.catchup_revision());
    assert_eq!(names(&e), ["a", "b", "c"]);
    assert!(!e.catchup_revision());
    assert_eq!(names(&e), ["a", "b", "c"]);
}

#[test]
fn a_new_sorter_bumps_the_revision_once() {
    let mut e = Entries::new(true);
    let by_name = FilesSorter::new(SortBy::Alphabetical, false, false);
    e.set_sorter(by_name);
    assert_eq!(e.revision, 1);
    e.set_sorter(by_name);
    assert_eq!(e.revision, 1);
    assert_eq!(*e.sorter(), by_name);
}

#[test]
fn directories_first_in_reverse_name_order() {
    let mut e = Entries::new(true);
    e.set_sorter(FilesSorter::new(SortBy::Alphabetical, true, true));
    e.update_full(vec![file("a"), entry("d1", true, false, 0, 0), file("c"), entry("d2", true, false, 0, 0)], 1);
    e.catchup_revision();
    assert_eq!(names(&e), ["d2", "d1", "c", "a"]);
}

#[test]
fn modification_time_orders_and_ties_keep_their_order() {
    let mut e = Entries::new(true);
    e.set_sorter(FilesSorter::new(SortBy::Modified, false, false));
    e.update_full(vec![entry("x", false, false, 0, 5), entry("y", false, false, 0, 1), entry("z", false, false, 0, 5)], 1);
    e.catchup_revision();
    assert_eq!(names(&e), ["y", "x", "z"]);
}

#[test]
fn a_computed_size_takes_the_place_of_the_length() {
    let mut e = Entries::new(true);
    e.set_sorter(FilesSorter::new(SortBy::Size, false, false));
    e.update_full(vec![entry("a", true, false, 1, 0), entry("b", false, false, 50, 0)], 1);
    let before = e.revision;
    e.update_size(SizeMap::from_entries(vec![("/p/a".to_string(), 100)]));
    assert_eq!(e.revision, before + 1);
    assert_eq!(e.sizes.get("/p/a"), Some(100));
    e.catchup_revision();
    assert_eq!(names(&e), ["b", "a"]);

    // The same size again changes nothing.
    e.update_size(SizeMap::from_entries(vec![("/p/a".to_string(), 100)]));
    assert_eq!(e.revision, before + 1);
}

#[test]
fn deleting_reports_the_positions_it_removed() {
    let mut e = loaded(true, vec![file("a"), file("b"), file("c")]);
    let keys = KeySet::from_keys(vec!["/p/b".to_string(), "/p/c".to_string(), "/p/zz".to_string()]);
    assert_eq!(e.update_deleting(keys), vec![1, 2]);
    assert_eq!(names(&e), ["a"]);
    assert_eq!(e.revision, 2);

    assert!(e.update_deleting(KeySet::from_keys(vec!["/p/zz".to_string()])).is_empty());
    assert_eq!(e.revision, 2);
}

#[test]
fn creating_adds_only_what_is_not_listed_yet() {
    let mut e = loaded(true, vec![file("a"), file("b")]);
    e.update_creating(vec![file("a"), file("d")]);
    assert_eq!(names(&e), ["a", "b", "d"]);
    assert_eq!(e.revision, 2);

    e.update_creating(vec![file("b")]);
    assert_eq!(names(&e), ["a", "b", "d"]);
    assert_eq!(e.revision, 2);
}

#[test]
fn updating_replaces_in_place_and_hands_back_the_rest() {
    let mut e = loaded(true, vec![file("a"), file("b")]);
    let touched = entry("a", false, false, 0, 5);
    let unknown = file("q");
    let files = FileMap::from_entries(vec![
        (touched.key().to_string(), touched),
        (unknown.key().to_string(), unknown),
    ]);
    let (hidden, items) = e.update_updating(files);
    assert!(hidden.entries().is_empty());
    let rest: Vec<String> = items.entries().into_iter().map(|(k, _)| k).collect();
    assert_eq!(rest, ["/p/q"]);
    assert_eq!(names(&e), ["a", "b"]);
    assert_eq!(e.items()[0].cha.mtime, 5);
    assert_eq!(e.revision, 2);
}

#[test]
fn updating_with_the_same_metadata_keeps_the_revision() {
    let mut e = loaded(true, vec![file("a")]);
    let (_, items) = e.update_updating(FileMap::from_entries(vec![("/p/a".to_string(), file("a"))]));
    assert!(items.entries().is_empty());
    assert_eq!(e.revision, 1);
}

#[test]
fn upserting_a_renamed_entry_moves_it() {
    let mut e = loaded(true, vec![file("a"), file("b")]);
    // `/p/a` now lives at `/p/c`, and `/p/c` is dropped wherever it was.
    e.update_upserting(FileMap::from_entries(vec![("/p/a".to_string(), file("c"))]));
    assert_eq!(names(&e), ["c", "b"]);
}

#[test]
fn the_filter_keeps_the_names_that_hold_its_text() {
    let mut e = loaded(true, vec![file("a"), file("b"), file("ab")]);
    assert!(e.set_filter(Some(Filter::new("a"))));
    assert_eq!(names(&e), ["a", "ab"]);
    assert!(!e.set_filter(Some(Filter::new("a"))));
    assert_eq!(e.filter().map(|f| f.needle.clone()), Some("a".to_string()));

    assert!(e.set_filter(None));
    let mut all = names(&e);
    all.sort();
    assert_eq!(all, ["a", "ab", "b"]);
}

#[test]
fn showing_hidden_files_lists_them_again() {
    let mut e = loaded(false, vec![file("a"), entry(".h", false, true, 0, 0)]);
    assert_eq!(names(&e), ["a"]);
    e.set_show_hidden(true);
    assert_eq!(names(&e), ["a", ".h"]);
    assert_eq!(e.revision, 2);
    e.set_show_hidden(false);
    assert_eq!(names(&e), ["a"]);
    assert_eq!(e.revision, 3);
}

#[test]
fn position_finds_the_first_entry_with_a_key() {
    let e = loaded(true, vec![file("a"), file("b")]);
    assert_eq!(e.position("/p/b"), Some(1));
    assert_eq!(e.position("/p/zz"), None);
    assert_eq!(e.position(""), None);
}

#[test]
fn a_file_map_keeps_the_last_entry_of_a_key() {
    let m = FileMap::from_entries(vec![
        ("/p/a".to_string(), entry("a", false, false, 1, 0)),
        ("/p/a".to_string(), entry("a", false, false, 2, 0)),
    ]);
    let pairs = m.entries();
    assert_eq!(pairs.len(), 1);
    assert_eq!(pairs[0].0, "/p/a");
    assert_eq!(pairs[0].1.cha.len, 2);
}

#[test]
fn a_size_map_answers_for_its_keys_only() {
    let m = SizeMap::from_entries(vec![("/p/a".to_string(), 3), ("/p/a".to_string(), 4)]);
    assert_eq!(m.get("/p/a"), Some(4));
    assert_eq!(m.get("/p/b"), None);
}

#[test]
fn the_name_is_the_last_segment_of_the_path() {
    assert_eq!(file("deep").urn(), "deep");
    assert_eq!(File::new(Url::regular("plain"), Cha { is_dir: false, is_hidden: false, len: 0, mtime: 0 }).urn(), "plain");
    assert_eq!(file("deep").key(), "/p/deep");
}

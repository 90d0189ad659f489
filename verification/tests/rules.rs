//! Patterns and rules on their own, the text helpers they are built from, and
//! the decisions of the `excluded` and `ignore` commands.

use yazi_excludes::actor::{Excluded, FollowUp, Ignore};
use yazi_excludes::glob::count_braces;
use yazi_excludes::entries::Entries;
use yazi_excludes::exclude::{contents_glob, Exclude};
use yazi_excludes::exclude_filter::ExcludeFilter;
use yazi_excludes::file::{Cha, File};
use yazi_excludes::files::Files;
use yazi_excludes::pattern::Pattern;
use yazi_excludes::text::{
    contains_char, decimal, ends_with, find_char, join_strings, replace_char, starts_with, string_eq,
    trim_end_char, trim_end_whitespace, trim_start_str,
};
use yazi_excludes::url::Url;

fn pattern(s: &str) -> Pattern {
    match Pattern::from_str(s) {
        Ok(p) => p,
        Err(e) => panic!("bad pattern {}", e.pattern),
    }
}

fn rule(globs: &[&str], within: &str) -> Exclude {
    let globs: Vec<String> = globs.iter().map(|g| g.to_string()).collect();
    match Exclude::from_globs(within, &globs) {
        Ok(e) => e,
        Err(e) => panic!("bad pattern {}", e.pattern),
    }
}

#[test]
fn a_glob_gets_a_counterpart_for_what_lies_below() {
    assert_eq!(contents_glob("**/.git/"), Some("**/.git/**".to_string()));
    assert_eq!(contents_glob("*.log"), Some("*.log/**".to_string()));
    assert_eq!(contents_glob("\\s**/A"), Some("\\s**/A/**".to_string()));
    assert_eq!(contents_glob("x/**"), None);
    assert_eq!(contents_glob("x/**//"), None);
}

#[test]
fn the_counterpart_matches_descendants() {
    let below = pattern(&contents_glob("**/.git").expect("counterpart"));
    assert!(below.match_url(&Url::regular("/p/.git/config"), false));
    assert!(!below.match_url(&Url::regular("/p/.git"), false));
}

#[test]
fn matching_ignores_case_unless_marked() {
    let loose = pattern("**/readme");
    assert!(loose.match_url(&Url::regular("/p/README"), false));
    let strict = pattern("\\s**/readme");
    assert!(!strict.match_url(&Url::regular("/p/README"), false));
    assert!(strict.match_url(&Url::regular("/p/readme"), false));
}

#[test]
fn a_star_stops_at_slashes_only_when_the_pattern_has_one() {
    assert!(pattern("*.pyc").match_url(&Url::regular("/a/b/x.pyc"), false));
    assert!(!pattern("/a/*.pyc").match_url(&Url::regular("/a/b/x.pyc"), false));
    assert!(pattern("/a/*/x.pyc").match_url(&Url::regular("/a/b/x.pyc"), false));
}

#[test]
fn a_scheme_limits_the_pattern_to_its_listings() {
    let p = pattern("search://**/x");
    assert!(p.match_url(&Url::search("q", "/a/x"), false));
    assert!(!p.match_url(&Url::regular("/a/x"), false));
}

#[test]
fn a_trailing_slash_aims_at_directories() {
    let p = pattern("**/build/");
    assert!(p.is_dir());
    assert!(p.match_url(&Url::regular("/p/build"), true));
    assert!(!p.match_url(&Url::regular("/p/build"), false));
}

#[test]
fn a_bad_glob_is_refused_with_its_text_and_cause() {
    match Pattern::from_str("a[") {
        Ok(_) => panic!("accepted a bad glob"),
        Err(e) => {
            assert_eq!(e.pattern, "a[");
            assert!(!e.cause.to_string().is_empty());
        }
    }
    assert!(Pattern::from_str("a[b]").is_ok());
}

#[test]
fn a_whitelisting_glob_wins_wherever_it_stands_in_its_rule() {
    let url = Url::regular("/p/keep.log");
    let after = rule(&["**/*.log", "!**/keep.log"], "*");
    let before = rule(&["!**/keep.log", "**/*.log"], "*");
    assert_eq!(after.matches(&url, false, false), Some(false));
    assert_eq!(before.matches(&url, false, false), Some(false));
    assert_eq!(before.matches(&Url::regular("/p/a.log"), false, false), Some(true));
}

#[test]
fn the_rules_of_a_folder_keep_their_order() {
    let files = Files { excludes: vec![rule(&["a"], "/p/**"), rule(&["b"], "/q/**"), rule(&["c"], "*")] };
    let picked: Vec<bool> = files
        .excludes_in(&Url::regular("/p/x"))
        .iter()
        .map(|e| e.matches(&Url::regular("a"), false, false).is_some())
        .collect();
    assert_eq!(picked, [true, false]);
}

#[test]
fn the_first_bad_glob_of_a_rule_is_reported() {
    let globs = vec!["ok".to_string(), "x[".to_string(), "y[".to_string()];
    match Exclude::from_globs("*", &globs) {
        Ok(_) => panic!("accepted a bad glob"),
        Err(e) => assert_eq!(e.pattern, "x["),
    }
    match Exclude::from_globs("[", &globs) {
        Ok(_) => panic!("accepted a bad scope"),
        Err(e) => assert_eq!(e.pattern, "["),
    }
}

#[test]
fn a_rule_matches_in_its_scope() {
    let r = rule(&["**/*.log"], "/code/**");
    assert!(r.matches_context(&Url::regular("/code/p")));
    assert!(!r.matches_context(&Url::regular("/other")));
    assert_eq!(r.matches(&Url::regular("/code/p/a.log"), false, false), Some(true));
    assert_eq!(r.matches(&Url::regular("/code/p/a.txt"), false, false), None);
}

#[test]
fn the_last_matching_rule_decides() {
    let hide = rule(&["**/*.log"], "*");
    let keep = rule(&["!**/keep.log"], "*");
    let url = Url::regular("/p/keep.log");
    assert_eq!(Exclude::verdict(&[&hide, &keep], &url, false, false), Some(false));
    assert_eq!(Exclude::verdict(&[&keep, &hide], &url, false, false), Some(true));
    assert_eq!(Exclude::verdict(&[], &url, false, false), None);
}

#[test]
fn a_folder_filter_applies_the_rules_of_its_folder() {
    let files = Files { excludes: vec![rule(&["**/secret"], "/p/**"), rule(&["**/other"], "/q/**")] };
    let filter = ExcludeFilter::for_folder(&files, &Url::regular("/p/x"));
    let cha = Cha { is_dir: false, is_hidden: false, len: 0, mtime: 0 };
    assert!(filter.matches(&File::new(Url::regular("/p/x/secret"), cha)));
    assert!(!filter.matches(&File::new(Url::regular("/p/x/other"), cha)));
    assert!(filter.duplicate().matches(&File::new(Url::regular("/p/x/secret"), cha)));
}

#[test]
fn text_helpers_on_concrete_strings() {
    assert_eq!(decimal(0), "0");
    assert_eq!(decimal(1234), "1234");
    assert!(starts_with("search://x", "search://"));
    assert!(!starts_with("se", "search"));
    assert!(ends_with("a/**", "/**"));
    assert!(contains_char("a/b", '/'));
    assert_eq!(trim_end_char("a///", '/'), "a");
    assert_eq!(trim_start_str("**/**/a", "**/"), "a");
    assert_eq!(find_char("ab:c:d", ':'), Some(2));
    assert_eq!(find_char("abc", ':'), None);
    assert_eq!(trim_end_whitespace("x \n\t "), "x");
    assert_eq!(replace_char("a\nb", '\n', "--"), "a--b");
    assert_eq!(join_strings(&vec!["1 a".to_string(), "2 b".to_string()], ", "), "1 a, 2 b");
    assert_eq!(join_strings(&vec![], ", "), "");
    assert!(string_eq("x", "x") && !string_eq("x", "y"));
}

#[test]
fn the_excluded_toggle_flips_unless_told() {
    assert!(!Excluded::next_state(None, true));
    assert!(Excluded::next_state(None, false));
    assert!(Excluded::next_state(Some(true), true));
    assert!(!Excluded::next_state(Some(false), false));
}

#[test]
fn a_loading_folder_is_left_alone() {
    let mut e = Entries::new(true);
    assert!(!Excluded::apply(&mut e, true, true));
    assert!(!e.show_excluded());
    assert!(Excluded::apply(&mut e, false, true));
    assert!(e.show_excluded());
    assert!(!Excluded::apply(&mut e, false, true));
}

#[test]
fn the_ignore_context_of_a_folder() {
    assert_eq!(Ignore::context(&Url::search("q", "/p")), "search://**");
    assert_eq!(Ignore::context(&Url::regular("/p")), "/p");
}

#[test]
fn browsing_inside_an_excluded_folder_is_recognised() {
    let patterns = vec!["**/node_modules/**".to_string(), "!keep".to_string(), "build".to_string()];
    assert!(Ignore::inside_excluded(&patterns, "node_modules"));
    assert!(Ignore::inside_excluded(&patterns, "build"));
    assert!(!Ignore::inside_excluded(&patterns, "keep"));
    assert!(!Ignore::inside_excluded(&patterns, "src"));
}

#[test]
fn braces_are_counted() {
    assert_eq!(count_braces("/x{,/**}"), 1);
    assert_eq!(count_braces("{a,{b,c}}"), 2);
    assert_eq!(count_braces("plain"), 0);
}

fn follow(hover: bool, peek_forced: bool, peek_and_watch: bool) -> FollowUp {
    FollowUp { hover, update_paged: hover, peek_forced, peek_and_watch }
}

#[test]
fn what_follows_the_excluded_switch() {
    assert_eq!(Excluded::follow_up(true, false, Some(true), true), follow(true, true, false));
    assert_eq!(Excluded::follow_up(false, true, Some(false), true), follow(true, false, true));
    assert_eq!(Excluded::follow_up(false, false, None, true), follow(false, false, true));
    assert_eq!(Excluded::follow_up(false, false, None, false), follow(false, false, false));
}

#[test]
fn what_follows_re_applying_the_rules() {
    assert_eq!(Ignore::follow_up(false, false, Some(true), true), follow(false, true, false));
    assert_eq!(Ignore::follow_up(true, true, Some(false), true), follow(true, false, true));
    assert_eq!(Ignore::follow_up(false, false, None, true), follow(false, false, false));
}

//! The decisions of the `excluded` and `ignore` commands of the file manager.

use vstd::prelude::*;
use crate::text::{is_prefix_of, is_suffix_of, starts_with, string_eq, trim_start, trim_start_str};
use crate::entries::{catchup_spec, show_excluded_spec, Entries};
use crate::url::{Scheme, Url};

verus! {

/// What the file manager does once a command has re-applied the rules of the
/// folders in view.
#[derive(Clone, Copy, Debug, PartialEq, Eq, Structural)]
pub struct FollowUp {
    /// Move the hover onto the changed current or parent listing.
    pub hover: bool,
    /// Refresh the paged view of the current listing.
    pub update_paged: bool,
    /// Preview the hovered folder again, forced, since its listing changed.
    pub peek_forced: bool,
    /// Preview and watch what is hovered now, since the hover moved.
    pub peek_and_watch: bool,
}

/// The `excluded` command: shows or conceals the entries that the exclusion
/// rules hide.
pub struct Excluded;

impl Excluded {
    /// The state to switch to: the one asked for, else the opposite of the
    /// current one.
    pub fn next_state(requested: Option<bool>, current: bool) -> (state: bool)
        ensures
            state == match requested {
                Some(s) => s,
                None => !current,
            },
    {
        match requested {
            Some(s) => s,
            None => !current,
        }
    }

    /// Applies `state` to one folder's entries: a folder still loading is
    /// left alone; otherwise the listing switches and catches up. Tells
    /// whether the listing changed.
    pub fn apply(entries: &mut Entries, loading: bool, state: bool) -> (changed: bool)
        requires
            old(entries)@.revision < u64::MAX,
        ensures
            loading ==> final(entries)@ == old(entries)@ && !changed,
            !loading ==> final(entries)@ == catchup_spec(show_excluded_spec(old(entries)@, state))
                && changed == (show_excluded_spec(old(entries)@, state).version != show_excluded_spec(
                old(entries)@,
                state,
            ).revision),
    {
        if loading {
            return false;
        }
        entries.set_show_excluded(state);
        entries.catchup_revision()
    }

    /// What follows the switch: `cwd_changed` and `parent_changed` tell
    /// whether the current and the parent listing changed,
    /// `hovered_applied` whether the hovered folder's listing changed (`None`
    /// when no folder is hovered), and `hover_moved` whether the hovered entry
    /// is another one than before.
    pub fn follow_up(cwd_changed: bool, parent_changed: bool, hovered_applied: Option<bool>, hover_moved: bool) -> (a: FollowUp)
        ensures
            a.hover == (cwd_changed || parent_changed),
            a.update_paged == a.hover,
            a.peek_forced == (hovered_applied == Some(true)),
            a.peek_and_watch == (hovered_applied != Some(true) && hover_moved),
    {
        let changed = cwd_changed || parent_changed;
        let forced = match hovered_applied {
            Some(b) => b,
            None => false,
        };
        FollowUp { hover: changed, update_paged: changed, peek_forced: forced, peek_and_watch: !forced && hover_moved }
    }
}

/// `s` with every trailing copy of `p` removed (`p` must not be empty).
pub open spec fn trim_end_str_spec(s: Seq<char>, p: Seq<char>) -> Seq<char>
    decreases s.len(),
{
    if p.len() > 0 && is_suffix_of(p, s) {
        trim_end_str_spec(s.take(s.len() - p.len()), p)
    } else {
        s
    }
}

/// The pattern `p` stripped of a trailing `/**` run and a leading `**/` run.
pub open spec fn clean_pattern(p: Seq<char>) -> Seq<char> {
    trim_start(trim_end_str_spec(p, "/**"@), "**/"@)
}

/// Whether one of the (non-negated) `patterns` names the folder `name`, either
/// as written or once stripped of `**/` and `/**`.
pub open spec fn names_folder(patterns: Seq<Seq<char>>, name: Seq<char>) -> bool {
    exists|i: int|
        0 <= i < patterns.len() && !is_prefix_of("!"@, #[trigger] patterns[i]) && (clean_pattern(
            patterns[i],
        ) == name || patterns[i] == name)
}

/// The `ignore` command: re-applies the exclusion rules to the folders in
/// view, unless the current folder is itself excluded.
pub struct Ignore;

impl Ignore {
    /// The context string a folder is matched in: `search://**` for a search
    /// listing, else its path.
    pub fn context(url: &Url) -> (s: String)
        ensures
            s@ == if url@.scheme == Scheme::Search {
                "search://**"@
            } else {
                url@.loc
            },
    {
        if url.is_search() {
            String::from_str("search://**")
        } else {
            url.loc.clone()
        }
    }

    /// What follows re-applying the rules: as for `excluded`, except that
    /// without a hovered folder nothing is previewed or watched.
    pub fn follow_up(cwd_changed: bool, parent_changed: bool, hovered_applied: Option<bool>, hover_moved: bool) -> (a: FollowUp)
        ensures
            a.hover == (cwd_changed || parent_changed),
            a.update_paged == a.hover,
            a.peek_forced == (hovered_applied == Some(true)),
            a.peek_and_watch == (hovered_applied == Some(false) && hover_moved),
    {
        let changed = cwd_changed || parent_changed;
        let (forced, watch) = match hovered_applied {
            Some(true) => (true, false),
            Some(false) => (false, hover_moved),
            None => (false, false),
        };
        FollowUp { hover: changed, update_paged: changed, peek_forced: forced, peek_and_watch: watch }
    }

    /// Whether the folder named `name` is one that `patterns` exclude, so that
    /// browsing inside it must not filter it.
    pub fn inside_excluded(patterns: &Vec<String>, name: &str) -> (b: bool)
        ensures
            b == names_folder(patterns@.map_values(|p: String| p@), name@),
    {
        let ghost ps = patterns@.map_values(|p: String| p@);
        let mut i: usize = 0;
        while i < patterns.len()
            invariant
                i <= patterns.len(),
                ps == patterns@.map_values(|p: String| p@),
                forall|j: int|
                    0 <= j < i ==> !(!is_prefix_of("!"@, #[trigger] ps[j]) && (clean_pattern(ps[j])
                        == name@ || ps[j] == name@)),
            decreases patterns.len() - i,
        {
            let p = patterns[i].as_str();
            proof {
                assert(p@ == ps[i as int]);
                reveal_strlit("/**");
                reveal_strlit("**/");
            }
            if !starts_with(p, "!") {
                let clean = trim_start_str(trim_end_str(p, "/**"), "**/");
                if string_eq(clean, name) || string_eq(p, name) {
                    return true;
                }
            }
            i += 1;
        }
        false
    }
}

/// `s` with every trailing copy of `p` removed.
fn trim_end_str<'a>(s: &'a str, p: &str) -> (res: &'a str)
    requires
        p@.len() > 0,
    ensures
        res@ == trim_end_str_spec(s@, p@),
{
    let m = p.unicode_len();
    let mut rest: &str = s;
    while m <= rest.unicode_len() && crate::text::ends_with(rest, p)
        invariant
            m == p@.len(),
            m > 0,
            trim_end_str_spec(rest@, p@) == trim_end_str_spec(s@, p@),
        decreases rest@.len(),
    {
        let n = rest.unicode_len();
        let ghost before = rest@;
        rest = rest.substring_char(0, n - m);
        proof {
            assert(rest@ =~= before.take(before.len() - m));
        }
    }
    rest
}

} // verus!

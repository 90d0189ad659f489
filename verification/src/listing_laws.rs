//! What every update of a listing keeps: the listed entries are exactly
//! the shown ones and the concealed ones exactly the concealed ones, and a
//! change of what is shown only moves entries between the two sides.

use vstd::prelude::*;
use crate::entries::{
    catchup_spec, concealing, conceals, consistent, creating_rel, del_pass, deleting_spec,
    extended, filter_spec, full_spec, keep_where, keyed, leftover, lists, part_of, part_spec,
    renamed_keys, settings, show_excluded_spec, show_hidden_spec, side_pred, size_spec,
    upd_pass, updating_spec, upserting_rel, valid_pred, valid_updates, EntriesView, Settings,
};
use crate::exclude_filter::excluded;
use crate::file::{contains_seq, file_key, name_of, FileView};
use crate::maps::{enumerates, filtered, map_of, no_files};
use crate::sorter::{lemma_sort_keeps_entries, sort_spec, FilesSorter};

verus! {

broadcast use {
    vstd::seq_lib::group_to_multiset_ensures,
    vstd::seq_lib::lemma_multiset_commutative,
    vstd::multiset::group_multiset_axioms,
};

/// Every entry of `xs` has a non-empty key and is concealed exactly when
/// `hide`.
pub open spec fn all_ok(s: Settings, xs: Seq<FileView>, hide: bool) -> bool {
    forall|i: int| 0 <= i < xs.len() ==> file_key(#[trigger] xs[i]).len() > 0 && conceals(s, xs[i]) == hide
}

/// Every entry of `m` has a non-empty key and is concealed exactly when
/// `hide`.
pub open spec fn map_ok(s: Settings, m: Map<Seq<char>, FileView>, hide: bool) -> bool {
    forall|k: Seq<char>| #[trigger] m.contains_key(k) ==> file_key(m[k]).len() > 0 && conceals(s, m[k]) == hide
}

proof fn lemma_keep_ok(s: Settings, fs: Seq<FileView>, hide: bool)
    ensures
        all_ok(s, keep_where(s, fs, hide), hide),
    decreases fs.len(),
{
    if fs.len() > 0 {
        lemma_keep_ok(s, fs.drop_last(), hide);
    }
}

proof fn lemma_concat_ok(s: Settings, a: Seq<FileView>, b: Seq<FileView>, hide: bool)
    requires
        all_ok(s, a, hide),
        all_ok(s, b, hide),
    ensures
        all_ok(s, a + b, hide),
{
    assert forall|i: int| 0 <= i < (a + b).len() implies file_key(#[trigger] (a + b)[i]).len() > 0 && conceals(s, (a + b)[i]) == hide by {
        if i < a.len() {
            assert((a + b)[i] == a[i]);
        } else {
            assert((a + b)[i] == b[i - a.len()]);
        }
    }
}

proof fn lemma_sort_ok(so: FilesSorter, sizes: Map<Seq<char>, u64>, s: Settings, xs: Seq<FileView>, hide: bool)
    requires
        all_ok(s, xs, hide),
    ensures
        all_ok(s, sort_spec(so, sizes, xs), hide),
{
    let ys = sort_spec(so, sizes, xs);
    lemma_sort_keeps_entries(so, sizes, xs);
    assert forall|i: int| 0 <= i < ys.len() implies file_key(#[trigger] ys[i]).len() > 0 && conceals(s, ys[i]) == hide by {
        assert(ys.contains(ys[i]));
        assert(ys.to_multiset().count(ys[i]) > 0);
        assert(xs.contains(ys[i]));
        let j = choose|j: int| 0 <= j < xs.len() && xs[j] == ys[i];
    }
}

proof fn lemma_map_of_values(xs: Seq<FileView>, k: Seq<char>)
    requires
        map_of(keyed(xs)).contains_key(k),
    ensures
        exists|i: int| 0 <= i < xs.len() && xs[i] == map_of(keyed(xs))[k],
    decreases xs.len(),
{
    if xs.len() > 0 {
        assert(keyed(xs).drop_last() =~= keyed(xs.drop_last()));
        if k == file_key(xs.last()) {
            assert(xs[xs.len() - 1] == map_of(keyed(xs))[k]);
        } else {
            lemma_map_of_values(xs.drop_last(), k);
            let i = choose|i: int| 0 <= i < xs.drop_last().len() && xs.drop_last()[i] == map_of(keyed(xs.drop_last()))[k];
            assert(xs[i] == xs.drop_last()[i]);
        }
    }
}

proof fn lemma_leftover_ok(s: Settings, dist: Seq<FileView>, src: Seq<FileView>, hide: bool)
    requires
        all_ok(s, src, hide),
    ensures
        map_ok(s, leftover(dist, src), hide),
{
    assert forall|k: Seq<char>| #[trigger] leftover(dist, src).contains_key(k) implies file_key(leftover(dist, src)[k]).len() > 0 && conceals(s, leftover(dist, src)[k]) == hide by {
        lemma_map_of_values(src, k);
    }
}

proof fn lemma_extended_ok(s: Settings, new: Seq<FileView>, old: Seq<FileView>, m: Map<Seq<char>, FileView>, hide: bool)
    requires
        extended(new, old, m),
        all_ok(s, old, hide),
        map_ok(s, m, hide),
    ensures
        all_ok(s, new, hide),
{
    let p = choose|p: Seq<(Seq<char>, FileView)>| enumerates(p, m) && new.skip(old.len() as int) == p.map_values(|q: (Seq<char>, FileView)| q.1);
    let tail = new.skip(old.len() as int);
    assert forall|i: int| 0 <= i < new.len() implies file_key(#[trigger] new[i]).len() > 0 && conceals(s, new[i]) == hide by {
        if i < old.len() {
            assert(new.take(old.len() as int)[i] == new[i]);
        } else {
            let j = i - old.len();
            assert(tail.len() == p.len());
            assert(tail[j] == new[i]);
            assert(tail[j] == p[j].1);
            assert(m.contains_key(p[j].0) && m[p[j].0] == p[j].1);
        }
    }
}

proof fn lemma_del_ok(s: Settings, xs: Seq<FileView>, keys: Set<Seq<char>>, hide: bool)
    requires
        all_ok(s, xs, hide),
    ensures
        all_ok(s, del_pass(xs, keys).0, hide),
    decreases xs.len(),
{
    if xs.len() > 0 {
        assert(all_ok(s, xs.drop_last(), hide)) by {
            assert forall|i: int| 0 <= i < xs.drop_last().len() implies file_key(#[trigger] xs.drop_last()[i]).len() > 0 && conceals(s, xs.drop_last()[i]) == hide by {
                assert(xs.drop_last()[i] == xs[i]);
            }
        }
        lemma_del_ok(s, xs.drop_last(), keys, hide);
        assert(xs.last() == xs[xs.len() - 1]);
    }
}

proof fn lemma_upd_ok(s: Settings, xs: Seq<FileView>, src: Map<Seq<char>, FileView>, hide: bool)
    requires
        all_ok(s, xs, hide),
        map_ok(s, src, hide),
    ensures
        all_ok(s, upd_pass(xs, src).0, hide),
        map_ok(s, upd_pass(xs, src).1, hide),
    decreases xs.len(),
{
    if xs.len() > 0 {
        assert(all_ok(s, xs.drop_last(), hide)) by {
            assert forall|i: int| 0 <= i < xs.drop_last().len() implies file_key(#[trigger] xs.drop_last()[i]).len() > 0 && conceals(s, xs.drop_last()[i]) == hide by {
                assert(xs.drop_last()[i] == xs[i]);
            }
        }
        lemma_upd_ok(s, xs.drop_last(), src, hide);
        assert(xs.last() == xs[xs.len() - 1]);
        let r = upd_pass(xs.drop_last(), src).1;
        assert(map_ok(s, r.remove(file_key(xs.last())), hide));
    }
}

proof fn lemma_part_ok(s: Settings, m: Map<Seq<char>, FileView>, hide: bool)
    ensures
        map_ok(s, part_of(s, valid_updates(m), hide), hide),
{
}

/// A full load leaves a consistent listing, whatever the listing was before.
pub proof fn lemma_full_consistent(v: EntriesView, fs: Seq<FileView>, ticket: u64)
    ensures
        consistent(full_spec(v, fs, ticket)),
{
    lemma_keep_ok(settings(v), fs, false);
    lemma_keep_ok(settings(v), fs, true);
}

/// A partial load keeps the listing consistent.
pub proof fn lemma_part_consistent(v: EntriesView, fs: Seq<FileView>, ticket: u64)
    requires
        consistent(v),
    ensures
        consistent(part_spec(v, fs, ticket)),
{
    let s = settings(v);
    lemma_keep_ok(s, fs, false);
    lemma_keep_ok(s, fs, true);
    lemma_concat_ok(s, v.items, keep_where(s, fs, false), false);
    lemma_concat_ok(s, v.hidden, keep_where(s, fs, true), true);
}

/// Catching up the sort keeps the listing consistent.
pub proof fn lemma_catchup_consistent(v: EntriesView)
    requires
        consistent(v),
    ensures
        consistent(catchup_spec(v)),
{
    lemma_sort_ok(v.sorter, v.sizes, settings(v), v.items, false);
}

/// New sizes keep the listing consistent.
pub proof fn lemma_size_consistent(v: EntriesView, m: Map<Seq<char>, u64>)
    requires
        consistent(v),
    ensures
        consistent(size_spec(v, m)),
{
}

/// Switching `show_excluded` keeps the listing consistent.
pub proof fn lemma_show_excluded_consistent(v: EntriesView, state: bool)
    requires
        consistent(v),
    ensures
        consistent(show_excluded_spec(v, state)),
{
    if v.show_excluded != state {
        let w = EntriesView { show_excluded: state, ..v };
        let all = v.items + v.hidden;
        lemma_keep_ok(settings(w), all, false);
        lemma_keep_ok(settings(w), all, true);
        lemma_sort_ok(w.sorter, w.sizes, settings(w), keep_where(settings(w), all, false), false);
    }
}

/// Setting the filter keeps the listing consistent.
pub proof fn lemma_filter_consistent(v: EntriesView, filter: Option<Seq<char>>)
    requires
        consistent(v),
    ensures
        consistent(filter_spec(v, filter)),
{
    if v.filter != filter {
        let w = EntriesView { filter, ..v };
        let sw = settings(w);
        if filter is None {
            lemma_keep_ok(sw, v.hidden, false);
            lemma_keep_ok(sw, v.hidden, true);
            assert(all_ok(sw, v.items, false));
            lemma_concat_ok(sw, v.items, keep_where(sw, v.hidden, false), false);
            lemma_sort_ok(w.sorter, w.sizes, sw, v.items + keep_where(sw, v.hidden, false), false);
        } else {
            let all = v.items + v.hidden;
            lemma_keep_ok(sw, all, false);
            lemma_keep_ok(sw, all, true);
            lemma_sort_ok(w.sorter, w.sizes, sw, keep_where(sw, all, false), false);
        }
    }
}

/// Switching `show_hidden` keeps the listing consistent.
pub proof fn lemma_show_hidden_consistent(v: EntriesView, state: bool)
    requires
        consistent(v),
    ensures
        consistent(show_hidden_spec(v, state)),
{
    if v.show_hidden != state {
        let w = EntriesView { show_hidden: state, ..v };
        let sw = settings(w);
        if state {
            lemma_keep_ok(sw, v.hidden, false);
            lemma_keep_ok(sw, v.hidden, true);
            assert(all_ok(sw, v.items, false));
            lemma_concat_ok(sw, v.items, keep_where(sw, v.hidden, false), false);
            assert(Seq::<FileView>::empty() + keep_where(sw, v.hidden, true) =~= keep_where(sw, v.hidden, true));
        } else {
            lemma_keep_ok(sw, v.items, false);
            lemma_keep_ok(sw, v.items, true);
            assert(all_ok(sw, v.hidden, true));
            lemma_concat_ok(sw, v.hidden, keep_where(sw, v.items, true), true);
            assert(Seq::<FileView>::empty() + keep_where(sw, v.items, false) =~= keep_where(sw, v.items, false));
        }
    }
}

/// Newly created entries keep the listing consistent.
pub proof fn lemma_creating_consistent(v: EntriesView, fs: Seq<FileView>, w: EntriesView)
    requires
        consistent(v),
        creating_rel(v, fs, w),
    ensures
        consistent(w),
{
    if fs.len() > 0 {
        let s = settings(v);
        lemma_keep_ok(s, fs, false);
        lemma_keep_ok(s, fs, true);
        lemma_leftover_ok(s, v.items, keep_where(s, fs, false), false);
        lemma_leftover_ok(s, v.hidden, keep_where(s, fs, true), true);
        lemma_extended_ok(s, w.items, v.items, leftover(v.items, keep_where(s, fs, false)), false);
        lemma_extended_ok(s, w.hidden, v.hidden, leftover(v.hidden, keep_where(s, fs, true)), true);
    }
}

/// Deleting entries keeps the listing consistent.
pub proof fn lemma_deleting_consistent(v: EntriesView, keys: Set<Seq<char>>)
    requires
        consistent(v),
    ensures
        consistent(deleting_spec(v, keys).0),
{
    let s = settings(v);
    let k0 = keys.remove(Seq::empty());
    lemma_del_ok(s, v.items, k0, false);
    lemma_del_ok(s, v.hidden, del_pass(v.items, k0).2, true);
}

/// Updating entries in place keeps the listing consistent, and what is left
/// over belongs to the side it was meant for.
pub proof fn lemma_updating_consistent(v: EntriesView, m: Map<Seq<char>, FileView>)
    requires
        consistent(v),
    ensures
        consistent(updating_spec(v, m).0),
        map_ok(settings(v), updating_spec(v, m).1, true),
        map_ok(settings(v), updating_spec(v, m).2, false),
{
    let s = settings(v);
    let m0 = valid_updates(m);
    if m0 != no_files() {
        lemma_part_ok(s, m, true);
        lemma_part_ok(s, m, false);
        lemma_upd_ok(s, v.items, part_of(s, m0, false), false);
        lemma_upd_ok(s, v.hidden, part_of(s, m0, true), true);
    }
}

/// Inserting or updating entries keeps the listing consistent: an update
/// that the listing conceals never lands among the listed entries.
pub proof fn lemma_upserting_consistent(v: EntriesView, m: Map<Seq<char>, FileView>, w: EntriesView)
    requires
        consistent(v),
        upserting_rel(v, m, w),
    ensures
        consistent(w),
{
    let m0 = valid_updates(m);
    if m0 != no_files() {
        let v1 = deleting_spec(v, renamed_keys(m0)).0;
        lemma_deleting_consistent(v, renamed_keys(m0));
        lemma_updating_consistent(v1, m0);
        let (v2, hl, il) = updating_spec(v1, m0);
        lemma_extended_ok(settings(v2), w.hidden, v2.hidden, hl, true);
        lemma_extended_ok(settings(v2), w.items, v2.items, il, false);
    }
}

/// How often `f` occurs among the entries that `keep_where` picks.
proof fn lemma_keep_count(s: Settings, xs: Seq<FileView>, hide: bool, f: FileView)
    ensures
        keep_where(s, xs, hide).to_multiset().count(f) == if file_key(f).len() > 0 && conceals(s, f) == hide {
            xs.to_multiset().count(f)
        } else {
            0
        },
    decreases xs.len(),
{
    if xs.len() == 0 {
        assert(keep_where(s, xs, hide) =~= Seq::<FileView>::empty());
    } else {
        lemma_keep_count(s, xs.drop_last(), hide, f);
        assert(xs.drop_last().push(xs.last()) =~= xs);
    }
}

/// An entry that cannot be among `xs` occurs there no times.
proof fn lemma_ok_count(s: Settings, xs: Seq<FileView>, hide: bool, f: FileView)
    requires
        all_ok(s, xs, hide),
        !(file_key(f).len() > 0 && conceals(s, f) == hide),
    ensures
        xs.to_multiset().count(f) == 0,
{
    if xs.to_multiset().count(f) > 0 {
        assert(xs.contains(f));
        let i = choose|i: int| 0 <= i < xs.len() && xs[i] == f;
        assert(file_key(xs[i]).len() > 0);
    }
}

/// The entries of a consistent listing, both sides together.
pub open spec fn everything(v: EntriesView) -> Seq<FileView> {
    v.items + v.hidden
}

proof fn lemma_split_counts(s: Settings, xs: Seq<FileView>, f: FileView)
    requires
        forall|i: int| 0 <= i < xs.len() ==> file_key(#[trigger] xs[i]).len() > 0,
    ensures
        keep_where(s, xs, false).to_multiset().count(f) + keep_where(s, xs, true).to_multiset().count(f)
            == xs.to_multiset().count(f),
{
    lemma_keep_count(s, xs, false, f);
    lemma_keep_count(s, xs, true, f);
    if file_key(f).len() == 0 && xs.to_multiset().count(f) > 0 {
        assert(xs.contains(f));
        let i = choose|i: int| 0 <= i < xs.len() && xs[i] == f;
    }
}

/// Switching `show_excluded` only moves entries between the listed and the
/// concealed side: together they hold the same entries as before.
pub proof fn lemma_show_excluded_keeps_entries(v: EntriesView, state: bool)
    requires
        consistent(v),
    ensures
        everything(show_excluded_spec(v, state)).to_multiset() == everything(v).to_multiset(),
{
    if v.show_excluded != state {
        let w = EntriesView { show_excluded: state, ..v };
        let sw = settings(w);
        let all = v.items + v.hidden;
        let items = keep_where(sw, all, false);
        lemma_sort_keeps_entries(w.sorter, w.sizes, items);
        assert forall|i: int| 0 <= i < all.len() implies file_key(#[trigger] all[i]).len() > 0 by {
            if i < v.items.len() {
                assert(all[i] == v.items[i]);
            } else {
                assert(all[i] == v.hidden[i - v.items.len()]);
            }
        }
        assert forall|f: FileView| #[trigger] everything(show_excluded_spec(v, state)).to_multiset().count(f) == everything(v).to_multiset().count(f) by {
            lemma_split_counts(sw, all, f);
        }
        assert(everything(show_excluded_spec(v, state)).to_multiset() =~= everything(v).to_multiset());
    }
}

/// Setting the filter only moves entries between the listed and the
/// concealed side.
pub proof fn lemma_filter_keeps_entries(v: EntriesView, filter: Option<Seq<char>>)
    requires
        consistent(v),
    ensures
        everything(filter_spec(v, filter)).to_multiset() == everything(v).to_multiset(),
{
    if v.filter != filter {
        let w = EntriesView { filter, ..v };
        let sw = settings(w);
        if filter is None {
            let shown = keep_where(sw, v.hidden, false);
            lemma_sort_keeps_entries(w.sorter, w.sizes, v.items + shown);
            assert forall|f: FileView| #[trigger] everything(filter_spec(v, filter)).to_multiset().count(f) == everything(v).to_multiset().count(f) by {
                lemma_split_counts(sw, v.hidden, f);
            }
        } else {
            let all = v.items + v.hidden;
            lemma_sort_keeps_entries(w.sorter, w.sizes, keep_where(sw, all, false));
            assert forall|i: int| 0 <= i < all.len() implies file_key(#[trigger] all[i]).len() > 0 by {
                if i < v.items.len() {
                    assert(all[i] == v.items[i]);
                } else {
                    assert(all[i] == v.hidden[i - v.items.len()]);
                }
            }
            assert forall|f: FileView| #[trigger] everything(filter_spec(v, filter)).to_multiset().count(f) == everything(v).to_multiset().count(f) by {
                lemma_split_counts(sw, all, f);
            }
        }
        assert(everything(filter_spec(v, filter)).to_multiset() =~= everything(v).to_multiset());
    }
}

/// Switching `show_hidden` only moves entries between the listed and the
/// concealed side.
pub proof fn lemma_show_hidden_keeps_entries(v: EntriesView, state: bool)
    requires
        consistent(v),
    ensures
        everything(show_hidden_spec(v, state)).to_multiset() == everything(v).to_multiset(),
{
    if v.show_hidden != state {
        let w = EntriesView { show_hidden: state, ..v };
        let sw = settings(w);
        let take = if state { v.hidden } else { v.items };
        assert forall|f: FileView| #[trigger] everything(show_hidden_spec(v, state)).to_multiset().count(f) == everything(v).to_multiset().count(f) by {
            lemma_split_counts(sw, take, f);
        }
        assert(everything(show_hidden_spec(v, state)).to_multiset() =~= everything(v).to_multiset());
    }
}

/// Revealing excluded entries and concealing them again gives back the same
/// listing, up to order: the same entries listed, the same concealed.
pub proof fn lemma_show_excluded_round_trip(v: EntriesView)
    requires
        consistent(v),
    ensures
        ({
            let w = show_excluded_spec(show_excluded_spec(v, !v.show_excluded), v.show_excluded);
            &&& w.show_excluded == v.show_excluded
            &&& w.items.to_multiset() == v.items.to_multiset()
            &&& w.hidden.to_multiset() == v.hidden.to_multiset()
        }),
{
    let v1 = show_excluded_spec(v, !v.show_excluded);
    let w = show_excluded_spec(v1, v.show_excluded);
    lemma_show_excluded_consistent(v, !v.show_excluded);
    lemma_show_excluded_keeps_entries(v, !v.show_excluded);
    let s0 = settings(v);
    assert(settings(EntriesView { show_excluded: v.show_excluded, ..v1 }) == s0);
    let all2 = v1.items + v1.hidden;
    let all = v.items + v.hidden;
    lemma_sort_keeps_entries(v1.sorter, v1.sizes, keep_where(s0, all2, false));
    assert forall|i: int| 0 <= i < all2.len() implies file_key(#[trigger] all2[i]).len() > 0 by {
        if i < v1.items.len() {
            assert(all2[i] == v1.items[i]);
        } else {
            assert(all2[i] == v1.hidden[i - v1.items.len()]);
        }
    }
    assert forall|f: FileView| #[trigger] w.items.to_multiset().count(f) == v.items.to_multiset().count(f) by {
        lemma_keep_count(s0, all2, false, f);
        assert(all2.to_multiset().count(f) == all.to_multiset().count(f));
        if file_key(f).len() > 0 && !conceals(s0, f) {
            lemma_ok_count(s0, v.hidden, true, f);
        } else {
            lemma_ok_count(s0, v.items, false, f);
        }
    }
    assert forall|f: FileView| #[trigger] w.hidden.to_multiset().count(f) == v.hidden.to_multiset().count(f) by {
        lemma_keep_count(s0, all2, true, f);
        assert(all2.to_multiset().count(f) == all.to_multiset().count(f));
        if file_key(f).len() > 0 && conceals(s0, f) {
            lemma_ok_count(s0, v.items, false, f);
        } else {
            lemma_ok_count(s0, v.hidden, true, f);
        }
    }
    assert(w.items.to_multiset() =~= v.items.to_multiset());
    assert(w.hidden.to_multiset() =~= v.hidden.to_multiset());
}

/// Once the sort has caught up, catching up again changes nothing.
pub proof fn lemma_catchup_settles(v: EntriesView)
    ensures
        catchup_spec(v).version == catchup_spec(v).revision,
        catchup_spec(catchup_spec(v)) == catchup_spec(v),
{
}

/// No update makes the revision go back.
pub proof fn lemma_revision_never_falls(v: EntriesView, fs: Seq<FileView>, ticket: u64, state: bool, keys: Set<Seq<char>>, m: Map<Seq<char>, FileView>, sizes: Map<Seq<char>, u64>)
    requires
        v.revision < u64::MAX,
    ensures
        full_spec(v, fs, ticket).revision >= v.revision,
        part_spec(v, fs, ticket).revision >= v.revision,
        show_excluded_spec(v, state).revision >= v.revision,
        show_hidden_spec(v, state).revision >= v.revision,
        size_spec(v, sizes).revision >= v.revision,
        deleting_spec(v, keys).0.revision >= v.revision,
        updating_spec(v, m).0.revision >= v.revision,
{
}

/// The positions that deletion reports are increasing, in range, and each
/// names an entry whose key was asked for; every entry either stays or is
/// reported.
pub proof fn lemma_deleted_positions(xs: Seq<FileView>, keys: Set<Seq<char>>)
    requires
        xs.len() <= usize::MAX,
    ensures
        ({
            let (k, d, r) = del_pass(xs, keys);
            &&& k.len() + d.len() == xs.len()
            &&& forall|i: int, j: int| 0 <= i < j < d.len() ==> d[i] < d[j]
            &&& forall|i: int| 0 <= i < d.len() ==> d[i] < xs.len() && keys.contains(file_key(xs[d[i] as int]))
        }),
    decreases xs.len(),
{
    if xs.len() > 0 {
        lemma_deleted_positions(xs.drop_last(), keys);
        lemma_del_keys_shrink(xs.drop_last(), keys);
        let (k, d, r) = del_pass(xs.drop_last(), keys);
        assert forall|i: int| 0 <= i < d.len() implies xs[d[i] as int] == xs.drop_last()[d[i] as int] by {}
        let f = xs.last();
        if r.contains(file_key(f)) {
            let d2 = d.push((xs.len() - 1) as usize);
            assert(del_pass(xs, keys) == (k, d2, r.remove(file_key(f))));
            assert(xs[xs.len() - 1] == f);
            assert forall|i: int, j: int| 0 <= i < j < d2.len() implies d2[i] < d2[j] by {
                if j == d2.len() - 1 {
                    assert(d2[i] == d[i]);
                }
            }
            assert forall|i: int| 0 <= i < d2.len() implies d2[i] < xs.len() && keys.contains(file_key(xs[d2[i] as int])) by {
                if i == d2.len() - 1 {
                    assert(d2[i] == xs.len() - 1);
                } else {
                    assert(d2[i] == d[i]);
                }
            }
        } else {
            assert(del_pass(xs, keys) == (k.push(f), d, r));
        }
    }
}

proof fn lemma_del_keys_shrink(xs: Seq<FileView>, keys: Set<Seq<char>>)
    ensures
        del_pass(xs, keys).2.subset_of(keys),
    decreases xs.len(),
{
    if xs.len() > 0 {
        lemma_del_keys_shrink(xs.drop_last(), keys);
    }
}

/// The typed filter is matched against an entry's name, the last segment
/// of its path: under a filter with text `n`, an entry that is neither a
/// hidden file while hidden files are concealed nor excluded while excluded
/// entries are concealed is concealed exactly when its name does not hold
/// `n`.
pub proof fn lemma_filter_reads_names(s: Settings, f: FileView, n: Seq<char>)
    requires
        s.filter == Some(n),
        !(f.cha.is_hidden && !s.show_hidden),
        !(!s.show_excluded && (s.excludes matches Some(ex) && excluded(ex, f))),
    ensures
        conceals(s, f) <==> !contains_seq(name_of(f.url.loc), n),
{
}

/// Once the filter is the text `n`, every listed entry's name holds `n`;
/// and an entry the listing held, listed or concealed, whose name holds `n`
/// is listed, unless it is a concealed hidden file or a concealed excluded
/// entry.
pub proof fn lemma_filter_lists_matching_names(v: EntriesView, n: Seq<char>)
    requires
        consistent(v),
    ensures
        ({
            let w = filter_spec(v, Some(n));
            &&& forall|i: int| 0 <= i < w.items.len() ==> contains_seq(name_of((#[trigger] w.items[i]).url.loc), n)
            &&& forall|f: FileView|
                #[trigger] everything(v).contains(f) && contains_seq(name_of(f.url.loc), n) && !(f.cha.is_hidden
                    && !w.show_hidden) && !(!w.show_excluded && (w.excludes matches Some(ex) && excluded(ex, f)))
                    ==> w.items.contains(f)
        }),
{
    let w = filter_spec(v, Some(n));
    lemma_filter_consistent(v, Some(n));
    lemma_filter_keeps_entries(v, Some(n));
    assert forall|i: int| 0 <= i < w.items.len() implies contains_seq(name_of((#[trigger] w.items[i]).url.loc), n) by {
        assert(!conceals(settings(w), w.items[i]));
    }
    assert forall|f: FileView|
        #[trigger] everything(v).contains(f) && contains_seq(name_of(f.url.loc), n) && !(f.cha.is_hidden
            && !w.show_hidden) && !(!w.show_excluded && (w.excludes matches Some(ex) && excluded(ex, f)))
        implies w.items.contains(f) by {
        assert(!conceals(settings(w), f));
        assert(everything(v).to_multiset().count(f) > 0);
        assert(everything(w).to_multiset().count(f) > 0);
        assert(everything(w).contains(f));
        let i = choose|i: int| 0 <= i < everything(w).len() && everything(w)[i] == f;
        if i >= w.items.len() {
            assert(w.hidden[i - w.items.len()] == f);
            assert(conceals(settings(w), w.hidden[i - w.items.len()]));
        } else {
            assert(w.items[i] == f);
        }
    }
}

/// Each entry `upd_pass` leaves at a position either stays as it was or
/// takes the update under its key, and the pass reports that every entry
/// kept its metadata and its key exactly when no position changed either.
proof fn lemma_upd_pass_flag(dist: Seq<FileView>, src: Map<Seq<char>, FileView>)
    ensures
        upd_pass(dist, src).0.len() == dist.len(),
        upd_pass(dist, src).2 <==> forall|i: int|
            0 <= i < dist.len() ==> file_key(#[trigger] upd_pass(dist, src).0[i]) == file_key(dist[i])
                && upd_pass(dist, src).0[i].cha == dist[i].cha,
    decreases dist.len(),
{
    if dist.len() > 0 {
        let d = dist.drop_last();
        lemma_upd_pass_flag(d, src);
        let (nd, r, b) = upd_pass(d, src);
        let out = upd_pass(dist, src).0;
        let n = d.len() as int;
        assert forall|i: int| 0 <= i < n implies out[i] == nd[i] && dist[i] == d[i] by {}
        if upd_pass(dist, src).2 {
            assert forall|i: int|
                0 <= i < dist.len() implies file_key(#[trigger] out[i]) == file_key(dist[i]) && out[i].cha == dist[i].cha by {
                if i < n {
                    assert(file_key(nd[i]) == file_key(d[i]));
                }
            }
        }
        if forall|i: int| 0 <= i < dist.len() ==> file_key(#[trigger] out[i]) == file_key(dist[i]) && out[i].cha == dist[i].cha {
            assert forall|i: int| 0 <= i < d.len() implies file_key(#[trigger] nd[i]) == file_key(d[i]) && nd[i].cha == d[i].cha by {
                assert(out[i] == nd[i]);
                assert(file_key(out[i]) == file_key(dist[i]));
            }
            assert(file_key(out[n]) == file_key(dist[n]));
        }
    }
}

/// An in-place update moves the revision exactly when it changes a listed
/// entry's metadata or key: a rename of a listed entry raises the revision
/// by one, so that the listing is sorted again, and an update that leaves
/// every listed entry's key and metadata as they were leaves the revision.
pub proof fn lemma_updating_revision(v: EntriesView, m: Map<Seq<char>, FileView>)
    requires
        v.revision < u64::MAX,
    ensures
        ({
            let w = updating_spec(v, m).0;
            &&& w.items.len() == v.items.len()
            &&& (exists|i: int|
                0 <= i < v.items.len() && (file_key(#[trigger] w.items[i]) != file_key(v.items[i])
                    || w.items[i].cha != v.items[i].cha)) ==> w.revision == v.revision + 1
            &&& (forall|i: int|
                0 <= i < v.items.len() ==> file_key(#[trigger] w.items[i]) == file_key(v.items[i])
                    && w.items[i].cha == v.items[i].cha) ==> w.revision == v.revision
        }),
{
    let m0 = valid_updates(m);
    if m0 != no_files() {
        let im = part_of(settings(v), m0, false);
        lemma_upd_pass_flag(v.items, im);
    }
}

} // verus!

//! The entries of one folder: what is listed (`items`), what is concealed
//! (`hidden`), and the updates that keep the two apart as files come, go and
//! change.

use vstd::prelude::*;
use crate::exclude_filter::{excluded, ExcludeFilter, ExcludeFilterView};
use crate::file::{contains_seq, file_key, name_of, File, FileView, Filter};
use crate::maps::{
    done_keys, enumerates, file_map_contents, file_pairs, filtered, key_set_contents, lemma_filtered_end,
    lemma_filtered_start, lemma_filtered_step, map_of, no_files, size_map_contents, size_pairs,
    FileMap, KeySet, SizeMap,
};
use crate::sorter::{sort_spec, FilesSorter, SortBy};
use crate::text::string_eq;

verus! {

/// The views of a list of entries.
pub open spec fn fviews(s: Seq<File>) -> Seq<FileView> {
    s.map_values(|f: File| f@)
}

pub struct EntriesView {
    pub hidden: Seq<FileView>,
    pub items: Seq<FileView>,
    pub ticket: u64,
    pub version: u64,
    pub revision: u64,
    pub sizes: Map<Seq<char>, u64>,
    pub sorter: FilesSorter,
    pub filter: Option<Seq<char>>,
    pub show_hidden: bool,
    pub show_excluded: bool,
    pub excludes: Option<ExcludeFilterView>,
}

/// What decides whether an entry is concealed.
pub struct Settings {
    pub show_hidden: bool,
    pub filter: Option<Seq<char>>,
    pub show_excluded: bool,
    pub excludes: Option<ExcludeFilterView>,
}

pub open spec fn settings(v: EntriesView) -> Settings {
    Settings {
        show_hidden: v.show_hidden,
        filter: v.filter,
        show_excluded: v.show_excluded,
        excludes: v.excludes,
    }
}

/// Whether anything can be concealed at all.
pub open spec fn concealing(s: Settings) -> bool {
    !s.show_hidden || s.filter is Some || (s.excludes is Some && !s.show_excluded)
}

/// Whether the listing conceals `f`: a hidden file while hidden files are not
/// shown, a name the filter does not hold, or an entry the exclusion rules
/// exclude while excluded entries are not shown.
pub open spec fn conceals(s: Settings, f: FileView) -> bool {
    ||| (f.cha.is_hidden && !s.show_hidden)
    ||| (s.filter matches Some(n) && !contains_seq(name_of(f.url.loc), n))
    ||| (!s.show_excluded && (s.excludes matches Some(ex) && excluded(ex, f)))
}

/// The entries of `fs` with a non-empty key that the listing conceals
/// (`hide`) or shows (`!hide`), in order.
pub open spec fn keep_where(s: Settings, fs: Seq<FileView>, hide: bool) -> Seq<FileView>
    decreases fs.len(),
{
    if fs.len() == 0 {
        Seq::empty()
    } else {
        let rest = keep_where(s, fs.drop_last(), hide);
        let f = fs.last();
        if file_key(f).len() > 0 && conceals(s, f) == hide {
            rest.push(f)
        } else {
            rest
        }
    }
}

/// Every entry has a non-empty key, the listed ones are shown and the
/// concealed ones concealed.
pub open spec fn consistent(v: EntriesView) -> bool {
    &&& forall|i: int| 0 <= i < v.items.len() ==> file_key(#[trigger] v.items[i]).len() > 0 && !conceals(settings(v), v.items[i])
    &&& forall|i: int| 0 <= i < v.hidden.len() ==> file_key(#[trigger] v.hidden[i]).len() > 0 && conceals(settings(v), v.hidden[i])
}

/// The listing after a full load of `fs` under the ticket `ticket`.
pub open spec fn full_spec(v: EntriesView, fs: Seq<FileView>, ticket: u64) -> EntriesView {
    let items = keep_where(settings(v), fs, false);
    EntriesView {
        ticket,
        hidden: keep_where(settings(v), fs, true),
        items,
        revision: if items.len() == 0 && v.items.len() == 0 {
            v.revision
        } else {
            (v.revision + 1) as u64
        },
        ..v
    }
}

/// The listing after a partial load: a non-empty batch `fs` extends the
/// listing if it belongs to the current ticket and is dropped otherwise; an
/// empty batch starts the ticket `ticket` afresh.
pub open spec fn part_spec(v: EntriesView, fs: Seq<FileView>, ticket: u64) -> EntriesView {
    if fs.len() > 0 {
        if ticket != v.ticket {
            v
        } else {
            let items = keep_where(settings(v), fs, false);
            EntriesView {
                hidden: v.hidden + keep_where(settings(v), fs, true),
                items: v.items + items,
                revision: if items.len() > 0 {
                    (v.revision + 1) as u64
                } else {
                    v.revision
                },
                ..v
            }
        }
    } else {
        EntriesView {
            ticket,
            hidden: Seq::empty(),
            items: Seq::empty(),
            revision: if v.items.len() > 0 {
                (v.revision + 1) as u64
            } else {
                v.revision
            },
            ..v
        }
    }
}

/// The listing after its sort catches up with its revision.
pub open spec fn catchup_spec(v: EntriesView) -> EntriesView {
    if v.version == v.revision {
        v
    } else {
        EntriesView { version: v.revision, items: sort_spec(v.sorter, v.sizes, v.items), ..v }
    }
}

/// The listing once `show_excluded` is `state`.
pub open spec fn show_excluded_spec(v: EntriesView, state: bool) -> EntriesView {
    if v.show_excluded == state {
        v
    } else {
        let w = EntriesView { show_excluded: state, ..v };
        let all = v.items + v.hidden;
        EntriesView {
            hidden: keep_where(settings(w), all, true),
            items: sort_spec(w.sorter, w.sizes, keep_where(settings(w), all, false)),
            revision: (v.revision + 1) as u64,
            ..w
        }
    }
}

/// The listing once its filter is `filter`.
pub open spec fn filter_spec(v: EntriesView, filter: Option<Seq<char>>) -> EntriesView {
    if v.filter == filter {
        v
    } else {
        let w = EntriesView { filter, ..v };
        if filter is None {
            let shown = keep_where(settings(w), v.hidden, false);
            EntriesView {
                hidden: keep_where(settings(w), v.hidden, true),
                items: if shown.len() > 0 {
                    sort_spec(w.sorter, w.sizes, v.items + shown)
                } else {
                    v.items
                },
                ..w
            }
        } else {
            let all = v.items + v.hidden;
            EntriesView {
                hidden: keep_where(settings(w), all, true),
                items: sort_spec(w.sorter, w.sizes, keep_where(settings(w), all, false)),
                ..w
            }
        }
    }
}

/// The listing once `show_hidden` is `state`: only the side that can change
/// is split again.
pub open spec fn show_hidden_spec(v: EntriesView, state: bool) -> EntriesView {
    if v.show_hidden == state {
        v
    } else {
        let w = EntriesView { show_hidden: state, ..v };
        let take = if state {
            v.hidden
        } else {
            v.items
        };
        let hidden = (if state {
            Seq::<FileView>::empty()
        } else {
            v.hidden
        }) + keep_where(settings(w), take, true);
        let items = (if state {
            v.items
        } else {
            Seq::<FileView>::empty()
        }) + keep_where(settings(w), take, false);
        EntriesView {
            hidden,
            items,
            revision: if items.len() != v.items.len() {
                (v.revision + 1) as u64
            } else {
                v.revision
            },
            ..w
        }
    }
}

/// The index of the first listed entry with key `key`, if any.
pub open spec fn position_spec(items: Seq<FileView>, key: Seq<char>, i: int) -> bool {
    &&& 0 <= i < items.len()
    &&& file_key(items[i]) == key
    &&& forall|j: int| 0 <= j < i ==> file_key(#[trigger] items[j]) != key
}

/// The keys of the entries of `s`.
pub open spec fn keys_in(s: Seq<FileView>) -> Set<Seq<char>> {
    Set::new(|k: Seq<char>| exists|i: int| 0 <= i < s.len() && file_key(#[trigger] s[i]) == k)
}

/// The entries of `s`, each under its own key.
pub open spec fn keyed(s: Seq<FileView>) -> Seq<(Seq<char>, FileView)> {
    s.map_values(|f: FileView| (file_key(f), f))
}

/// `l` lists the entries of `m`, each once, in some order.
pub open spec fn lists(l: Seq<FileView>, m: Map<Seq<char>, FileView>) -> bool {
    exists|p: Seq<(Seq<char>, FileView)>| enumerates(p, m) && l == p.map_values(|q: (Seq<char>, FileView)| q.1)
}

/// The entries of `src`, the last of each key, whose key `dist` lacks.
pub open spec fn leftover(dist: Seq<FileView>, src: Seq<FileView>) -> Map<Seq<char>, FileView> {
    map_of(keyed(src)).remove_keys(keys_in(dist))
}

/// `new` holds `old` followed by the entries of `m` in some order.
pub open spec fn extended(new: Seq<FileView>, old: Seq<FileView>, m: Map<Seq<char>, FileView>) -> bool {
    &&& new.len() >= old.len()
    &&& new.take(old.len() as int) == old
    &&& lists(new.skip(old.len() as int), m)
}

/// The listing after newly created `fs` arrive: each that neither side has
/// yet is appended to its side, in some order.
pub open spec fn creating_rel(v: EntriesView, fs: Seq<FileView>, w: EntriesView) -> bool {
    if fs.len() == 0 {
        w == v
    } else {
        let li = leftover(v.items, keep_where(settings(v), fs, false));
        let lh = leftover(v.hidden, keep_where(settings(v), fs, true));
        &&& extended(w.items, v.items, li)
        &&& extended(w.hidden, v.hidden, lh)
        &&& w == EntriesView {
            items: w.items,
            hidden: w.hidden,
            revision: if li == no_files() {
                v.revision
            } else {
                (v.revision + 1) as u64
            },
            ..v
        }
    }
}

/// The sizes of `m` worth recording: those under a non-empty key.
pub open spec fn fresh_size(m: Map<Seq<char>, u64>, k: Seq<char>) -> bool {
    m.contains_key(k) && k.len() > 0
}

/// `old` updated with the sizes of `m` worth recording.
pub open spec fn merged_sizes(old: Map<Seq<char>, u64>, m: Map<Seq<char>, u64>) -> Map<Seq<char>, u64> {
    Map::new(
        |k: Seq<char>| old.contains_key(k) || fresh_size(m, k),
        |k: Seq<char>| if fresh_size(m, k) { m[k] } else { old[k] },
    )
}

/// Whether `m` records a size that `old` does not already hold.
pub open spec fn sizes_changed(old: Map<Seq<char>, u64>, m: Map<Seq<char>, u64>) -> bool {
    exists|k: Seq<char>| #[trigger] fresh_size(m, k) && !(old.contains_key(k) && old[k] == m[k])
}

/// The listing after the sizes `m` arrive.
pub open spec fn size_spec(v: EntriesView, m: Map<Seq<char>, u64>) -> EntriesView {
    EntriesView {
        sizes: merged_sizes(v.sizes, m),
        revision: if sizes_changed(v.sizes, m) && v.sorter.by == SortBy::Size {
            (v.revision + 1) as u64
        } else {
            v.revision
        },
        ..v
    }
}

/// One pass of deletion over `s`: each entry whose key is still in `keys`
/// goes, and takes its key out of `keys`. Gives what stays, the positions of
/// what went, and the keys left.
pub open spec fn del_pass(s: Seq<FileView>, keys: Set<Seq<char>>) -> (Seq<FileView>, Seq<usize>, Set<Seq<char>>)
    decreases s.len(),
{
    if s.len() == 0 {
        (Seq::empty(), Seq::empty(), keys)
    } else {
        let (k, d, r) = del_pass(s.drop_last(), keys);
        let f = s.last();
        if r.contains(file_key(f)) {
            (k, d.push((s.len() - 1) as usize), r.remove(file_key(f)))
        } else {
            (k.push(f), d, r)
        }
    }
}

/// The listing after the entries with keys `keys` are deleted, and the
/// positions the deleted listed entries had.
pub open spec fn deleting_spec(v: EntriesView, keys: Set<Seq<char>>) -> (EntriesView, Seq<usize>) {
    let k0 = keys.remove(Seq::empty());
    let (ki, di, k1) = del_pass(v.items, k0);
    let (kh, dh, k2) = del_pass(v.hidden, k1);
    (
        EntriesView {
            items: ki,
            hidden: kh,
            revision: if di.len() > 0 {
                (v.revision + 1) as u64
            } else {
                v.revision
            },
            ..v
        },
        di,
    )
}

/// An update is usable: a non-empty key and an entry with a non-empty key.
pub open spec fn valid_pred() -> spec_fn(Seq<char>, FileView) -> bool {
    |k: Seq<char>, f: FileView| k.len() > 0 && file_key(f).len() > 0
}

/// A usable update whose entry the listing conceals (`hide`) or shows.
pub open spec fn side_pred(s: Settings, hide: bool) -> spec_fn(Seq<char>, FileView) -> bool {
    |k: Seq<char>, f: FileView| k.len() > 0 && file_key(f).len() > 0 && conceals(s, f) == hide
}

/// The usable updates of `m`.
pub open spec fn valid_updates(m: Map<Seq<char>, FileView>) -> Map<Seq<char>, FileView> {
    filtered(m, valid_pred())
}

/// The updates of `m` whose entry the listing conceals (`hide`) or shows.
pub open spec fn part_of(s: Settings, m: Map<Seq<char>, FileView>, hide: bool) -> Map<Seq<char>, FileView> {
    filtered(m, |k: Seq<char>, f: FileView| conceals(s, f) == hide)
}

/// One pass of updating over `dist`: each entry whose key `src` still holds
/// is replaced by that update, which leaves `src`. Gives the new entries, the
/// updates left, and whether every replacement kept both the metadata and
/// the key.
pub open spec fn upd_pass(dist: Seq<FileView>, src: Map<Seq<char>, FileView>) -> (Seq<FileView>, Map<Seq<char>, FileView>, bool)
    decreases dist.len(),
{
    if dist.len() == 0 {
        (Seq::empty(), src, true)
    } else {
        let (d, r, b) = upd_pass(dist.drop_last(), src);
        let x = dist.last();
        let k = file_key(x);
        if r.contains_key(k) {
            (d.push(r[k]), r.remove(k), b && x.cha == r[k].cha && k == file_key(r[k]))
        } else {
            (d.push(x), r, b)
        }
    }
}

/// The listing after the updates `m` arrive, and the updates left over for
/// the concealed and for the listed side.
pub open spec fn updating_spec(v: EntriesView, m: Map<Seq<char>, FileView>) -> (EntriesView, Map<Seq<char>, FileView>, Map<Seq<char>, FileView>) {
    let m0 = valid_updates(m);
    if m0 == no_files() {
        (v, no_files(), no_files())
    } else {
        let hm = part_of(settings(v), m0, true);
        let im = part_of(settings(v), m0, false);
        let (ni, ri, bi) = upd_pass(v.items, im);
        let (nh, rh, bh) = upd_pass(v.hidden, hm);
        (
            EntriesView {
                items: ni,
                hidden: nh,
                revision: if bi {
                    v.revision
                } else {
                    (v.revision + 1) as u64
                },
                ..v
            },
            rh,
            ri,
        )
    }
}

/// The new keys of the entries of `m` that were renamed.
pub open spec fn renamed_keys(m: Map<Seq<char>, FileView>) -> Set<Seq<char>> {
    Set::new(|k: Seq<char>| exists|k2: Seq<char>| #[trigger] m.contains_key(k2) && k2 != file_key(m[k2]) && k == file_key(m[k2]))
}

/// The listing after the entries of `m` are inserted or updated: renamed
/// entries first drop whatever sat at their new key, the updates land in
/// place, and the rest are appended to their side in some order.
pub open spec fn upserting_rel(v: EntriesView, m: Map<Seq<char>, FileView>, w: EntriesView) -> bool {
    let m0 = valid_updates(m);
    if m0 == no_files() {
        w == v
    } else {
        let v1 = deleting_spec(v, renamed_keys(m0)).0;
        let (v2, hl, il) = updating_spec(v1, m0);
        &&& extended(w.hidden, v2.hidden, hl)
        &&& extended(w.items, v2.items, il)
        &&& w == EntriesView {
            hidden: w.hidden,
            items: w.items,
            revision: if il == no_files() {
                v2.revision
            } else {
                (v2.revision + 1) as u64
            },
            ..v2
        }
    }
}

/// The entries of one folder.
pub struct Entries {
    hidden: Vec<File>,
    items: Vec<File>,
    ticket: u64,
    version: u64,
    pub revision: u64,
    pub sizes: SizeMap,
    sorter: FilesSorter,
    filter: Option<Filter>,
    show_hidden: bool,
    show_excluded: bool,
    excludes: Option<ExcludeFilter>,
}

impl View for Entries {
    type V = EntriesView;

    closed spec fn view(&self) -> EntriesView {
        EntriesView {
            hidden: fviews(self.hidden@),
            items: fviews(self.items@),
            ticket: self.ticket,
            version: self.version,
            revision: self.revision,
            sizes: size_map_contents(self.sizes),
            sorter: self.sorter,
            filter: match self.filter {
                Some(f) => Some(f.needle@),
                None => None,
            },
            show_hidden: self.show_hidden,
            show_excluded: self.show_excluded,
            excludes: match self.excludes {
                Some(e) => Some(e@),
                None => None,
            },
        }
    }
}

/// Copies of `fs`.
fn duplicate_files(fs: &Vec<File>) -> (res: Vec<File>)
    ensures
        fviews(res@) == fviews(fs@),
{
    let mut res: Vec<File> = Vec::new();
    let mut i: usize = 0;
    while i < fs.len()
        invariant
            i <= fs.len(),
            fviews(res@) == fviews(fs@.take(i as int)),
        decreases fs.len() - i,
    {
        let ghost prev = fviews(res@);
        let d = fs[i].duplicate();
        res.push(d);
        proof {
            assert(fviews(res@) =~= prev.push(fs@[i as int]@));
            assert(fviews(fs@.take(i + 1)) =~= fviews(fs@.take(i as int)).push(fs@[i as int]@));
        }
        i += 1;
    }
    proof {
        assert(fs@.take(fs.len() as int) =~= fs@);
    }
    res
}

impl Entries {
    /// An empty listing, showing hidden files when `show_hidden`.
    pub fn new(show_hidden: bool) -> (e: Entries)
        ensures
            e@.hidden.len() == 0,
            e@.items.len() == 0,
            e@.ticket == 0 && e@.version == 0 && e@.revision == 0,
            e@.sizes == Map::<Seq<char>, u64>::empty(),
            e@.sorter == (FilesSorter { by: SortBy::Unsorted, reverse: false, dir_first: false }),
            e@.filter is None,
            e@.show_hidden == show_hidden,
            !e@.show_excluded,
            e@.excludes is None,
    {
        Entries {
            hidden: Vec::new(),
            items: Vec::new(),
            ticket: 0,
            version: 0,
            revision: 0,
            sizes: SizeMap::from_entries(Vec::new()),
            sorter: FilesSorter::new(SortBy::Unsorted, false, false),
            filter: None,
            show_hidden,
            show_excluded: false,
            excludes: None,
        }
    }

    /// The listed entries, in order.
    pub fn items(&self) -> (v: &Vec<File>)
        ensures
            fviews(v@) == self@.items,
    {
        &self.items
    }

    /// Whether anything can be concealed at all; when nothing can,
    /// partitioning is pure overhead.
    fn concealing(&self) -> (b: bool)
        ensures
            b == concealing(settings(self@)),
    {
        !self.show_hidden || self.filter.is_some() || (self.excludes.is_some() && !self.show_excluded)
    }

    fn conceals(&self, file: &File) -> (b: bool)
        ensures
            b == conceals(settings(self@), file@),
    {
        (file.is_hidden() && !self.show_hidden) || (match &self.filter {
            Some(ft) => !ft.matches(file.urn()),
            None => false,
        }) || (!self.show_excluded && match &self.excludes {
            Some(ex) => ex.matches(file),
            None => false,
        })
    }

    /// The entries of `files` with a non-empty key, split into the concealed
    /// ones and the shown ones.
    fn split_files(&self, files: &Vec<File>) -> (res: (Vec<File>, Vec<File>))
        ensures
            fviews(res.0@) == keep_where(settings(self@), fviews(files@), true),
            fviews(res.1@) == keep_where(settings(self@), fviews(files@), false),
    {
        let may_conceal = self.concealing();
        let mut hidden: Vec<File> = Vec::new();
        let mut items: Vec<File> = Vec::new();
        let mut i: usize = 0;
        while i < files.len()
            invariant
                i <= files.len(),
                may_conceal == concealing(settings(self@)),
                fviews(hidden@) == keep_where(settings(self@), fviews(files@.take(i as int)), true),
                fviews(items@) == keep_where(settings(self@), fviews(files@.take(i as int)), false),
            decreases files.len() - i,
        {
            let f = &files[i];
            proof {
                assert(fviews(files@.take(i + 1)).drop_last() =~= fviews(files@.take(i as int)));
                assert(fviews(files@.take(i + 1)).last() == f@);
            }
            if !f.key().is_empty() {
                let hide = if may_conceal {
                    self.conceals(f)
                } else {
                    false
                };
                let ghost ph = fviews(hidden@);
                let ghost pi = fviews(items@);
                let d = f.duplicate();
                if hide {
                    hidden.push(d);
                } else {
                    items.push(d);
                }
                proof {
                    assert(fviews(hidden@) =~= keep_where(settings(self@), fviews(files@.take(i + 1)), true));
                    assert(fviews(items@) =~= keep_where(settings(self@), fviews(files@.take(i + 1)), false));
                }
            }
            i += 1;
        }
        proof {
            assert(files@.take(files.len() as int) =~= files@);
        }
        (hidden, items)
    }

    /// Replaces the listing with a full load of `files`, made under the
    /// ticket `ticket`.
    pub fn update_full(&mut self, files: Vec<File>, ticket: u64)
        requires
            old(self)@.revision < u64::MAX,
        ensures
            final(self)@ == full_spec(old(self)@, fviews(files@), ticket),
    {
        self.ticket = ticket;
        let (hidden, items) = self.split_files(&files);
        if !(items.len() == 0 && self.items.len() == 0) {
            self.revision += 1;
        }
        self.hidden = hidden;
        self.items = items;
    }

    /// Extends the listing with a batch `files` of the load made under
    /// `ticket`, dropping a batch of another load; an empty batch starts the
    /// load `ticket` afresh.
    pub fn update_part(&mut self, files: Vec<File>, ticket: u64)
        requires
            old(self)@.revision < u64::MAX,
        ensures
            final(self)@ == part_spec(old(self)@, fviews(files@), ticket),
    {
        if files.len() > 0 {
            if ticket != self.ticket {
                return;
            }
            let (mut hidden, mut items) = self.split_files(&files);
            if items.len() > 0 {
                self.revision += 1;
            }
            self.hidden.append(&mut hidden);
            self.items.append(&mut items);
            proof {
                assert(fviews(self.hidden@) =~= part_spec(old(self)@, fviews(files@), ticket).hidden);
                assert(fviews(self.items@) =~= part_spec(old(self)@, fviews(files@), ticket).items);
            }
            return;
        }
        self.ticket = ticket;
        self.hidden.clear();
        if self.items.len() > 0 {
            self.revision += 1;
            self.items.clear();
        }
        proof {
            assert(fviews(self.hidden@) =~= Seq::<FileView>::empty());
            assert(fviews(self.items@) =~= Seq::<FileView>::empty());
        }
    }

    /// Empties the listing after the folder failed to load, starting the
    /// ticket `ticket`.
    pub fn update_ioerr(&mut self, ticket: u64)
        ensures
            final(self)@ == (EntriesView {
                ticket,
                hidden: Seq::empty(),
                items: Seq::empty(),
                ..old(self)@
            }),
    {
        self.ticket = ticket;
        self.hidden.clear();
        self.items.clear();
        proof {
            assert(fviews(self.hidden@) =~= Seq::<FileView>::empty());
            assert(fviews(self.items@) =~= Seq::<FileView>::empty());
        }
    }

    /// Sorts the listing if it changed since it was last sorted; tells
    /// whether it did.
    pub fn catchup_revision(&mut self) -> (changed: bool)
        ensures
            final(self)@ == catchup_spec(old(self)@),
            changed == (old(self)@.version != old(self)@.revision),
    {
        if self.version == self.revision {
            return false;
        }
        self.version = self.revision;
        self.sorter.sort(&mut self.items, &self.sizes);
        true
    }

    /// The position of the listed entry with key `key`; none for an empty key.
    pub fn position(&self, key: &str) -> (res: Option<usize>)
        ensures
            match res {
                Some(i) => key@.len() > 0 && position_spec(self@.items, key@, i as int),
                None => key@.len() == 0 || forall|j: int| 0 <= j < self@.items.len() ==> file_key(#[trigger] self@.items[j]) != key@,
            },
    {
        if key.is_empty() {
            return None;
        }
        let mut i: usize = 0;
        while i < self.items.len()
            invariant
                i <= self.items.len(),
                key@.len() > 0,
                forall|j: int| 0 <= j < i ==> file_key(#[trigger] self@.items[j]) != key@,
            decreases self.items.len() - i,
        {
            if string_eq(self.items[i].key(), key) {
                assert(self@.items[i as int] == self.items@[i as int]@);
                return Some(i);
            }
            i += 1;
        }
        None
    }

    /// The ticket of the load the listing belongs to.
    pub fn ticket(&self) -> (t: u64)
        ensures
            t == self@.ticket,
    {
        self.ticket
    }

    /// How the listing is ordered.
    pub fn sorter(&self) -> (s: &FilesSorter)
        ensures
            *s == self@.sorter,
    {
        &self.sorter
    }

    /// Orders the listing by `sorter` from its next catch-up on.
    pub fn set_sorter(&mut self, sorter: FilesSorter)
        requires
            old(self)@.revision < u64::MAX,
        ensures
            final(self)@ == if old(self)@.sorter == sorter {
                old(self)@
            } else {
                EntriesView { sorter, revision: (old(self)@.revision + 1) as u64, ..old(self)@ }
            },
    {
        if self.sorter != sorter {
            self.sorter = sorter;
            self.revision += 1;
        }
    }

    /// The filter in force, if any.
    pub fn filter(&self) -> (f: Option<&Filter>)
        ensures
            match f {
                Some(ft) => self@.filter == Some(ft.needle@),
                None => self@.filter is None,
            },
    {
        self.filter.as_ref()
    }

    /// Whether excluded entries are shown.
    pub fn show_excluded(&self) -> (b: bool)
        ensures
            b == self@.show_excluded,
    {
        self.show_excluded
    }

    /// Sets the exclusion rules of the folder. Which rules apply is fixed by
    /// the folder, so this is done once, before the listing is loaded; the
    /// entries already in hand are not split again.
    pub fn set_excludes(&mut self, excludes: Option<ExcludeFilter>)
        ensures
            final(self)@ == (EntriesView {
                excludes: match excludes {
                    Some(e) => Some(e@),
                    None => None,
                },
                ..old(self)@
            }),
    {
        self.excludes = excludes;
    }

    /// Shows excluded entries when `state`, conceals them otherwise; tells
    /// whether that changed anything.
    pub fn set_show_excluded(&mut self, state: bool) -> (changed: bool)
        requires
            old(self)@.revision < u64::MAX,
        ensures
            final(self)@ == show_excluded_spec(old(self)@, state),
            changed == (old(self)@.show_excluded != state),
    {
        if self.show_excluded == state {
            return false;
        }
        self.show_excluded = state;
        let ghost w = self@;
        let mut all = duplicate_files(&self.items);
        let mut rest = duplicate_files(&self.hidden);
        all.append(&mut rest);
        proof {
            assert(fviews(all@) =~= old(self)@.items + old(self)@.hidden);
        }
        let (hidden, mut items) = self.split_files(&all);
        self.sorter.sort(&mut items, &self.sizes);
        self.hidden = hidden;
        self.items = items;
        self.revision += 1;
        true
    }

    /// Sets the filter; tells whether it changed.
    pub fn set_filter(&mut self, filter: Option<Filter>) -> (changed: bool)
        ensures
            final(self)@ == filter_spec(
                old(self)@,
                match filter {
                    Some(f) => Some(f.needle@),
                    None => None,
                },
            ),
            changed == (old(self)@.filter != match filter {
                Some(f) => Some(f.needle@),
                None => None,
            }),
    {
        let same = match (&self.filter, &filter) {
            (Some(a), Some(b)) => a.same(b),
            (None, None) => true,
            _ => false,
        };
        if same {
            return false;
        }
        self.filter = filter;
        if self.filter.is_none() {
            let (hidden, mut items) = self.split_files(&self.hidden);
            self.hidden = hidden;
            if items.len() > 0 {
                let ghost shown = fviews(items@);
                self.items.append(&mut items);
                proof {
                    assert(fviews(self.items@) =~= old(self)@.items + shown);
                }
                self.sorter.sort(&mut self.items, &self.sizes);
            }
            return true;
        }
        let mut all = duplicate_files(&self.items);
        let mut rest = duplicate_files(&self.hidden);
        all.append(&mut rest);
        proof {
            assert(fviews(all@) =~= old(self)@.items + old(self)@.hidden);
        }
        let (hidden, mut items) = self.split_files(&all);
        self.sorter.sort(&mut items, &self.sizes);
        self.hidden = hidden;
        self.items = items;
        true
    }

    /// Shows hidden files when `state`, conceals them otherwise.
    pub fn set_show_hidden(&mut self, state: bool)
        requires
            old(self)@.revision < u64::MAX,
        ensures
            final(self)@ == show_hidden_spec(old(self)@, state),
    {
        if self.show_hidden == state {
            return;
        }
        self.show_hidden = state;
        let len = self.items.len();
        let mut take: Vec<File> = Vec::new();
        if self.show_hidden {
            std::mem::swap(&mut take, &mut self.hidden);
        } else {
            std::mem::swap(&mut take, &mut self.items);
        }
        if take.len() == 0 {
            proof {
                assert(fviews(self.hidden@) =~= show_hidden_spec(old(self)@, state).hidden);
                assert(fviews(self.items@) =~= show_hidden_spec(old(self)@, state).items);
            }
            return;
        }
        let (mut hidden, mut items) = self.split_files(&take);
        self.hidden.append(&mut hidden);
        self.items.append(&mut items);
        if self.items.len() != len {
            self.revision += 1;
        }
        proof {
            assert(fviews(self.hidden@) =~= show_hidden_spec(old(self)@, state).hidden);
            assert(fviews(self.items@) =~= show_hidden_spec(old(self)@, state).items);
        }
    }
    /// Records the directory sizes `sizes`; the listing changes when it is
    /// ordered by size and a size is new or different.
    pub fn update_size(&mut self, sizes: SizeMap)
        requires
            old(self)@.revision < u64::MAX,
        ensures
            final(self)@ == size_spec(old(self)@, size_map_contents(sizes)),
    {
        let ghost m = size_map_contents(sizes);
        let ghost start = size_map_contents(self.sizes);
        let pairs = sizes.drain_pairs();
        let ghost p = size_pairs(pairs@);
        let mut changed = false;
        let mut i: usize = 0;
        while i < pairs.len()
            invariant
                i <= pairs.len(),
                p == size_pairs(pairs@),
                enumerates(p, m),
                self@ == (EntriesView { sizes: size_map_contents(self.sizes), ..old(self)@ }),
                start == old(self)@.sizes,
                forall|k: Seq<char>|
                    #[trigger] size_map_contents(self.sizes).contains_key(k) <==> (start.contains_key(k) || (
                    done_keys(p, i as int).contains(k) && k.len() > 0)),
                forall|k: Seq<char>|
                    #[trigger] size_map_contents(self.sizes).contains_key(k) ==> size_map_contents(self.sizes)[k]
                        == if done_keys(p, i as int).contains(k) && k.len() > 0 {
                        m[k]
                    } else {
                        start[k]
                    },
                changed == exists|j: int|
                    0 <= j < i && (#[trigger] p[j]).0.len() > 0 && !(start.contains_key(p[j].0) && start[p[j].0]
                        == p[j].1),
            decreases pairs.len() - i,
        {
            let k = &pairs[i].0;
            let size = pairs[i].1;
            proof {
                assert(p[i as int] == (k@, size));
                assert(m.contains_key(k@) && m[k@] == size);
                assert(!done_keys(p, i as int).contains(k@)) by {
                    if done_keys(p, i as int).contains(k@) {
                        let j = choose|j: int| 0 <= j < i && (#[trigger] p[j]).0 == k@;
                        assert(p[j].0 != p[i as int].0);
                    }
                }
                assert forall|q: Seq<char>| done_keys(p, i + 1).contains(q) <==> (done_keys(p, i as int).contains(q) || q == k@) by {
                    if done_keys(p, i + 1).contains(q) {
                        let j = choose|j: int| 0 <= j < i + 1 && (#[trigger] p[j]).0 == q;
                        if j < i {
                            assert(done_keys(p, i as int).contains(q));
                        }
                    }
                    if done_keys(p, i as int).contains(q) {
                        let j = choose|j: int| 0 <= j < i && (#[trigger] p[j]).0 == q;
                        assert(0 <= j < i + 1 && p[j].0 == q);
                    }
                    if q == k@ {
                        assert(0 <= i < i + 1 && p[i as int].0 == q);
                    }
                }
            }
            if !k.as_str().is_empty() {
                let prev = self.sizes.put(k.clone(), size);
                let differs = match prev {
                    Some(n) => n != size,
                    None => true,
                };
                proof {
                    assert(differs == !(start.contains_key(k@) && start[k@] == size));
                }
                changed = changed || differs;
            }
            proof {
                assert(changed == exists|j: int|
                    0 <= j < i + 1 && (#[trigger] p[j]).0.len() > 0 && !(start.contains_key(p[j].0)
                        && start[p[j].0] == p[j].1)) by {
                    if k@.len() > 0 && !(start.contains_key(k@) && start[k@] == size) {
                        assert(p[i as int].0.len() > 0);
                    }
                }
            }
            i += 1;
        }
        proof {
            assert forall|q: Seq<char>| done_keys(p, p.len() as int).contains(q) <==> m.contains_key(q) by {
                if m.contains_key(q) {
                    let j = choose|j: int| 0 <= j < p.len() && (#[trigger] p[j]).0 == q;
                }
                if done_keys(p, p.len() as int).contains(q) {
                    let j = choose|j: int| 0 <= j < p.len() && (#[trigger] p[j]).0 == q;
                }
            }
            assert(size_map_contents(self.sizes) =~= merged_sizes(start, m));
            assert(changed == sizes_changed(start, m)) by {
                if changed {
                    let j = choose|j: int|
                        0 <= j < p.len() && (#[trigger] p[j]).0.len() > 0 && !(start.contains_key(p[j].0)
                            && start[p[j].0] == p[j].1);
                    assert(fresh_size(m, p[j].0));
                }
                if sizes_changed(start, m) {
                    let q = choose|q: Seq<char>| #[trigger] fresh_size(m, q) && !(start.contains_key(q) && start[q] == m[q]);
                    let j = choose|j: int| 0 <= j < p.len() && (#[trigger] p[j]).0 == q;
                }
            }
        }
        let by_size = match self.sorter.by {
            SortBy::Size => true,
            _ => false,
        };
        if changed && by_size {
            self.revision += 1;
        }
    }

    /// Deletes the entries with the keys `keys`, each key taking out the
    /// first entry it names, listed ones first; gives the positions the
    /// deleted listed entries had.
    pub fn update_deleting(&mut self, keys: KeySet) -> (deleted: Vec<usize>)
        requires
            old(self)@.revision < u64::MAX,
        ensures
            (final(self)@, deleted@) == deleting_spec(old(self)@, key_set_contents(keys)),
    {
        let mut keys = keys;
        proof {
            reveal_strlit("");
        }
        keys.take("");
        let ghost k0 = key_set_contents(keys);
        let mut deleted: Vec<usize> = Vec::new();
        let mut kept: Vec<File> = Vec::new();
        let mut i: usize = 0;
        while i < self.items.len()
            invariant
                i <= self.items.len(),
                self.items == old(self).items,
                (fviews(kept@), deleted@, key_set_contents(keys)) == del_pass(
                    fviews(self.items@.take(i as int)),
                    k0,
                ),
            decreases self.items.len() - i,
        {
            proof {
                assert(fviews(self.items@.take(i + 1)).drop_last() =~= fviews(self.items@.take(i as int)));
                assert(fviews(self.items@.take(i + 1)).last() == self.items@[i as int]@);
            }
            let f = &self.items[i];
            let ghost pk = fviews(kept@);
            if keys.take(f.key()) {
                deleted.push(i);
            } else {
                let d = f.duplicate();
                kept.push(d);
                proof {
                    assert(fviews(kept@) =~= pk.push(self.items@[i as int]@));
                }
            }
            i += 1;
        }
        let ghost k1 = key_set_contents(keys);
        let mut kept_hidden: Vec<File> = Vec::new();
        let mut j: usize = 0;
        while j < self.hidden.len()
            invariant
                j <= self.hidden.len(),
                self.hidden == old(self).hidden,
                (fviews(kept_hidden@), key_set_contents(keys)) == ({
                    let r = del_pass(fviews(self.hidden@.take(j as int)), k1);
                    (r.0, r.2)
                }),
            decreases self.hidden.len() - j,
        {
            proof {
                assert(fviews(self.hidden@.take(j + 1)).drop_last() =~= fviews(self.hidden@.take(j as int)));
                assert(fviews(self.hidden@.take(j + 1)).last() == self.hidden@[j as int]@);
            }
            let f = &self.hidden[j];
            let ghost pk = fviews(kept_hidden@);
            if !keys.take(f.key()) {
                let d = f.duplicate();
                kept_hidden.push(d);
                proof {
                    assert(fviews(kept_hidden@) =~= pk.push(self.hidden@[j as int]@));
                }
            }
            j += 1;
        }
        proof {
            assert(self.items@.take(self.items.len() as int) =~= self.items@);
            assert(self.hidden@.take(self.hidden.len() as int) =~= self.hidden@);
            assert(""@ =~= Seq::<char>::empty());
        }
        self.items = kept;
        self.hidden = kept_hidden;
        if deleted.len() > 0 {
            self.revision += 1;
        }
        deleted
    }
    /// Adds newly created `files`: each entry that its side of the listing
    /// does not hold yet is appended there, the last of each key, in some
    /// order.
    pub fn update_creating(&mut self, files: Vec<File>)
        requires
            old(self)@.revision < u64::MAX,
        ensures
            creating_rel(old(self)@, fviews(files@), final(self)@),
    {
        if files.len() == 0 {
            return;
        }
        let (hidden, items) = self.split_files(&files);
        if items.len() > 0 {
            if absorb(&mut self.items, &items) {
                self.revision += 1;
            }
        } else {
            proof {
                lemma_extended_none(old(self)@.items);
                assert(leftover(old(self)@.items, fviews(items@)) =~= no_files());
            }
        }
        if hidden.len() > 0 {
            absorb(&mut self.hidden, &hidden);
        } else {
            proof {
                lemma_extended_none(old(self)@.hidden);
                assert(leftover(old(self)@.hidden, fviews(hidden@)) =~= no_files());
            }
        }
    }

    /// Applies the updates `files` in place, each to the first entry of its
    /// side of the listing under its key; gives the updates that found no
    /// entry, concealed first.
    pub fn update_updating(&mut self, files: FileMap) -> (res: (FileMap, FileMap))
        requires
            old(self)@.revision < u64::MAX,
        ensures
            ({
                let (v, h, i) = updating_spec(old(self)@, file_map_contents(files));
                final(self)@ == v && file_map_contents(res.0) == h && file_map_contents(res.1) == i
            }),
    {
        let ghost m = file_map_contents(files);
        let ghost st = settings(self@);
        let ghost pv = valid_pred();
        let ghost ph = side_pred(st, true);
        let ghost pi = side_pred(st, false);
        let pairs = files.drain_pairs();
        let ghost p = file_pairs(pairs@);
        let may = self.concealing();
        let mut hmap = FileMap::empty();
        let mut imap = FileMap::empty();
        let mut any = false;
        proof {
            lemma_filtered_start(p, m, ph);
            lemma_filtered_start(p, m, pi);
            lemma_filtered_start(p, m, pv);
        }
        let mut t: usize = 0;
        while t < pairs.len()
            invariant
                t <= pairs.len(),
                p == file_pairs(pairs@),
                enumerates(p, m),
                st == settings(self@),
                pv == valid_pred(),
                ph == side_pred(st, true),
                pi == side_pred(st, false),
                may == concealing(st),
                self@ == old(self)@,
                file_map_contents(hmap) == filtered(m, ph).restrict(done_keys(p, t as int)),
                file_map_contents(imap) == filtered(m, pi).restrict(done_keys(p, t as int)),
                any == (filtered(m, pv).restrict(done_keys(p, t as int)) != no_files()),
            decreases pairs.len() - t,
        {
            proof {
                lemma_filtered_step(p, m, ph, t as int);
                lemma_filtered_step(p, m, pi, t as int);
                lemma_filtered_step(p, m, pv, t as int);
                assert(p[t as int] == (pairs@[t as int].0@, pairs@[t as int].1@));
            }
            let k = &pairs[t].0;
            let f = &pairs[t].1;
            if !k.as_str().is_empty() && !f.key().is_empty() {
                proof {
                    let cur = filtered(m, pv).restrict(done_keys(p, t as int)).insert(p[t as int].0, p[t as int].1);
                    assert(cur.contains_key(p[t as int].0));
                }
                any = true;
                let hide = may && self.conceals(f);
                let d = f.duplicate();
                if hide {
                    hmap.put(k.clone(), d);
                } else {
                    imap.put(k.clone(), d);
                }
            }
            t += 1;
        }
        proof {
            lemma_filtered_end(p, m, ph);
            lemma_filtered_end(p, m, pi);
            lemma_filtered_end(p, m, pv);
            assert(valid_updates(m) =~= filtered(m, pv));
            assert(part_of(st, valid_updates(m), true) =~= filtered(m, ph));
            assert(part_of(st, valid_updates(m), false) =~= filtered(m, pi));
        }
        if !any {
            return (FileMap::empty(), FileMap::empty());
        }
        let same = refresh(&mut self.items, &mut imap);
        if !same {
            self.revision += 1;
        }
        refresh(&mut self.hidden, &mut hmap);
        (hmap, imap)
    }

    /// Inserts or updates the entries of `files`: a renamed entry first
    /// drops whatever sat at its new key, the updates land in place, and the
    /// rest are appended to their side in some order.
    pub fn update_upserting(&mut self, files: FileMap)
        requires
            old(self)@.revision < u64::MAX - 2,
        ensures
            upserting_rel(old(self)@, file_map_contents(files), final(self)@),
    {
        let ghost m = file_map_contents(files);
        let ghost pv = valid_pred();
        let pairs = files.drain_pairs();
        let ghost p = file_pairs(pairs@);
        let mut valid = FileMap::empty();
        let mut renamed = KeySet::empty();
        let mut any = false;
        proof {
            lemma_filtered_start(p, m, pv);
            assert(key_set_contents(renamed) =~= renamed_keys(file_map_contents(valid)));
        }
        let mut t: usize = 0;
        while t < pairs.len()
            invariant
                t <= pairs.len(),
                p == file_pairs(pairs@),
                enumerates(p, m),
                pv == valid_pred(),
                self@ == old(self)@,
                file_map_contents(valid) == filtered(m, pv).restrict(done_keys(p, t as int)),
                key_set_contents(renamed) == renamed_keys(file_map_contents(valid)),
                any == (file_map_contents(valid) != no_files()),
            decreases pairs.len() - t,
        {
            proof {
                lemma_filtered_step(p, m, pv, t as int);
                assert(p[t as int] == (pairs@[t as int].0@, pairs@[t as int].1@));
                assert(!done_keys(p, t as int).contains(p[t as int].0)) by {
                    if done_keys(p, t as int).contains(p[t as int].0) {
                        let j = choose|j: int| 0 <= j < t && (#[trigger] p[j]).0 == p[t as int].0;
                    }
                }
            }
            let k = &pairs[t].0;
            let f = &pairs[t].1;
            if !k.as_str().is_empty() && !f.key().is_empty() {
                let ghost before = file_map_contents(valid);
                let ghost before_ren = key_set_contents(renamed);
                if !string_eq(k.as_str(), f.key()) {
                    renamed.put(String::from_str(f.key()));
                }
                let d = f.duplicate();
                valid.put(k.clone(), d);
                proof {
                    let after = file_map_contents(valid);
                    assert(!before.contains_key(k@));
                    assert(after.contains_key(k@));
                    assert(key_set_contents(renamed) =~= renamed_keys(after)) by {
                        assert forall|q: Seq<char>| #[trigger] renamed_keys(after).contains(q) implies key_set_contents(renamed).contains(q) by {
                            let k2 = choose|k2: Seq<char>| #[trigger] after.contains_key(k2) && k2 != file_key(after[k2]) && q == file_key(after[k2]);
                            if k2 != k@ {
                                assert(before.contains_key(k2) && before[k2] == after[k2]);
                                assert(renamed_keys(before).contains(q));
                            }
                        }
                        assert forall|q: Seq<char>| key_set_contents(renamed).contains(q) implies #[trigger] renamed_keys(after).contains(q) by {
                            if before_ren.contains(q) {
                                let k2 = choose|k2: Seq<char>| #[trigger] before.contains_key(k2) && k2 != file_key(before[k2]) && q == file_key(before[k2]);
                                assert(after.contains_key(k2) && after[k2] == before[k2]);
                            } else {
                                assert(after[k@] == f@);
                            }
                        }
                    }
                }
                any = true;
            }
            t += 1;
        }
        proof {
            lemma_filtered_end(p, m, pv);
            assert(valid_updates(m) =~= filtered(m, pv));
        }
        if !any {
            return;
        }
        let ghost m0 = valid_updates(m);
        self.update_deleting(renamed);
        let ghost v1 = self@;
        let (hidden, items) = self.update_updating(valid);
        let ghost v2 = self@;
        let ghost hl = file_map_contents(hidden);
        let ghost il = file_map_contents(items);
        if hidden.holds_nothing() && items.holds_nothing() {
            proof {
                lemma_extended_none(v2.hidden);
                lemma_extended_none(v2.items);
            }
            return;
        }
        let no_items = items.holds_nothing();
        append_values(&mut self.hidden, hidden);
        if !no_items {
            self.revision += 1;
            append_values(&mut self.items, items);
        } else {
            proof {
                lemma_extended_none(v2.items);
            }
        }
    }
}

/// `s` followed by nothing is `s` extended by no entries.
pub proof fn lemma_extended_none(s: Seq<FileView>)
    ensures
        extended(s, s, no_files()),
{
    let p = Seq::<(Seq<char>, FileView)>::empty();
    assert(s.take(s.len() as int) =~= s);
    assert(s.skip(s.len() as int) =~= p.map_values(|q: (Seq<char>, FileView)| q.1));
    assert(enumerates(p, no_files()));
}

/// Appends every entry of `m`, in the map's own order.
fn append_values(dist: &mut Vec<File>, m: FileMap)
    ensures
        extended(fviews(final(dist)@), fviews(old(dist)@), file_map_contents(m)),
{
    let ghost mc = file_map_contents(m);
    let ghost base = fviews(dist@);
    let pairs = m.drain_pairs();
    let ghost p = file_pairs(pairs@);
    let ghost vals = p.map_values(|q: (Seq<char>, FileView)| q.1);
    let mut t: usize = 0;
    while t < pairs.len()
        invariant
            t <= pairs.len(),
            p == file_pairs(pairs@),
            vals == p.map_values(|q: (Seq<char>, FileView)| q.1),
            fviews(dist@) == base + vals.take(t as int),
        decreases pairs.len() - t,
    {
        let ghost prev = fviews(dist@);
        let d = pairs[t].1.duplicate();
        dist.push(d);
        proof {
            assert(fviews(dist@) =~= prev.push(pairs@[t as int].1@));
            assert(vals.take(t + 1) =~= vals.take(t as int).push(pairs@[t as int].1@));
        }
        t += 1;
    }
    proof {
        assert(vals.take(pairs.len() as int) =~= vals);
        let w = fviews(dist@);
        assert(w.take(base.len() as int) =~= base);
        assert(w.skip(base.len() as int) =~= vals);
        assert(enumerates(p, mc) && w.skip(base.len() as int) == p.map_values(
            |q: (Seq<char>, FileView)| q.1,
        ));
    }
}

/// Appends the entries of `src` whose key `dist` lacks, the last of each key,
/// in some order; tells whether there were any.
fn absorb(dist: &mut Vec<File>, src: &Vec<File>) -> (added: bool)
    ensures
        extended(fviews(final(dist)@), fviews(old(dist)@), leftover(fviews(old(dist)@), fviews(src@))),
        added == (leftover(fviews(old(dist)@), fviews(src@)) != no_files()),
{
    let ghost m0 = map_of(keyed(fviews(src@)));
    let mut todo = FileMap::empty();
    let mut i: usize = 0;
    while i < src.len()
        invariant
            i <= src.len(),
            file_map_contents(todo) == map_of(keyed(fviews(src@.take(i as int)))),
        decreases src.len() - i,
    {
        proof {
            assert(keyed(fviews(src@.take(i + 1))).drop_last() =~= keyed(fviews(src@.take(i as int))));
            assert(keyed(fviews(src@.take(i + 1))).last() == (file_key(src@[i as int]@), src@[i as int]@));
        }
        let k = String::from_str(src[i].key());
        let d = src[i].duplicate();
        todo.put(k, d);
        i += 1;
    }
    proof {
        assert(src@.take(src.len() as int) =~= src@);
    }
    let ghost base = fviews(dist@);
    let mut j: usize = 0;
    while j < dist.len()
        invariant
            j <= dist.len(),
            base == fviews(dist@),
            file_map_contents(todo) == m0.remove_keys(keys_in(base.take(j as int))),
        decreases dist.len() - j,
    {
        proof {
            assert(keys_in(base.take(j + 1)) =~= keys_in(base.take(j as int)).insert(file_key(base[j as int]))) by {
                assert forall|q: Seq<char>| keys_in(base.take(j + 1)).contains(q) implies keys_in(base.take(j as int)).insert(file_key(base[j as int])).contains(q) by {
                    let t = choose|t: int| 0 <= t < base.take(j + 1).len() && file_key(#[trigger] base.take(j + 1)[t]) == q;
                    if t < j {
                        assert(base.take(j as int)[t] == base.take(j + 1)[t]);
                    }
                }
                assert forall|q: Seq<char>| keys_in(base.take(j as int)).insert(file_key(base[j as int])).contains(q) implies keys_in(base.take(j + 1)).contains(q) by {
                    if q == file_key(base[j as int]) {
                        assert(base.take(j + 1)[j as int] == base[j as int]);
                    } else {
                        let t = choose|t: int| 0 <= t < base.take(j as int).len() && file_key(#[trigger] base.take(j as int)[t]) == q;
                        assert(base.take(j + 1)[t] == base.take(j as int)[t]);
                    }
                }
            }
            assert(m0.remove_keys(keys_in(base.take(j + 1))) =~= m0.remove_keys(keys_in(base.take(j as int)))
                .remove(file_key(base[j as int])));
        }
        todo.take(dist[j].key());
        j += 1;
    }
    proof {
        assert(base.take(dist.len() as int) =~= base);
    }
    if todo.holds_nothing() {
        proof {
            lemma_extended_none(base);
        }
        return false;
    }
    append_values(dist, todo);
    true
}

/// Replaces each entry of `dist` whose key `src` holds by that update, taking
/// it out of `src`; tells whether every replacement kept the metadata and the
/// key.
fn refresh(dist: &mut Vec<File>, src: &mut FileMap) -> (same: bool)
    ensures
        (fviews(final(dist)@), file_map_contents(*final(src)), same) == upd_pass(
            fviews(old(dist)@),
            file_map_contents(*old(src)),
        ),
{
    let ghost d0 = fviews(dist@);
    let ghost s0 = file_map_contents(*src);
    let mut b = true;
    let mut i: usize = 0;
    while i < dist.len()
        invariant
            i <= dist.len(),
            dist@.len() == d0.len(),
            forall|j: int| i <= j < d0.len() ==> (#[trigger] dist@[j])@ == d0[j],
            (fviews(dist@).take(i as int), file_map_contents(*src), b) == upd_pass(d0.take(i as int), s0),
        decreases dist.len() - i,
    {
        proof {
            assert(d0.take(i + 1).drop_last() =~= d0.take(i as int));
            assert(d0.take(i + 1).last() == d0[i as int]);
        }
        let ghost before = fviews(dist@);
        let found = src.take(dist[i].key());
        match found {
            Some(f) => {
                let hits = dist[i].cha.hits(&f.cha);
                let same_key = string_eq(dist[i].key(), f.key());
                b = b && hits && same_key;
                dist.set(i, f);
                proof {
                    assert(fviews(dist@).take(i + 1) =~= before.take(i as int).push(dist@[i as int]@));
                }
            },
            None => {
                proof {
                    assert(fviews(dist@).take(i + 1) =~= before.take(i as int).push(d0[i as int]));
                }
            },
        }
        i += 1;
    }
    proof {
        assert(d0.take(d0.len() as int) =~= d0);
        assert(fviews(dist@).take(d0.len() as int) =~= fviews(dist@));
    }
    b
}

} // verus!

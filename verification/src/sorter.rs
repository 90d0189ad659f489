//! The order of a listing.

use vstd::prelude::*;
use crate::file::{file_key, name_of, File, FileView};
use crate::maps::{size_map_contents, SizeMap};

verus! {

/// What a listing is ordered by.
#[derive(Clone, Copy, Debug, PartialEq, Eq, Structural)]
pub enum SortBy {
    /// The order the entries arrived in.
    Unsorted,
    /// Name, compared character by character.
    Alphabetical,
    /// Modification time.
    Modified,
    /// Size: a directory's computed size where one is known, else the length.
    Size,
}

/// How a listing is ordered.
#[derive(Clone, Copy, Debug, PartialEq, Eq, Structural)]
pub struct FilesSorter {
    pub by: SortBy,
    pub reverse: bool,
    /// Directories come before files.
    pub dir_first: bool,
}

/// `a` comes before `b` in the order of code points.
pub open spec fn lex_lt(a: Seq<char>, b: Seq<char>) -> bool
    decreases a.len(),
{
    if a.len() == 0 {
        b.len() > 0
    } else if b.len() == 0 {
        false
    } else if a[0] != b[0] {
        (a[0] as u32) < (b[0] as u32)
    } else {
        lex_lt(a.skip(1), b.skip(1))
    }
}

/// The size a listing sorts `f` by.
pub open spec fn size_of(sizes: Map<Seq<char>, u64>, f: FileView) -> u64 {
    if sizes.contains_key(file_key(f)) {
        sizes[file_key(f)]
    } else {
        f.cha.len
    }
}

/// `a` comes before `b` by the key `by` alone.
pub open spec fn by_lt(by: SortBy, sizes: Map<Seq<char>, u64>, a: FileView, b: FileView) -> bool {
    match by {
        SortBy::Unsorted => false,
        SortBy::Alphabetical => lex_lt(name_of(a.url.loc), name_of(b.url.loc)),
        SortBy::Modified => a.cha.mtime < b.cha.mtime,
        SortBy::Size => size_of(sizes, a) < size_of(sizes, b),
    }
}

/// The group `f` sorts in: directories first when the sorter says so.
pub open spec fn group(s: FilesSorter, f: FileView) -> int {
    if s.dir_first && !f.cha.is_dir {
        1
    } else {
        0
    }
}

/// `a` sorts strictly before `b`.
pub open spec fn sorts_before(s: FilesSorter, sizes: Map<Seq<char>, u64>, a: FileView, b: FileView) -> bool {
    if group(s, a) != group(s, b) {
        group(s, a) < group(s, b)
    } else if s.reverse {
        by_lt(s.by, sizes, b, a)
    } else {
        by_lt(s.by, sizes, a, b)
    }
}

/// `xs` with `x` inserted after every entry it does not sort before.
pub open spec fn insert_sorted(s: FilesSorter, sizes: Map<Seq<char>, u64>, xs: Seq<FileView>, x: FileView) -> Seq<FileView>
    decreases xs.len(),
{
    if xs.len() > 0 && sorts_before(s, sizes, x, xs.last()) {
        insert_sorted(s, sizes, xs.drop_last(), x).push(xs.last())
    } else {
        xs.push(x)
    }
}

/// `xs` in the sorter's order; entries that tie keep their order.
pub open spec fn sort_spec(s: FilesSorter, sizes: Map<Seq<char>, u64>, xs: Seq<FileView>) -> Seq<FileView>
    decreases xs.len(),
{
    if xs.len() == 0 {
        Seq::empty()
    } else {
        insert_sorted(s, sizes, sort_spec(s, sizes, xs.drop_last()), xs.last())
    }
}

pub proof fn lemma_insert_at(s: FilesSorter, sizes: Map<Seq<char>, u64>, xs: Seq<FileView>, x: FileView, k: int)
    requires
        0 <= k <= xs.len(),
        forall|j: int| k <= j < xs.len() ==> sorts_before(s, sizes, x, #[trigger] xs[j]),
        k == 0 || !sorts_before(s, sizes, x, xs[k - 1]),
    ensures
        insert_sorted(s, sizes, xs, x) == xs.insert(k, x),
    decreases xs.len(),
{
    if xs.len() > k {
        assert(sorts_before(s, sizes, x, xs[xs.len() - 1]));
        let d = xs.drop_last();
        assert forall|j: int| k <= j < d.len() implies sorts_before(s, sizes, x, #[trigger] d[j]) by {
            assert(d[j] == xs[j]);
        }
        if k > 0 {
            assert(d[k - 1] == xs[k - 1]);
        }
        lemma_insert_at(s, sizes, d, x, k);
        assert(d.insert(k, x).push(xs.last()) =~= xs.insert(k, x));
    } else {
        assert(xs.push(x) =~= xs.insert(k, x));
    }
}

/// Sorting keeps the entries: only their order changes.
pub proof fn lemma_sort_keeps_entries(s: FilesSorter, sizes: Map<Seq<char>, u64>, xs: Seq<FileView>)
    ensures
        sort_spec(s, sizes, xs).to_multiset() == xs.to_multiset(),
        sort_spec(s, sizes, xs).len() == xs.len(),
    decreases xs.len(),
{
    broadcast use vstd::seq_lib::group_to_multiset_ensures;

    if xs.len() > 0 {
        lemma_sort_keeps_entries(s, sizes, xs.drop_last());
        lemma_insert_keeps_entries(s, sizes, sort_spec(s, sizes, xs.drop_last()), xs.last());
        assert(xs.drop_last().push(xs.last()) =~= xs);
    }
}

pub proof fn lemma_insert_keeps_entries(s: FilesSorter, sizes: Map<Seq<char>, u64>, xs: Seq<FileView>, x: FileView)
    ensures
        insert_sorted(s, sizes, xs, x).to_multiset() == xs.to_multiset().insert(x),
        insert_sorted(s, sizes, xs, x).len() == xs.len() + 1,
    decreases xs.len(),
{
    broadcast use vstd::seq_lib::group_to_multiset_ensures;

    if xs.len() > 0 && sorts_before(s, sizes, x, xs.last()) {
        lemma_insert_keeps_entries(s, sizes, xs.drop_last(), x);
        assert(xs.drop_last().push(xs.last()) =~= xs);
        assert(xs.drop_last().to_multiset().insert(x).insert(xs.last()) =~= xs.drop_last().to_multiset().insert(
            xs.last(),
        ).insert(x));
    }
}

/// Whether `a` comes before `b` in the order of code points.
fn lex_less(a: &str, b: &str) -> (res: bool)
    ensures
        res == lex_lt(a@, b@),
{
    let n = a.unicode_len();
    let m = b.unicode_len();
    let mut i: usize = 0;
    proof {
        assert(a@.skip(0) =~= a@);
        assert(b@.skip(0) =~= b@);
    }
    while i < n && i < m && a.get_char(i) == b.get_char(i)
        invariant
            n == a@.len(),
            m == b@.len(),
            i <= n,
            i <= m,
            lex_lt(a@, b@) == lex_lt(a@.skip(i as int), b@.skip(i as int)),
        decreases n - i,
    {
        proof {
            let x = a@.skip(i as int);
            let y = b@.skip(i as int);
            assert(x[0] == y[0]);
            assert(x.skip(1) =~= a@.skip(i + 1));
            assert(y.skip(1) =~= b@.skip(i + 1));
        }
        i += 1;
    }
    proof {
        let x = a@.skip(i as int);
        let y = b@.skip(i as int);
        if i < n && i < m {
            assert(x[0] == a@[i as int]);
            assert(y[0] == b@[i as int]);
        }
    }
    if i == n {
        i < m
    } else if i == m {
        false
    } else {
        (a.get_char(i) as u32) < (b.get_char(i) as u32)
    }
}

impl FilesSorter {
    pub fn new(by: SortBy, reverse: bool, dir_first: bool) -> (s: FilesSorter)
        ensures
            s == (FilesSorter { by, reverse, dir_first }),
    {
        FilesSorter { by, reverse, dir_first }
    }

    fn size(sizes: &SizeMap, f: &File) -> (n: u64)
        ensures
            n == size_of(size_map_contents(*sizes), f@),
    {
        match sizes.get(f.key()) {
            Some(n) => n,
            None => f.cha.len,
        }
    }

    fn by_less(&self, sizes: &SizeMap, a: &File, b: &File) -> (res: bool)
        ensures
            res == by_lt(self.by, size_map_contents(*sizes), a@, b@),
    {
        match self.by {
            SortBy::Unsorted => false,
            SortBy::Alphabetical => lex_less(a.urn(), b.urn()),
            SortBy::Modified => a.cha.mtime < b.cha.mtime,
            SortBy::Size => Self::size(sizes, a) < Self::size(sizes, b),
        }
    }

    /// Whether `a` sorts strictly before `b`.
    pub fn before(&self, sizes: &SizeMap, a: &File, b: &File) -> (res: bool)
        ensures
            res == sorts_before(*self, size_map_contents(*sizes), a@, b@),
    {
        let ga: u8 = if self.dir_first && !a.cha.is_dir { 1 } else { 0 };
        let gb: u8 = if self.dir_first && !b.cha.is_dir { 1 } else { 0 };
        if ga != gb {
            ga < gb
        } else if self.reverse {
            self.by_less(sizes, b, a)
        } else {
            self.by_less(sizes, a, b)
        }
    }

    /// Puts `items` in order; entries that tie keep their order.
    pub fn sort(&self, items: &mut Vec<File>, sizes: &SizeMap)
        ensures
            final(items)@.map_values(|f: File| f@) == sort_spec(
                *self,
                size_map_contents(*sizes),
                old(items)@.map_values(|f: File| f@),
            ),
    {
        let ghost sz = size_map_contents(*sizes);
        let ghost orig = items@.map_values(|f: File| f@);
        let mut src: Vec<File> = Vec::new();
        std::mem::swap(&mut src, items);
        let mut out: Vec<File> = Vec::new();
        let ghost mut done: Seq<FileView> = Seq::empty();
        while src.len() > 0
            invariant
                sz == size_map_contents(*sizes),
                done + src@.map_values(|f: File| f@) == orig,
                out@.map_values(|f: File| f@) == sort_spec(*self, sz, done),
            decreases src@.len(),
        {
            let x = src.remove(0);
            let ghost before_out = out@.map_values(|f: File| f@);
            let mut k = out.len();
            while k > 0 && self.before(sizes, &x, &out[k - 1])
                invariant
                    sz == size_map_contents(*sizes),
                    k <= out@.len(),
                    before_out == out@.map_values(|f: File| f@),
                    forall|j: int| k <= j < before_out.len() ==> sorts_before(*self, sz, x@, #[trigger] before_out[j]),
                decreases k,
            {
                k -= 1;
            }
            proof {
                lemma_insert_at(*self, sz, before_out, x@, k as int);
                let nd = done.push(x@);
                assert(nd.drop_last() =~= done);
                assert(nd + src@.map_values(|f: File| f@) =~= orig);
                done = nd;
            }
            out.insert(k, x);
            proof {
                assert(out@.map_values(|f: File| f@) =~= before_out.insert(k as int, x@));
            }
        }
        proof {
            assert(done =~= orig);
        }
        *items = out;
    }
}

} // verus!

//! The keyed collections a listing is updated with: `hashbrown` maps and
//! sets keyed by an entry's path.

use vstd::prelude::*;
use hashbrown::{HashMap, HashSet};
use crate::file::{File, FileView};

verus! {

/// `pairs` lists every key of `m` exactly once, each with its value.
pub open spec fn enumerates<V>(pairs: Seq<(Seq<char>, V)>, m: Map<Seq<char>, V>) -> bool {
    &&& forall|i: int, j: int| 0 <= i < j < pairs.len() ==> (#[trigger] pairs[i]).0 != (#[trigger] pairs[j]).0
    &&& forall|i: int|
        0 <= i < pairs.len() ==> m.contains_key((#[trigger] pairs[i]).0) && m[pairs[i].0] == pairs[i].1
    &&& forall|k: Seq<char>| #[trigger] m.contains_key(k) ==> exists|i: int| 0 <= i < pairs.len() && (#[trigger] pairs[i]).0 == k
}

/// The map built from `pairs` by inserting them in order: a later pair wins.
pub open spec fn map_of<V>(pairs: Seq<(Seq<char>, V)>) -> Map<Seq<char>, V>
    decreases pairs.len(),
{
    if pairs.len() == 0 {
        Map::empty()
    } else {
        map_of(pairs.drop_last()).insert(pairs.last().0, pairs.last().1)
    }
}

/// The map of no entries.
pub open spec fn no_files() -> Map<Seq<char>, FileView> {
    Map::empty()
}

/// The map of no texts.
pub open spec fn no_texts() -> Map<Seq<char>, Seq<char>> {
    Map::empty()
}

/// The map of no sizes.
pub open spec fn no_sizes() -> Map<Seq<char>, u64> {
    Map::empty()
}

/// The views of a list of path-keyed entries.
pub open spec fn file_pairs(v: Seq<(String, File)>) -> Seq<(Seq<char>, FileView)> {
    v.map_values(|p: (String, File)| (p.0@, p.1@))
}

/// The views of a list of keyed texts.
pub open spec fn text_pairs(v: Seq<(String, String)>) -> Seq<(Seq<char>, Seq<char>)> {
    v.map_values(|p: (String, String)| (p.0@, p.1@))
}

/// The views of a list of path-keyed sizes.
pub open spec fn size_pairs(v: Seq<(String, u64)>) -> Seq<(Seq<char>, u64)> {
    v.map_values(|p: (String, u64)| (p.0@, p.1))
}

/// Entries keyed by path, as the file watcher hands them over.
#[verifier::external_body]
pub struct FileMap {
    map: HashMap<String, File>,
}

/// Directory sizes keyed by path.
#[verifier::external_body]
pub struct SizeMap {
    map: HashMap<String, u64>,
}

/// A set of paths.
#[verifier::external_body]
pub struct KeySet {
    set: HashSet<String>,
}

/// Texts keyed by text: paths of repositories and what is known of them.
#[verifier::external_body]
pub struct TextMap {
    map: HashMap<String, String>,
}

/// What a `TextMap` holds.
pub uninterp spec fn text_map_contents(m: TextMap) -> Map<Seq<char>, Seq<char>>;

/// What a `FileMap` holds.
pub uninterp spec fn file_map_contents(m: FileMap) -> Map<Seq<char>, FileView>;

/// What a `SizeMap` holds.
pub uninterp spec fn size_map_contents(m: SizeMap) -> Map<Seq<char>, u64>;

/// What a `KeySet` holds.
pub uninterp spec fn key_set_contents(s: KeySet) -> Set<Seq<char>>;

impl FileMap {
    /// `hashbrown::HashMap::new`: claimed to hold nothing.
    #[verifier::external_body]
    pub(crate) fn empty() -> (m: FileMap)
        ensures
            file_map_contents(m) == no_files(),
    {
        FileMap { map: HashMap::new() }
    }

    /// `hashbrown::HashMap::insert`: claimed to map `key` to `file`, leave the
    /// other keys as they were, and hand back what `key` held before.
    #[verifier::external_body]
    pub(crate) fn put(&mut self, key: String, file: File) -> (prev: Option<File>)
        ensures
            file_map_contents(*final(self)) == file_map_contents(*old(self)).insert(key@, file@),
            match prev {
                Some(f) => file_map_contents(*old(self)).contains_key(key@) && file_map_contents(
                    *old(self),
                )[key@] == f@,
                None => !file_map_contents(*old(self)).contains_key(key@),
            },
    {
        self.map.insert(key, file)
    }

    /// `hashbrown::HashMap::remove`: claimed to drop `key` and hand back what
    /// it held.
    #[verifier::external_body]
    pub(crate) fn take(&mut self, key: &str) -> (prev: Option<File>)
        ensures
            file_map_contents(*final(self)) == file_map_contents(*old(self)).remove(key@),
            match prev {
                Some(f) => file_map_contents(*old(self)).contains_key(key@) && file_map_contents(
                    *old(self),
                )[key@] == f@,
                None => !file_map_contents(*old(self)).contains_key(key@),
            },
    {
        self.map.remove(key)
    }

    /// `hashbrown::HashMap::is_empty`: claimed true exactly when the map holds
    /// nothing.
    #[verifier::external_body]
    pub(crate) fn holds_nothing(&self) -> (b: bool)
        ensures
            b == (file_map_contents(*self) == no_files()),
    {
        self.map.is_empty()
    }

    /// `hashbrown::HashMap::into_iter`, collected: claimed to list every key
    /// once with its entry. The order is the map's own, which depends on the
    /// hasher's seed, so nothing is claimed of it.
    #[verifier::external_body]
    pub(crate) fn drain_pairs(self) -> (v: Vec<(String, File)>)
        ensures
            enumerates(file_pairs(v@), file_map_contents(self)),
    {
        self.map.into_iter().collect()
    }

    /// A map holding `pairs`, a later pair winning over an earlier one with
    /// the same key.
    pub fn from_entries(pairs: Vec<(String, File)>) -> (m: FileMap)
        ensures
            file_map_contents(m) == map_of(file_pairs(pairs@)),
    {
        let ghost all = file_pairs(pairs@);
        let mut m = FileMap::empty();
        let mut rest = pairs;
        let ghost mut done: Seq<(Seq<char>, FileView)> = Seq::empty();
        while rest.len() > 0
            invariant
                done + file_pairs(rest@) == all,
                file_map_contents(m) == map_of(done),
            decreases rest@.len(),
        {
            let (k, f) = rest.remove(0);
            proof {
                let nd = done.push((k@, f@));
                assert(nd.drop_last() =~= done);
                assert(nd + file_pairs(rest@) =~= all);
                done = nd;
            }
            m.put(k, f);
        }
        proof {
            assert(done =~= all);
        }
        m
    }

    /// Every key with its entry, in an order nothing is claimed of.
    pub fn entries(self) -> (v: Vec<(String, File)>)
        ensures
            enumerates(file_pairs(v@), file_map_contents(self)),
    {
        self.drain_pairs()
    }
}

impl SizeMap {
    /// `hashbrown::HashMap::new`: claimed to hold nothing.
    #[verifier::external_body]
    pub(crate) fn empty() -> (m: SizeMap)
        ensures
            size_map_contents(m) == no_sizes(),
    {
        SizeMap { map: HashMap::new() }
    }

    /// `hashbrown::HashMap::insert`: claimed to map `key` to `size`, leave the
    /// other keys as they were, and hand back what `key` held before.
    #[verifier::external_body]
    pub(crate) fn put(&mut self, key: String, size: u64) -> (prev: Option<u64>)
        ensures
            size_map_contents(*final(self)) == size_map_contents(*old(self)).insert(key@, size),
            prev == if size_map_contents(*old(self)).contains_key(key@) {
                Some(size_map_contents(*old(self))[key@])
            } else {
                None
            },
    {
        self.map.insert(key, size)
    }

    /// `hashbrown::HashMap::get`: claimed to hand back what `key` holds.
    #[verifier::external_body]
    pub(crate) fn lookup(&self, key: &str) -> (res: Option<u64>)
        ensures
            res == if size_map_contents(*self).contains_key(key@) {
                Some(size_map_contents(*self)[key@])
            } else {
                None
            },
    {
        self.map.get(key).copied()
    }

    /// `hashbrown::HashMap::into_iter`, collected: claimed to list every key
    /// once with its size, in an order nothing is claimed of.
    #[verifier::external_body]
    pub(crate) fn drain_pairs(self) -> (v: Vec<(String, u64)>)
        ensures
            enumerates(size_pairs(v@), size_map_contents(self)),
    {
        self.map.into_iter().collect()
    }

    /// A map holding `pairs`, a later pair winning over an earlier one with
    /// the same key.
    pub fn from_entries(pairs: Vec<(String, u64)>) -> (m: SizeMap)
        ensures
            size_map_contents(m) == map_of(size_pairs(pairs@)),
    {
        let ghost all = size_pairs(pairs@);
        let mut m = SizeMap::empty();
        let mut rest = pairs;
        let ghost mut done: Seq<(Seq<char>, u64)> = Seq::empty();
        while rest.len() > 0
            invariant
                done + size_pairs(rest@) == all,
                size_map_contents(m) == map_of(done),
            decreases rest@.len(),
        {
            let (k, v) = rest.remove(0);
            proof {
                let nd = done.push((k@, v));
                assert(nd.drop_last() =~= done);
                assert(nd + size_pairs(rest@) =~= all);
                done = nd;
            }
            m.put(k, v);
        }
        proof {
            assert(done =~= all);
        }
        m
    }

    /// The size recorded for `key`, if any.
    pub fn get(&self, key: &str) -> (res: Option<u64>)
        ensures
            res == if size_map_contents(*self).contains_key(key@) {
                Some(size_map_contents(*self)[key@])
            } else {
                None
            },
    {
        self.lookup(key)
    }
}

impl KeySet {
    /// `hashbrown::HashSet::new`: claimed to hold nothing.
    #[verifier::external_body]
    pub(crate) fn empty() -> (s: KeySet)
        ensures
            key_set_contents(s) == Set::<Seq<char>>::empty(),
    {
        KeySet { set: HashSet::new() }
    }

    /// `hashbrown::HashSet::insert`: claimed to add `key`.
    #[verifier::external_body]
    pub(crate) fn put(&mut self, key: String)
        ensures
            key_set_contents(*final(self)) == key_set_contents(*old(self)).insert(key@),
    {
        self.set.insert(key);
    }

    /// `hashbrown::HashSet::remove`: claimed to drop `key` and tell whether it
    /// was there.
    #[verifier::external_body]
    pub(crate) fn take(&mut self, key: &str) -> (was: bool)
        ensures
            key_set_contents(*final(self)) == key_set_contents(*old(self)).remove(key@),
            was == key_set_contents(*old(self)).contains(key@),
    {
        self.set.remove(key)
    }

    /// A set holding `keys`.
    pub fn from_keys(keys: Vec<String>) -> (s: KeySet)
        ensures
            forall|k: Seq<char>|
                #[trigger] key_set_contents(s).contains(k) <==> exists|i: int|
                    0 <= i < keys@.len() && (#[trigger] keys@[i])@ == k,
    {
        let mut s = KeySet::empty();
        let mut i: usize = 0;
        while i < keys.len()
            invariant
                i <= keys.len(),
                forall|k: Seq<char>|
                    #[trigger] key_set_contents(s).contains(k) <==> exists|j: int|
                        0 <= j < i && (#[trigger] keys@[j])@ == k,
            decreases keys.len() - i,
        {
            let k = keys[i].clone();
            s.put(k);
            proof {
                assert forall|k: Seq<char>|
                    #[trigger] key_set_contents(s).contains(k) <==> exists|j: int|
                        0 <= j < i + 1 && (#[trigger] keys@[j])@ == k by {
                    if k == keys@[i as int]@ {
                        assert(keys@[i as int]@ == k);
                    }
                }
            }
            i += 1;
        }
        s
    }
}

impl TextMap {
    /// `hashbrown::HashMap::new`: claimed to hold nothing.
    #[verifier::external_body]
    pub(crate) fn empty() -> (m: TextMap)
        ensures
            text_map_contents(m) == no_texts(),
    {
        TextMap { map: HashMap::new() }
    }

    /// `hashbrown::HashMap::insert`: claimed to map `key` to `text` and leave
    /// the other keys as they were.
    #[verifier::external_body]
    pub(crate) fn put(&mut self, key: String, text: String)
        ensures
            text_map_contents(*final(self)) == text_map_contents(*old(self)).insert(key@, text@),
    {
        self.map.insert(key, text);
    }

    /// `hashbrown::HashMap::get`, the text copied out: claimed to hand back
    /// what `key` holds.
    #[verifier::external_body]
    pub(crate) fn lookup(&self, key: &str) -> (res: Option<String>)
        ensures
            match res {
                Some(t) => text_map_contents(*self).contains_key(key@) && text_map_contents(*self)[key@] == t@,
                None => !text_map_contents(*self).contains_key(key@),
            },
    {
        self.map.get(key).cloned()
    }

    /// `hashbrown::HashMap::into_iter`, collected: claimed to list every key
    /// once with its text, in an order nothing is claimed of.
    #[verifier::external_body]
    pub(crate) fn drain_pairs(self) -> (v: Vec<(String, String)>)
        ensures
            enumerates(text_pairs(v@), text_map_contents(self)),
    {
        self.map.into_iter().collect()
    }

    /// A map holding `pairs`, a later pair winning over an earlier one with
    /// the same key.
    pub fn from_entries(pairs: Vec<(String, String)>) -> (m: TextMap)
        ensures
            text_map_contents(m) == map_of(text_pairs(pairs@)),
    {
        let ghost all = text_pairs(pairs@);
        let mut m = TextMap::empty();
        let mut rest = pairs;
        let ghost mut done: Seq<(Seq<char>, Seq<char>)> = Seq::empty();
        while rest.len() > 0
            invariant
                done + text_pairs(rest@) == all,
                text_map_contents(m) == map_of(done),
            decreases rest@.len(),
        {
            let (k, v) = rest.remove(0);
            proof {
                let nd = done.push((k@, v@));
                assert(nd.drop_last() =~= done);
                assert(nd + text_pairs(rest@) =~= all);
                done = nd;
            }
            m.put(k, v);
        }
        proof {
            assert(done =~= all);
        }
        m
    }

    /// Every key with its text, in an order nothing is claimed of.
    pub fn entries(self) -> (v: Vec<(String, String)>)
        ensures
            enumerates(text_pairs(v@), text_map_contents(self)),
    {
        self.drain_pairs()
    }

    /// The text recorded for `key`, if any.
    pub fn get(&self, key: &str) -> (res: Option<String>)
        ensures
            match res {
                Some(t) => text_map_contents(*self).contains_key(key@) && text_map_contents(*self)[key@] == t@,
                None => !text_map_contents(*self).contains_key(key@),
            },
    {
        self.lookup(key)
    }
}

/// The keys of the first `i` pairs.
pub open spec fn done_keys<V>(p: Seq<(Seq<char>, V)>, i: int) -> Set<Seq<char>> {
    Set::new(|k: Seq<char>| exists|j: int| 0 <= j < i && (#[trigger] p[j]).0 == k)
}

/// The part of `m` whose entries satisfy `pred`.
pub open spec fn filtered<V>(m: Map<Seq<char>, V>, pred: spec_fn(Seq<char>, V) -> bool) -> Map<Seq<char>, V> {
    Map::new(|k: Seq<char>| m.contains_key(k) && pred(k, m[k]), |k: Seq<char>| m[k])
}

pub proof fn lemma_filtered_start<V>(p: Seq<(Seq<char>, V)>, m: Map<Seq<char>, V>, pred: spec_fn(Seq<char>, V) -> bool)
    ensures
        filtered(m, pred).restrict(done_keys(p, 0)) == Map::<Seq<char>, V>::empty(),
{
    assert(filtered(m, pred).restrict(done_keys(p, 0)) =~= Map::<Seq<char>, V>::empty());
}

pub proof fn lemma_filtered_step<V>(p: Seq<(Seq<char>, V)>, m: Map<Seq<char>, V>, pred: spec_fn(Seq<char>, V) -> bool, i: int)
    requires
        enumerates(p, m),
        0 <= i < p.len(),
    ensures
        filtered(m, pred).restrict(done_keys(p, i + 1)) == if pred(p[i].0, p[i].1) {
            filtered(m, pred).restrict(done_keys(p, i)).insert(p[i].0, p[i].1)
        } else {
            filtered(m, pred).restrict(done_keys(p, i))
        },
{
    let f = filtered(m, pred);
    assert(m.contains_key(p[i].0) && m[p[i].0] == p[i].1);
    assert forall|k: Seq<char>| done_keys(p, i + 1).contains(k) <==> (done_keys(p, i).contains(k) || k == p[i].0) by {
        if done_keys(p, i + 1).contains(k) {
            let j = choose|j: int| 0 <= j < i + 1 && (#[trigger] p[j]).0 == k;
            if j < i {
                assert(done_keys(p, i).contains(k));
            }
        }
        if done_keys(p, i).contains(k) {
            let j = choose|j: int| 0 <= j < i && (#[trigger] p[j]).0 == k;
            assert(0 <= j < i + 1 && p[j].0 == k);
        }
        if k == p[i].0 {
            assert(0 <= i < i + 1 && p[i].0 == k);
        }
    }
    if pred(p[i].0, p[i].1) {
        assert(f.restrict(done_keys(p, i + 1)) =~= f.restrict(done_keys(p, i)).insert(p[i].0, p[i].1));
    } else {
        assert(f.restrict(done_keys(p, i + 1)) =~= f.restrict(done_keys(p, i)));
    }
}

pub proof fn lemma_filtered_end<V>(p: Seq<(Seq<char>, V)>, m: Map<Seq<char>, V>, pred: spec_fn(Seq<char>, V) -> bool)
    requires
        enumerates(p, m),
    ensures
        filtered(m, pred).restrict(done_keys(p, p.len() as int)) == filtered(m, pred),
{
    let f = filtered(m, pred);
    assert forall|k: Seq<char>| f.contains_key(k) implies done_keys(p, p.len() as int).contains(k) by {
        assert(m.contains_key(k));
        let j = choose|j: int| 0 <= j < p.len() && (#[trigger] p[j]).0 == k;
    }
    assert(f.restrict(done_keys(p, p.len() as int)) =~= f);
}

} // verus!

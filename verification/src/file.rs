//! A directory entry: its location and the metadata a listing reads.

use vstd::prelude::*;
use crate::url::{Url, UrlView};

verus! {

/// The metadata of an entry that a listing reads.
#[derive(Clone, Copy, Debug, PartialEq, Eq, Structural)]
pub struct Cha {
    pub is_dir: bool,
    pub is_hidden: bool,
    pub len: u64,
    pub mtime: u64,
}

impl Cha {
    /// Whether `other` describes the entry just as `self` does.
    pub fn hits(&self, other: &Cha) -> (b: bool)
        ensures
            b == (*self == *other),
    {
        self.is_dir == other.is_dir && self.is_hidden == other.is_hidden && self.len == other.len
            && self.mtime == other.mtime
    }
}

pub struct FileView {
    pub url: UrlView,
    pub cha: Cha,
}

/// The key an entry is known by in its listing: its path.
pub open spec fn file_key(f: FileView) -> Seq<char> {
    f.url.loc
}

/// The index of the last `/` in `s`, or -1 when there is none.
pub open spec fn last_slash(s: Seq<char>) -> int
    decreases s.len(),
{
    if s.len() == 0 {
        -1
    } else if s.last() == '/' {
        s.len() - 1
    } else {
        last_slash(s.drop_last())
    }
}

/// The last segment of a path: the entry's name.
pub open spec fn name_of(s: Seq<char>) -> Seq<char> {
    s.skip(last_slash(s) + 1)
}

pub proof fn lemma_last_slash(s: Seq<char>)
    ensures
        -1 <= last_slash(s) < s.len(),
        last_slash(s) >= 0 ==> s[last_slash(s)] == '/',
        forall|j: int| last_slash(s) < j < s.len() ==> s[j] != '/',
    decreases s.len(),
{
    if s.len() > 0 && s.last() != '/' {
        lemma_last_slash(s.drop_last());
        assert forall|j: int| last_slash(s) < j < s.len() implies s[j] != '/' by {
            if j < s.len() - 1 {
                assert(s.drop_last()[j] == s[j]);
            }
        }
    }
}

pub struct File {
    pub url: Url,
    pub cha: Cha,
}

impl View for File {
    type V = FileView;

    open spec fn view(&self) -> FileView {
        FileView { url: self.url@, cha: self.cha }
    }
}

impl File {
    pub fn new(url: Url, cha: Cha) -> (f: File)
        ensures
            f@ == (FileView { url: url@, cha }),
    {
        File { url, cha }
    }

    /// The key the entry is known by: its path.
    pub fn key(&self) -> (k: &str)
        ensures
            k@ == file_key(self@),
    {
        self.url.loc.as_str()
    }

    /// The entry's name, the last segment of its path.
    pub fn urn(&self) -> (n: &str)
        ensures
            n@ == name_of(self@.url.loc),
    {
        let s = self.url.loc.as_str();
        proof {
            lemma_last_slash(s@);
        }
        let len = s.unicode_len();
        let mut k: usize = len;
        while k > 0 && s.get_char(k - 1) != '/'
            invariant
                len == s@.len(),
                k <= len,
                last_slash(s@) < k,
                forall|j: int| k <= j < len ==> s@[j] != '/',
                -1 <= last_slash(s@) < s@.len(),
                last_slash(s@) >= 0 ==> s@[last_slash(s@)] == '/',
                forall|j: int| last_slash(s@) < j < s@.len() ==> s@[j] != '/',
            decreases k,
        {
            k -= 1;
        }
        proof {
            assert(k == last_slash(s@) + 1);
        }
        s.substring_char(k, len)
    }

    pub fn is_dir(&self) -> (b: bool)
        ensures
            b == self@.cha.is_dir,
    {
        self.cha.is_dir
    }

    pub fn is_hidden(&self) -> (b: bool)
        ensures
            b == self@.cha.is_hidden,
    {
        self.cha.is_hidden
    }

    /// A copy with the same view.
    pub fn duplicate(&self) -> (f: File)
        ensures
            f@ == self@,
    {
        File { url: self.url.duplicate(), cha: self.cha }
    }
}

/// Whether `needle` occurs in `s`.
pub open spec fn contains_seq(s: Seq<char>, needle: Seq<char>) -> bool {
    exists|i: int| 0 <= i <= s.len() - needle.len() && #[trigger] s.subrange(i, i + needle.len()) == needle
}

/// The filter typed into a listing: an entry shows when its name holds the
/// text.
pub struct Filter {
    pub needle: String,
}

impl Filter {
    pub fn new(needle: &str) -> (f: Filter)
        ensures
            f.needle@ == needle@,
    {
        Filter { needle: String::from_str(needle) }
    }

    /// Whether the entry named `name` shows under this filter.
    pub fn matches(&self, name: &str) -> (b: bool)
        ensures
            b == contains_seq(name@, self.needle@),
    {
        let s = name;
        let p = self.needle.as_str();
        let n = s.unicode_len();
        let m = p.unicode_len();
        if m > n {
            proof {
                assert forall|i: int| 0 <= i <= n - m implies #[trigger] s@.subrange(i, i + m) != p@ by {}
            }
            return false;
        }
        let mut i: usize = 0;
        while i <= n - m
            invariant
                n == s@.len(),
                m == p@.len(),
                p@ == self.needle@,
                s@ == name@,
                m <= n,
                i <= n - m + 1,
                forall|k: int| 0 <= k < i ==> #[trigger] s@.subrange(k, k + m) != p@,
            decreases n - m + 1 - i,
        {
            let mut j: usize = 0;
            let mut same = true;
            while j < m
                invariant
                    n == s@.len(),
                    m == p@.len(),
                    p@ == self.needle@,
                s@ == name@,
                    i + m <= n,
                    j <= m,
                    same == forall|t: int| 0 <= t < j ==> s@[i + t] == p@[t],
                decreases m - j,
            {
                if s.get_char(i + j) != p.get_char(j) {
                    same = false;
                }
                j += 1;
            }
            if same {
                assert(s@.subrange(i as int, i + m) =~= p@);
                assert(contains_seq(s@, p@)) by {
                    assert(0 <= i <= s@.len() - p@.len() && s@.subrange(i as int, i as int + p@.len()) == p@);
                }
                return true;
            }
            proof {
                let t = choose|t: int| 0 <= t < m && s@[i + t] != p@[t];
                assert(s@.subrange(i as int, i + m)[t] != p@[t]);
            }
            i += 1;
        }
        false
    }

    /// Whether `other` is the same filter.
    pub fn same(&self, other: &Filter) -> (b: bool)
        ensures
            b == (self.needle@ == other.needle@),
    {
        self.needle == other.needle
    }
}

} // verus!

//! A glob pattern as written in the configuration: an optional `\s` marker
//! for case-sensitive matching, an optional `scheme://` prefix, the glob, and
//! an optional trailing slash that aims it at directories.

use vstd::prelude::*;
use crate::glob::{
    brace_count, build_glob, glob_accepts, glob_compiles, glob_is_match, lemma_brace_count_sub,
    MAX_GLOB_BRACES, MAX_GLOB_CHARS,
};
use crate::text::{
    contains_char, is_prefix_of, lemma_trim_end_is_prefix, lemma_trim_start_is_suffix, starts_with,
    trim_end, trim_end_char, trim_start, trim_start_str,
};
use crate::url::{Scheme, Url, UrlView};

verus! {

/// The `\s` marker that makes a pattern case-sensitive.
pub open spec fn case_mark() -> Seq<char> {
    seq!['\\', 's']
}

pub open spec fn search_prefix() -> Seq<char> {
    seq!['s', 'e', 'a', 'r', 'c', 'h', ':', '/', '/']
}

pub open spec fn regular_prefix() -> Seq<char> {
    seq!['r', 'e', 'g', 'u', 'l', 'a', 'r', ':', '/', '/']
}

/// The scheme a pattern names, and the text after it.
pub open spec fn split_scheme(a: Seq<char>) -> (Option<Scheme>, Seq<char>) {
    if is_prefix_of(search_prefix(), a) {
        (Some(Scheme::Search), a.skip(search_prefix().len() as int))
    } else if is_prefix_of(regular_prefix(), a) {
        (Some(Scheme::Regular), a.skip(regular_prefix().len() as int))
    } else {
        (None, a)
    }
}

pub struct PatternView {
    /// The glob handed to the matcher.
    pub glob: Seq<char>,
    pub case_sensitive: bool,
    /// Whether `*` stops at `/`: set when the written pattern holds a `/`.
    pub literal_separator: bool,
    /// The only scheme the pattern matches, if it names one.
    pub scheme: Option<Scheme>,
    /// Whether the pattern is aimed at directories (trailing slash).
    pub is_dir: bool,
    /// The pattern is `*`, which matches every location.
    pub is_star: bool,
}

/// How the text `s` of a pattern reads.
pub open spec fn pattern_spec(s: Seq<char>) -> PatternView {
    let a = trim_start(s, case_mark());
    let b = split_scheme(a).1;
    let c = trim_end(b, '/');
    PatternView {
        glob: c,
        case_sensitive: a.len() < s.len(),
        literal_separator: b.contains('/'),
        scheme: split_scheme(a).0,
        is_dir: c.len() < b.len(),
        is_star: c == seq!['*'],
    }
}

/// Whether the glob of `p` compiles.
pub open spec fn pattern_compiles(p: PatternView) -> bool {
    glob_compiles(p.glob, !p.case_sensitive, p.literal_separator)
}

/// Whether `p` matches `url` taken as a directory (`is_dir`) or a file.
pub open spec fn pattern_matches(p: PatternView, url: UrlView, is_dir: bool) -> bool {
    &&& is_dir == p.is_dir
    &&& (p.is_star || ((p.scheme is None || p.scheme == Some(url.scheme)) && glob_accepts(
        p.glob,
        !p.case_sensitive,
        p.literal_separator,
        url.loc,
    )))
}

/// A glob rejected by the matcher.
pub struct PatternError {
    /// The pattern as written.
    pub pattern: String,
    pub cause: globset::Error,
}

pub struct Pattern {
    glob: String,
    case_sensitive: bool,
    literal_separator: bool,
    scheme: Option<Scheme>,
    is_dir: bool,
    is_star: bool,
}

impl View for Pattern {
    type V = PatternView;

    closed spec fn view(&self) -> PatternView {
        PatternView {
            glob: self.glob@,
            case_sensitive: self.case_sensitive,
            literal_separator: self.literal_separator,
            scheme: self.scheme,
            is_dir: self.is_dir,
            is_star: self.is_star,
        }
    }
}

impl Pattern {
    #[verifier::type_invariant]
    closed spec fn compiles(self) -> bool {
        pattern_compiles(self@) && self@.glob.len() <= MAX_GLOB_CHARS && brace_count(self@.glob)
            <= MAX_GLOB_BRACES
    }

    /// Reads a pattern, failing exactly when its glob does not compile.
    pub fn from_str(s: &str) -> (res: Result<Pattern, PatternError>)
        requires
            s@.len() <= MAX_GLOB_CHARS,
            brace_count(s@) <= MAX_GLOB_BRACES,
        ensures
            match res {
                Ok(p) => p@ == pattern_spec(s@) && pattern_compiles(p@),
                Err(e) => !pattern_compiles(pattern_spec(s@)) && e.pattern@ == s@,
            },
    {
        proof {
            reveal_strlit("\\s");
            reveal_strlit("search://");
            reveal_strlit("regular://");
            assert("\\s"@ =~= case_mark());
            assert("search://"@ =~= search_prefix());
            assert("regular://"@ =~= regular_prefix());
        }
        let a = trim_start_str(s, "\\s");
        let (scheme, b): (Option<Scheme>, &str) = if starts_with(a, "search://") {
            (Some(Scheme::Search), a.substring_char(9, a.unicode_len()))
        } else if starts_with(a, "regular://") {
            (Some(Scheme::Regular), a.substring_char(10, a.unicode_len()))
        } else {
            (None, a)
        };
        let c = trim_end_char(b, '/');
        proof {
            lemma_trim_start_is_suffix(s@, case_mark());
            lemma_trim_end_is_prefix(b@, '/');
            assert(b@.len() <= a@.len());
            let ka = s@.len() - a@.len();
            assert(a@ =~= s@.subrange(ka, s@.len() as int));
            lemma_brace_count_sub(s@, ka, s@.len() as int);
            let kb = a@.len() - b@.len();
            assert(b@ =~= a@.subrange(kb, a@.len() as int));
            lemma_brace_count_sub(a@, kb, a@.len() as int);
            lemma_brace_count_sub(b@, 0, c@.len() as int);
        }
        let case_sensitive = a.unicode_len() < s.unicode_len();
        let literal_separator = contains_char(b, '/');
        let is_dir = c.unicode_len() < b.unicode_len();
        let is_star = c.unicode_len() == 1 && c.get_char(0) == '*';
        proof {
            assert(is_star == (c@ =~= seq!['*']));
        }
        match build_glob(c, !case_sensitive, literal_separator) {
            Ok(()) => Ok(
                Pattern {
                    glob: String::from_str(c),
                    case_sensitive,
                    literal_separator,
                    scheme,
                    is_dir,
                    is_star,
                },
            ),
            Err(cause) => Err(PatternError { pattern: String::from_str(s), cause }),
        }
    }

    /// A copy with the same view.
    pub fn duplicate(&self) -> (p: Pattern)
        ensures
            p@ == self@,
    {
        proof {
            use_type_invariant(self);
        }
        Pattern {
            glob: self.glob.clone(),
            case_sensitive: self.case_sensitive,
            literal_separator: self.literal_separator,
            scheme: self.scheme,
            is_dir: self.is_dir,
            is_star: self.is_star,
        }
    }

    /// Whether the pattern is aimed at directories.
    pub fn is_dir(&self) -> (b: bool)
        ensures
            b == self@.is_dir,
    {
        self.is_dir
    }

    /// Whether the pattern matches `url`, taken as a directory when `is_dir`.
    pub fn match_url(&self, url: &Url, is_dir: bool) -> (b: bool)
        ensures
            b == pattern_matches(self@, url@, is_dir),
    {
        proof {
            use_type_invariant(self);
        }
        if is_dir != self.is_dir {
            false
        } else if self.is_star {
            true
        } else {
            let scheme_ok = match self.scheme {
                None => true,
                Some(s) => s == url.scheme,
            };
            if !scheme_ok {
                false
            } else {
                glob_is_match(self.glob.as_str(), !self.case_sensitive, self.literal_separator, url.loc.as_str())
            }
        }
    }
}

} // verus!

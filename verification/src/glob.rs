//! Glob compilation and matching, done by the `globset` crate.

use vstd::prelude::*;
use globset::{GlobBuilder, GlobSetBuilder};

verus! {

/// `globset::Error`, the reason a glob was rejected. Nothing inside it is
/// read here: it is carried through as the cause of a rejected pattern.
#[verifier::external_type_specification]
#[verifier::external_body]
pub struct ExGlobError(globset::Error);

/// The longest glob, in characters, that is handed to `globset`. A glob set
/// finds the literal part of a glob with an `aho_corasick` automaton and
/// unwraps its construction, which fails for a literal of `i32::MAX` bytes or
/// more; a character takes at most four bytes, so globs up to this length
/// stay far below that.
pub const MAX_GLOB_CHARS: usize = 0x1000_0000;

/// The most `{` a glob handed to `globset` may hold. `globset` turns each
/// level of nested `{..}` alternates into one level of recursion while it
/// builds the glob, with no limit of its own, so deep enough nesting
/// overflows the stack; the number of `{` bounds the nesting. The regular
/// expression parser behind it allows 250 levels of nesting.
pub const MAX_GLOB_BRACES: usize = 250;

/// How many `{` the text `s` holds.
pub open spec fn brace_count(s: Seq<char>) -> nat
    decreases s.len(),
{
    if s.len() == 0 {
        0
    } else {
        brace_count(s.drop_last()) + if s.last() == '{' {
            1nat
        } else {
            0nat
        }
    }
}

pub proof fn lemma_brace_count_append(a: Seq<char>, b: Seq<char>)
    ensures
        brace_count(a + b) == brace_count(a) + brace_count(b),
    decreases b.len(),
{
    if b.len() == 0 {
        assert(a + b =~= a);
    } else {
        assert((a + b).drop_last() =~= a + b.drop_last());
        lemma_brace_count_append(a, b.drop_last());
    }
}

/// A part of a text holds no more `{` than the whole.
pub proof fn lemma_brace_count_sub(s: Seq<char>, i: int, j: int)
    requires
        0 <= i <= j <= s.len(),
    ensures
        brace_count(s.subrange(i, j)) <= brace_count(s),
{
    let (x, y, z) = (s.subrange(0, i), s.subrange(i, j), s.subrange(j, s.len() as int));
    assert(s =~= (x + y) + z);
    lemma_brace_count_append(x + y, z);
    lemma_brace_count_append(x, y);
}

/// How many `{` the text `s` holds.
pub fn count_braces(s: &str) -> (n: usize)
    ensures
        n == brace_count(s@),
{
    let len = s.unicode_len();
    let mut n: usize = 0;
    let mut i: usize = 0;
    while i < len
        invariant
            len == s@.len(),
            i <= len,
            n <= i,
            n == brace_count(s@.take(i as int)),
        decreases len - i,
    {
        proof {
            assert(s@.take(i + 1).drop_last() =~= s@.take(i as int));
        }
        if s.get_char(i) == '{' {
            n += 1;
        }
        i += 1;
    }
    proof {
        assert(s@.take(len as int) =~= s@);
    }
    n
}

/// Whether `globset` builds a matcher for `glob` alone, with the given case
/// and separator options, `\` taken literally and empty alternates allowed:
/// the glob parses and the matcher it compiles to stays within `globset`'s
/// size limits.
pub uninterp spec fn glob_compiles(glob: Seq<char>, case_insensitive: bool, literal_separator: bool) -> bool;

/// Whether the matcher built from `glob` with those options matches the whole
/// of `path`.
pub uninterp spec fn glob_accepts(
    glob: Seq<char>,
    case_insensitive: bool,
    literal_separator: bool,
    path: Seq<char>,
) -> bool;

/// Builds `glob` with `globset::GlobBuilder::build` and compiles it into a
/// matcher with `globset::GlobSetBuilder::build`, which reports a matcher over
/// the size limits as an error instead of panicking. The contract claims only
/// that this succeeds exactly when `glob_compiles` holds of the same text and
/// options; the error itself is carried through untouched.
#[verifier::external_body]
pub(crate) fn build_glob(glob: &str, case_insensitive: bool, literal_separator: bool) -> (res: Result<
    (),
    globset::Error,
>)
    requires
        glob@.len() <= MAX_GLOB_CHARS,
        brace_count(glob@) <= MAX_GLOB_BRACES,
    ensures
        res.is_ok() == glob_compiles(glob@, case_insensitive, literal_separator),
{
    let g = GlobBuilder::new(glob).case_insensitive(case_insensitive).literal_separator(
        literal_separator,
    ).backslash_escape(false).empty_alternates(true).build()?;
    GlobSetBuilder::new().add(g).build().map(|_| ())
}

/// Matches `path` with `globset::GlobSet::is_match`, the set built just as
/// `build_glob` builds it, which succeeds since `glob_compiles` holds. The
/// contract claims that the answer is `glob_accepts` of the glob text, the
/// options and the path, and nothing more: what a glob matches is left to
/// `globset`.
#[verifier::external_body]
pub(crate) fn glob_is_match(
    glob: &str,
    case_insensitive: bool,
    literal_separator: bool,
    path: &str,
) -> (res: bool)
    requires
        glob@.len() <= MAX_GLOB_CHARS,
        brace_count(glob@) <= MAX_GLOB_BRACES,
        glob_compiles(glob@, case_insensitive, literal_separator),
    ensures
        res == glob_accepts(glob@, case_insensitive, literal_separator, path@),
{
    let g = match GlobBuilder::new(glob).case_insensitive(case_insensitive).literal_separator(
        literal_separator,
    ).backslash_escape(false).empty_alternates(true).build() {
        Ok(g) => g,
        Err(_) => return false,
    };
    match GlobSetBuilder::new().add(g).build() {
        Ok(set) => set.is_match(path),
        Err(_) => false,
    }
}

} // verus!

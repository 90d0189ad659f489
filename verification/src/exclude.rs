//! One exclusion rule: where it applies, what it hides and what it lets
//! through again.

use vstd::prelude::*;
use crate::pattern::{
    case_mark, pattern_compiles, pattern_matches, pattern_spec, Pattern, PatternError,
    PatternView,
};
use crate::glob::{brace_count, lemma_brace_count_append, lemma_brace_count_sub, MAX_GLOB_BRACES, MAX_GLOB_CHARS};
use crate::text::{
    ends_with, is_prefix_of, is_suffix_of, lemma_trim_end_is_prefix, starts_with, trim_end, trim_end_char,
};
use crate::url::{Url, UrlView};

verus! {

/// The `/**` that makes a glob reach descendants.
pub open spec fn below_suffix() -> Seq<char> {
    seq!['/', '*', '*']
}

/// The `<glob>/**` counterpart of `raw`, or `None` when `raw` already reaches
/// descendants. A leading `\s` marker stays at the front.
pub open spec fn contents_glob_spec(raw: Seq<char>) -> Option<Seq<char>> {
    let mark = if is_prefix_of(case_mark(), raw) { case_mark() } else { Seq::<char>::empty() };
    let body = trim_end(raw.skip(mark.len() as int), '/');
    if is_suffix_of(below_suffix(), body) {
        None
    } else {
        Some(mark + body + below_suffix())
    }
}

/// The `<glob>/**` counterpart of `raw`, or `None` if it already reaches
/// descendants. The case-sensitivity marker is lifted off before the suffix
/// goes on, so that it stays at the very front.
pub fn contents_glob(raw: &str) -> (res: Option<String>)
    ensures
        res matches Some(s) ==> contents_glob_spec(raw@) == Some(s@),
        res is None ==> contents_glob_spec(raw@) is None,
{
    proof {
        reveal_strlit("\\s");
        reveal_strlit("/**");
        reveal_strlit("");
        assert("\\s"@ =~= case_mark());
        assert("/**"@ =~= below_suffix());
    }
    let (mark, body): (&str, &str) = if starts_with(raw, "\\s") {
        ("\\s", raw.substring_char(2, raw.unicode_len()))
    } else {
        ("", raw)
    };
    proof {
        if is_prefix_of(case_mark(), raw@) {
            assert(body@ =~= raw@.skip(2));
        } else {
            assert(mark@ =~= Seq::<char>::empty());
            assert(raw@.skip(0) =~= raw@);
        }
    }
    let body = trim_end_char(body, '/');
    if ends_with(body, "/**") {
        None
    } else {
        let mut s = String::from_str(mark);
        s.append(body);
        s.append("/**");
        Some(s)
    }
}

/// The views of a list of patterns.
pub open spec fn views(ps: Seq<Pattern>) -> Seq<PatternView> {
    ps.map_values(|p: Pattern| p@)
}

/// Whether some pattern of `ps` matches `url` as a directory or a file.
pub open spec fn any_matches(ps: Seq<PatternView>, url: UrlView, is_dir: bool) -> bool {
    exists|i: int| 0 <= i < ps.len() && pattern_matches(#[trigger] ps[i], url, is_dir)
}

/// Whether `p` covers `url`, the trailing-slash marker taken out of play.
pub open spec fn covers_spec(p: PatternView, url: UrlView) -> bool {
    pattern_matches(p, url, p.is_dir)
}

/// Whether some pattern of `ps` covers `url`.
pub open spec fn any_covers(ps: Seq<PatternView>, url: UrlView) -> bool {
    exists|i: int| 0 <= i < ps.len() && covers_spec(#[trigger] ps[i], url)
}

pub struct ExcludeView {
    pub within: PatternView,
    pub ignores: Seq<PatternView>,
    pub whitelists: Seq<PatternView>,
    pub ignore_contents: Seq<PatternView>,
    pub whitelist_contents: Seq<PatternView>,
}

/// What one rule says of `url`: `Some(true)` to exclude, `Some(false)` to
/// whitelist, `None` for no match. A whitelist wins over an ignore of the same
/// rule; the contents globs count only in a `recursive` listing.
pub open spec fn rule_verdict(e: ExcludeView, url: UrlView, is_dir: bool, recursive: bool) -> Option<bool> {
    if any_matches(e.whitelists, url, is_dir) || (recursive && any_covers(e.whitelist_contents, url)) {
        Some(false)
    } else if any_matches(e.ignores, url, is_dir) || (recursive && any_covers(e.ignore_contents, url)) {
        Some(true)
    } else {
        None
    }
}

/// What a list of rules says of `url`: the last rule that says anything wins.
pub open spec fn rules_verdict(rules: Seq<ExcludeView>, url: UrlView, is_dir: bool, recursive: bool) -> Option<bool>
    decreases rules.len(),
{
    if rules.len() == 0 {
        None
    } else {
        match rule_verdict(rules.last(), url, is_dir, recursive) {
            Some(b) => Some(b),
            None => rules_verdict(rules.drop_last(), url, is_dir, recursive),
        }
    }
}

/// Whether a glob as written is a negated (whitelisting) one.
pub open spec fn negated(g: Seq<char>) -> bool {
    g.len() > 0 && g[0] == '!'
}

/// A glob as written, without its negation mark.
pub open spec fn raw_of(g: Seq<char>) -> Seq<char> {
    if negated(g) { g.skip(1) } else { g }
}

/// The patterns that the globs with negation `neg` yield for the entries
/// themselves, in order.
pub open spec fn selves_of(globs: Seq<Seq<char>>, neg: bool) -> Seq<PatternView>
    decreases globs.len(),
{
    if globs.len() == 0 {
        Seq::empty()
    } else {
        let rest = selves_of(globs.drop_last(), neg);
        if negated(globs.last()) == neg {
            rest.push(pattern_spec(raw_of(globs.last())))
        } else {
            rest
        }
    }
}

/// The contents patterns that the globs with negation `neg` yield, in order.
pub open spec fn contents_of(globs: Seq<Seq<char>>, neg: bool) -> Seq<PatternView>
    decreases globs.len(),
{
    if globs.len() == 0 {
        Seq::empty()
    } else {
        let rest = contents_of(globs.drop_last(), neg);
        let g = globs.last();
        if negated(g) == neg && contents_glob_spec(raw_of(g)) is Some {
            rest.push(pattern_spec(contents_glob_spec(raw_of(g))->0))
        } else {
            rest
        }
    }
}

/// Every pattern text that the globs give rise to, in the order they are read.
pub open spec fn texts_of(globs: Seq<Seq<char>>) -> Seq<Seq<char>>
    decreases globs.len(),
{
    if globs.len() == 0 {
        Seq::empty()
    } else {
        let g = globs.last();
        let t = texts_of(globs.drop_last()).push(raw_of(g));
        match contents_glob_spec(raw_of(g)) {
            Some(c) => t.push(c),
            None => t,
        }
    }
}

/// Whether a pattern text compiles.
pub open spec fn text_compiles(t: Seq<char>) -> bool {
    pattern_compiles(pattern_spec(t))
}

/// The first text of `ts` that does not compile, if any.
pub open spec fn first_failing(ts: Seq<Seq<char>>) -> Option<Seq<char>>
    decreases ts.len(),
{
    if ts.len() == 0 {
        None
    } else if !text_compiles(ts[0]) {
        Some(ts[0])
    } else {
        first_failing(ts.skip(1))
    }
}

pub proof fn lemma_first_failing(pre: Seq<Seq<char>>, x: Seq<char>, post: Seq<Seq<char>>)
    requires
        forall|i: int| 0 <= i < pre.len() ==> text_compiles(#[trigger] pre[i]),
        !text_compiles(x),
    ensures
        first_failing(pre.push(x) + post) == Some(x),
    decreases pre.len(),
{
    let all = pre.push(x) + post;
    if pre.len() == 0 {
        assert(all[0] == x);
    } else {
        assert(all[0] == pre[0]);
        assert(all.skip(1) =~= pre.skip(1).push(x) + post);
        lemma_first_failing(pre.skip(1), x, post);
    }
}

pub proof fn lemma_none_failing(ts: Seq<Seq<char>>)
    requires
        forall|i: int| 0 <= i < ts.len() ==> text_compiles(#[trigger] ts[i]),
    ensures
        first_failing(ts) is None,
    decreases ts.len(),
{
    if ts.len() > 0 {
        assert forall|i: int| 0 <= i < ts.skip(1).len() implies text_compiles(
            #[trigger] ts.skip(1)[i],
        ) by {
            assert(ts.skip(1)[i] == ts[i + 1]);
        }
        lemma_none_failing(ts.skip(1));
    }
}

/// How a rule reads from the folder scope and the globs as written: `Ok` with
/// these patterns when every pattern compiles, else the first that does not.
pub open spec fn exclude_spec(within: Seq<char>, globs: Seq<Seq<char>>) -> ExcludeView {
    ExcludeView {
        within: pattern_spec(within),
        ignores: selves_of(globs, false),
        whitelists: selves_of(globs, true),
        ignore_contents: contents_of(globs, false),
        whitelist_contents: contents_of(globs, true),
    }
}

/// One entry of `excludes`: the folders it applies in, and the globs it
/// hides (`ignores`) or lets through again (`whitelists`, written with `!`).
pub struct Exclude {
    /// The folders this rule applies in, matched against the folder's own URL.
    pub within: Pattern,
    ignores: Vec<Pattern>,
    whitelists: Vec<Pattern>,
    /// `<glob>/**` counterparts of the above. Kept apart because they may only
    /// match in a flattened listing: applying them while browsing inside an
    /// excluded directory would hide every entry and leave the folder empty.
    ignore_contents: Vec<Pattern>,
    whitelist_contents: Vec<Pattern>,
}

impl View for Exclude {
    type V = ExcludeView;

    closed spec fn view(&self) -> ExcludeView {
        ExcludeView {
            within: self.within@,
            ignores: views(self.ignores@),
            whitelists: views(self.whitelists@),
            ignore_contents: views(self.ignore_contents@),
            whitelist_contents: views(self.whitelist_contents@),
        }
    }
}

/// Whether some pattern of `ps` matches `url`.
fn any_match(ps: &Vec<Pattern>, url: &Url, is_dir: bool) -> (res: bool)
    ensures
        res == any_matches(views(ps@), url@, is_dir),
{
    let mut i: usize = 0;
    while i < ps.len()
        invariant
            i <= ps.len(),
            forall|j: int| 0 <= j < i ==> !pattern_matches(#[trigger] views(ps@)[j], url@, is_dir),
        decreases ps.len() - i,
    {
        if ps[i].match_url(url, is_dir) {
            assert(pattern_matches(views(ps@)[i as int], url@, is_dir));
            return true;
        }
        i += 1;
    }
    false
}

/// Copies of a list of patterns.
fn duplicate_all(ps: &Vec<Pattern>) -> (res: Vec<Pattern>)
    ensures
        views(res@) == views(ps@),
{
    let mut res: Vec<Pattern> = Vec::new();
    let mut i: usize = 0;
    while i < ps.len()
        invariant
            i <= ps.len(),
            views(res@) == views(ps@.take(i as int)),
        decreases ps.len() - i,
    {
        let ghost prev = views(res@);
        let d = ps[i].duplicate();
        res.push(d);
        proof {
            assert(views(res@) =~= prev.push(ps@[i as int]@));
            assert(views(ps@.take(i + 1)) =~= views(ps@.take(i as int)).push(ps@[i as int]@));
        }
        i += 1;
    }
    proof {
        assert(ps@.take(ps.len() as int) =~= ps@);
    }
    res
}

/// Whether `pattern` covers `url`, disregarding the trailing-slash marker.
///
/// The marker distinguishes a file from a directory, which only means something
/// for a pattern aimed at an entry. A folder scope is a directory by definition
/// and a generated `/**` glob matches descendants of either kind, so for those
/// the marker is fed back to take the check out of play.
fn covers(pattern: &Pattern, url: &Url) -> (res: bool)
    ensures
        res == covers_spec(pattern@, url@),
{
    pattern.match_url(url, pattern.is_dir())
}

/// Whether some pattern of `ps` covers `url`.
fn any_cover(ps: &Vec<Pattern>, url: &Url) -> (res: bool)
    ensures
        res == any_covers(views(ps@), url@),
{
    let mut i: usize = 0;
    while i < ps.len()
        invariant
            i <= ps.len(),
            forall|j: int| 0 <= j < i ==> !covers_spec(#[trigger] views(ps@)[j], url@),
        decreases ps.len() - i,
    {
        if covers(&ps[i], url) {
            assert(covers_spec(views(ps@)[i as int], url@));
            return true;
        }
        i += 1;
    }
    false
}

impl Exclude {
    /// Builds a rule from the scope it applies in and its globs as written,
    /// in order. A glob starting with `!` whitelists; every glob that does
    /// not already reach descendants also gets its `<glob>/**` counterpart.
    pub fn from_globs(within: &str, globs: &Vec<String>) -> (res: Result<Exclude, PatternError>)
        requires
            within@.len() <= MAX_GLOB_CHARS,
            brace_count(within@) <= MAX_GLOB_BRACES,
            forall|i: int| 0 <= i < globs@.len() ==> (#[trigger] globs@[i])@.len() + 3 <= MAX_GLOB_CHARS,
            forall|i: int| 0 <= i < globs@.len() ==> brace_count((#[trigger] globs@[i])@) <= MAX_GLOB_BRACES,
        ensures
            ({
                let gs = globs@.map_values(|s: String| s@);
                let all = seq![within@] + texts_of(gs);
                match res {
                    Ok(e) => first_failing(all) is None && e@ == exclude_spec(within@, gs),
                    Err(err) => first_failing(all) == Some(err.pattern@),
                }
            }),
    {
        let ghost gs = globs@.map_values(|s: String| s@);
        proof {
            reveal_strlit("!");
            assert("!"@ =~= seq!['!']);
        }
        let within_p = match Pattern::from_str(within) {
            Ok(p) => p,
            Err(e) => {
                proof {
                    lemma_first_failing(Seq::empty(), within@, texts_of(gs));
                    assert(Seq::<Seq<char>>::empty().push(within@) + texts_of(gs) =~= seq![within@]
                        + texts_of(gs));
                }
                return Err(e);
            },
        };
        let mut ignores: Vec<Pattern> = Vec::new();
        let mut whitelists: Vec<Pattern> = Vec::new();
        let mut ignore_contents: Vec<Pattern> = Vec::new();
        let mut whitelist_contents: Vec<Pattern> = Vec::new();
        let mut i: usize = 0;
        while i < globs.len()
            invariant
                i <= globs.len(),
                gs == globs@.map_values(|s: String| s@),
                forall|k: int| 0 <= k < globs@.len() ==> (#[trigger] globs@[k])@.len() + 3 <= MAX_GLOB_CHARS,
                forall|k: int| 0 <= k < globs@.len() ==> brace_count((#[trigger] globs@[k])@) <= MAX_GLOB_BRACES,
                "!"@ == seq!['!'],
                within_p@ == pattern_spec(within@),
                text_compiles(within@),
                views(ignores@) == selves_of(gs.take(i as int), false),
                views(whitelists@) == selves_of(gs.take(i as int), true),
                views(ignore_contents@) == contents_of(gs.take(i as int), false),
                views(whitelist_contents@) == contents_of(gs.take(i as int), true),
                forall|j: int|
                    0 <= j < texts_of(gs.take(i as int)).len() ==> text_compiles(
                        #[trigger] texts_of(gs.take(i as int))[j],
                    ),
            decreases globs.len() - i,
        {
            let ghost pre = gs.take(i as int);
            let ghost next = gs.take(i + 1);
            proof {
                assert(next.drop_last() =~= pre);
                assert(next.last() == globs@[i as int]@);
            }
            let g = globs[i].as_str();
            let neg = starts_with(g, "!");
            proof {
                if neg {
                    assert(g@.subrange(0, 1)[0] == g@[0]);
                } else if g@.len() > 0 && g@[0] == '!' {
                    assert(g@.subrange(0, 1) =~= seq!['!']);
                }
            }
            let raw: &str = if neg {
                g.substring_char(1, g.unicode_len())
            } else {
                g
            };
            proof {
                assert(neg == negated(g@));
                if neg {
                    assert(raw@ =~= g@.skip(1));
                }
                assert(raw@ == raw_of(g@));
                assert(g@ == globs@[i as int]@);
                if neg {
                    assert(raw@ =~= g@.subrange(1, g@.len() as int));
                    lemma_brace_count_sub(g@, 1, g@.len() as int);
                }
            }
            let ghost rest = gs.skip(i + 1);
            let ghost tail = texts_of(gs);
            match Pattern::from_str(raw) {
                Ok(p) => {
                    if neg {
                        whitelists.push(p);
                    } else {
                        ignores.push(p);
                    }
                },
                Err(e) => {
                    proof {
                        lemma_texts_split(gs, i as int);
                        let pre_t = seq![within@] + texts_of(pre);
                        assert forall|j: int| 0 <= j < pre_t.len() implies text_compiles(
                            #[trigger] pre_t[j],
                        ) by {
                            if j > 0 {
                                assert(pre_t[j] == texts_of(pre)[j - 1]);
                            }
                        }
                        let tg = texts_of(gs);
                        let tp = texts_of(pre);
                        let post = tg.skip(tp.len() + 1int);
                        lemma_texts_prefix(gs, i + 1);
                        let tn = texts_of(gs.take(i + 1));
                        assert forall|j: int| 0 <= j <= tp.len() implies #[trigger] tg[j] == tn[j] by {
                            assert(tg.take(tn.len() as int)[j] == tg[j]);
                        }
                        lemma_first_failing(pre_t, raw@, post);
                        assert(pre_t.push(raw@) + post =~= seq![within@] + tg);
                    }
                    return Err(e);
                },
            }
            proof {
                assert(views(ignores@) =~= selves_of(next, false));
                assert(views(whitelists@) =~= selves_of(next, true));
            }
            match contents_glob(raw) {
                Some(c) => {
                    proof {
                        lemma_contents_glob_len(raw@);
                        lemma_contents_glob_braces(raw@);
                    }
                    match Pattern::from_str(c.as_str()) {
                        Ok(p) => {
                            if neg {
                                whitelist_contents.push(p);
                            } else {
                                ignore_contents.push(p);
                            }
                        },
                        Err(e) => {
                            proof {
                                lemma_texts_split(gs, i as int);
                                let pre_t = (seq![within@] + texts_of(pre)).push(raw@);
                                assert forall|j: int| 0 <= j < pre_t.len() implies text_compiles(
                                    #[trigger] pre_t[j],
                                ) by {
                                    if 0 < j < pre_t.len() - 1 {
                                        assert(pre_t[j] == texts_of(pre)[j - 1]);
                                    }
                                }
                                let tg = texts_of(gs);
                                let tp = texts_of(pre);
                                let post = tg.skip(tp.len() + 2int);
                                lemma_texts_prefix(gs, i + 1);
                                let tn = texts_of(gs.take(i + 1));
                                assert forall|j: int| 0 <= j <= tp.len() + 1 implies #[trigger] tg[j] == tn[j] by {
                                    assert(tg.take(tn.len() as int)[j] == tg[j]);
                                }
                                lemma_first_failing(pre_t, c@, post);
                                assert(pre_t.push(c@) + post =~= seq![within@] + tg);
                            }
                            return Err(e);
                        },
                    }
                },
                None => {},
            }
            proof {
                assert(views(ignore_contents@) =~= contents_of(next, false));
                assert(views(whitelist_contents@) =~= contents_of(next, true));
                let tp = texts_of(pre);
                let tn = texts_of(next);
                assert forall|j: int| 0 <= j < tn.len() implies text_compiles(#[trigger] tn[j]) by {
                    if j < tp.len() {
                        assert(tn[j] == tp[j]);
                    }
                }
            }
            i += 1;
        }
        proof {
            assert(gs.take(globs.len() as int) =~= gs);
            let all = seq![within@] + texts_of(gs);
            assert forall|j: int| 0 <= j < all.len() implies text_compiles(#[trigger] all[j]) by {
                if j > 0 {
                    assert(all[j] == texts_of(gs)[j - 1]);
                }
            }
            lemma_none_failing(all);
        }
        Ok(Exclude { within: within_p, ignores, whitelists, ignore_contents, whitelist_contents })
    }

    /// `Some(true)` to exclude, `Some(false)` to whitelist, `None` for no
    /// match. `recursive` admits the contents globs, and belongs only to
    /// flattened listings, the sole kind holding entries from below the folder
    /// itself.
    pub fn matches(&self, url: &Url, is_dir: bool, recursive: bool) -> (res: Option<bool>)
        ensures
            res == rule_verdict(self@, url@, is_dir, recursive),
    {
        if any_match(&self.whitelists, url, is_dir) || (recursive && any_cover(
            &self.whitelist_contents,
            url,
        )) {
            return Some(false);
        }
        if any_match(&self.ignores, url, is_dir) || (recursive && any_cover(
            &self.ignore_contents,
            url,
        )) {
            return Some(true);
        }
        None
    }

    /// A copy with the same view.
    pub fn duplicate(&self) -> (e: Exclude)
        ensures
            e@ == self@,
    {
        Exclude {
            within: self.within.duplicate(),
            ignores: duplicate_all(&self.ignores),
            whitelists: duplicate_all(&self.whitelists),
            ignore_contents: duplicate_all(&self.ignore_contents),
            whitelist_contents: duplicate_all(&self.whitelist_contents),
        }
    }

    /// Whether the rule applies in the folder at `url`.
    pub fn matches_context(&self, url: &Url) -> (res: bool)
        ensures
            res == covers_spec(self@.within, url@),
    {
        covers(&self.within, url)
    }

    /// `Some(true)` to exclude, `Some(false)` to whitelist, `None` for no
    /// match. Rules apply in order and the last match wins, so `rules` must
    /// already be narrowed to the folder being listed and still be in
    /// declaration order.
    pub fn verdict(rules: &[&Exclude], url: &Url, is_dir: bool, recursive: bool) -> (res: Option<bool>)
        ensures
            res == rules_verdict(rules@.map_values(|r: &Exclude| r@), url@, is_dir, recursive),
    {
        let ghost rs = rules@.map_values(|r: &Exclude| r@);
        let mut acc: Option<bool> = None;
        let mut i: usize = 0;
        while i < rules.len()
            invariant
                i <= rules.len(),
                rs == rules@.map_values(|r: &Exclude| r@),
                acc == rules_verdict(rs.take(i as int), url@, is_dir, recursive),
            decreases rules.len() - i,
        {
            proof {
                assert(rs.take(i + 1).drop_last() =~= rs.take(i as int));
            }
            match rules[i].matches(url, is_dir, recursive) {
                Some(b) => {
                    acc = Some(b);
                },
                None => {},
            }
            i += 1;
        }
        proof {
            assert(rs.take(rules.len() as int) =~= rs);
        }
        acc
    }
}

/// The texts that the globs after the `i`th give rise to.
pub open spec fn texts_after(globs: Seq<Seq<char>>, i: int) -> Seq<Seq<char>> {
    texts_of(globs).skip(texts_of(globs.take(i + 1)).len() as int)
}

pub proof fn lemma_texts_prefix(globs: Seq<Seq<char>>, k: int)
    requires
        0 <= k <= globs.len(),
    ensures
        texts_of(globs.take(k)).len() <= texts_of(globs).len(),
        texts_of(globs).take(texts_of(globs.take(k)).len() as int) == texts_of(globs.take(k)),
    decreases globs.len() - k,
{
    if k == globs.len() {
        assert(globs.take(k) =~= globs);
        assert(texts_of(globs).take(texts_of(globs).len() as int) =~= texts_of(globs));
    } else {
        lemma_texts_prefix(globs, k + 1);
        let a = texts_of(globs.take(k));
        let b = texts_of(globs.take(k + 1));
        assert(globs.take(k + 1).drop_last() =~= globs.take(k));
        assert(b.take(a.len() as int) =~= a);
        assert(texts_of(globs).take(a.len() as int) =~= b.take(a.len() as int));
    }
}

/// The texts of the `i`th glob sit after those of the globs before it.
pub proof fn lemma_texts_split(globs: Seq<Seq<char>>, i: int)
    requires
        0 <= i < globs.len(),
    ensures
        texts_of(globs) == texts_of(globs.take(i + 1)) + texts_after(globs, i),
        texts_of(globs.take(i + 1)) == ({
            let t = texts_of(globs.take(i)).push(raw_of(globs[i]));
            match contents_glob_spec(raw_of(globs[i])) {
                Some(c) => t.push(c),
                None => t,
            }
        }),
{
    lemma_texts_prefix(globs, i + 1);
    let a = texts_of(globs.take(i + 1));
    assert(texts_of(globs) =~= a + texts_of(globs).skip(a.len() as int));
    assert(globs.take(i + 1).drop_last() =~= globs.take(i));
    assert(globs.take(i + 1).last() == globs[i]);
}

/// The last rule that says anything about an entry decides: the rules say
/// nothing exactly when no rule does, and say `b` exactly when some rule says
/// `b` and no later rule says anything.
pub proof fn lemma_last_match_wins(rules: Seq<ExcludeView>, url: UrlView, is_dir: bool, recursive: bool)
    ensures
        rules_verdict(rules, url, is_dir, recursive) is None <==> forall|i: int|
            0 <= i < rules.len() ==> rule_verdict(#[trigger] rules[i], url, is_dir, recursive) is None,
        forall|b: bool|
            rules_verdict(rules, url, is_dir, recursive) == Some(b) <==> exists|i: int|
                0 <= i < rules.len() && rule_verdict(#[trigger] rules[i], url, is_dir, recursive) == Some(b)
                    && forall|j: int| i < j < rules.len() ==> rule_verdict(#[trigger] rules[j], url, is_dir, recursive) is None,
    decreases rules.len(),
{
    if rules.len() > 0 {
        let d = rules.drop_last();
        lemma_last_match_wins(d, url, is_dir, recursive);
        let n = rules.len() - 1;
        assert forall|i: int| 0 <= i < d.len() implies rules[i] == d[i] by {}
        match rule_verdict(rules.last(), url, is_dir, recursive) {
            Some(b0) => {
                assert(rule_verdict(rules[n], url, is_dir, recursive) == Some(b0));
                assert forall|b: bool| rules_verdict(rules, url, is_dir, recursive) == Some(b) implies exists|i: int|
                    0 <= i < rules.len() && rule_verdict(#[trigger] rules[i], url, is_dir, recursive) == Some(b)
                        && forall|j: int| i < j < rules.len() ==> rule_verdict(#[trigger] rules[j], url, is_dir, recursive) is None by {
                    assert(rule_verdict(rules[n], url, is_dir, recursive) == Some(b));
                }
                assert forall|b: bool| (exists|i: int|
                    0 <= i < rules.len() && rule_verdict(#[trigger] rules[i], url, is_dir, recursive) == Some(b)
                        && forall|j: int| i < j < rules.len() ==> rule_verdict(#[trigger] rules[j], url, is_dir, recursive) is None)
                    implies rules_verdict(rules, url, is_dir, recursive) == Some(b) by {
                    let i = choose|i: int|
                        0 <= i < rules.len() && rule_verdict(#[trigger] rules[i], url, is_dir, recursive) == Some(b)
                            && forall|j: int| i < j < rules.len() ==> rule_verdict(#[trigger] rules[j], url, is_dir, recursive) is None;
                    if i < n {
                        assert(rule_verdict(rules[n], url, is_dir, recursive) is None);
                    }
                }
            },
            None => {
                assert(rule_verdict(rules[n], url, is_dir, recursive) is None);
                assert forall|b: bool| rules_verdict(rules, url, is_dir, recursive) == Some(b) implies exists|i: int|
                    0 <= i < rules.len() && rule_verdict(#[trigger] rules[i], url, is_dir, recursive) == Some(b)
                        && forall|j: int| i < j < rules.len() ==> rule_verdict(#[trigger] rules[j], url, is_dir, recursive) is None by {
                    let i = choose|i: int|
                        0 <= i < d.len() && rule_verdict(#[trigger] d[i], url, is_dir, recursive) == Some(b)
                            && forall|j: int| i < j < d.len() ==> rule_verdict(#[trigger] d[j], url, is_dir, recursive) is None;
                    assert(rules[i] == d[i]);
                    assert forall|j: int| i < j < rules.len() implies rule_verdict(#[trigger] rules[j], url, is_dir, recursive) is None by {
                        if j < n {
                            assert(rules[j] == d[j]);
                        }
                    }
                }
                assert forall|b: bool| (exists|i: int|
                    0 <= i < rules.len() && rule_verdict(#[trigger] rules[i], url, is_dir, recursive) == Some(b)
                        && forall|j: int| i < j < rules.len() ==> rule_verdict(#[trigger] rules[j], url, is_dir, recursive) is None)
                    implies rules_verdict(rules, url, is_dir, recursive) == Some(b) by {
                    let i = choose|i: int|
                        0 <= i < rules.len() && rule_verdict(#[trigger] rules[i], url, is_dir, recursive) == Some(b)
                            && forall|j: int| i < j < rules.len() ==> rule_verdict(#[trigger] rules[j], url, is_dir, recursive) is None;
                    assert(i < n);
                    assert(rule_verdict(d[i], url, is_dir, recursive) == Some(b));
                    assert forall|j: int| i < j < d.len() implies rule_verdict(#[trigger] d[j], url, is_dir, recursive) is None by {
                        assert(rules[j] == d[j]);
                    }
                }
                assert((rules_verdict(rules, url, is_dir, recursive) is None) <==> forall|i: int|
                    0 <= i < rules.len() ==> rule_verdict(#[trigger] rules[i], url, is_dir, recursive) is None) by {
                    if forall|i: int| 0 <= i < rules.len() ==> rule_verdict(#[trigger] rules[i], url, is_dir, recursive) is None {
                        assert forall|i: int| 0 <= i < d.len() implies rule_verdict(#[trigger] d[i], url, is_dir, recursive) is None by {
                            assert(rules[i] == d[i]);
                        }
                    }
                }
            },
        }
    }
}

/// While browsing a folder (a listing that is not flattened) the contents
/// globs play no part: a rule says the same as it would without them.
pub proof fn lemma_browsing_ignores_contents(e: ExcludeView, url: UrlView, is_dir: bool)
    ensures
        rule_verdict(e, url, is_dir, false) == rule_verdict(
            ExcludeView { ignore_contents: Seq::empty(), whitelist_contents: Seq::empty(), ..e },
            url,
            is_dir,
            true,
        ),
{
}

/// The glob `g` as written hits `url`: its own pattern matches it.
pub open spec fn self_hits(g: Seq<char>, url: UrlView, is_dir: bool) -> bool {
    pattern_matches(pattern_spec(raw_of(g)), url, is_dir)
}

/// The `<glob>/**` counterpart of the glob `g` as written covers `url`.
pub open spec fn below_hits(g: Seq<char>, url: UrlView) -> bool {
    contents_glob_spec(raw_of(g)) matches Some(c) && covers_spec(pattern_spec(c), url)
}

/// The glob `g` as written hits `url`: its own pattern matches, or, in a
/// flattened (`recursive`) listing, its counterpart covers it.
pub open spec fn glob_hits(g: Seq<char>, url: UrlView, is_dir: bool, recursive: bool) -> bool {
    self_hits(g, url, is_dir) || (recursive && below_hits(g, url))
}

/// Some glob of `globs` with negation `neg` hits `url`.
pub open spec fn some_glob_hits(globs: Seq<Seq<char>>, neg: bool, url: UrlView, is_dir: bool, recursive: bool) -> bool {
    exists|i: int| 0 <= i < globs.len() && negated(globs[i]) == neg && glob_hits(#[trigger] globs[i], url, is_dir, recursive)
}

proof fn lemma_selves_hit(globs: Seq<Seq<char>>, neg: bool, url: UrlView, is_dir: bool)
    ensures
        any_matches(selves_of(globs, neg), url, is_dir) <==> exists|i: int|
            0 <= i < globs.len() && negated(globs[i]) == neg && self_hits(#[trigger] globs[i], url, is_dir),
    decreases globs.len(),
{
    if globs.len() > 0 {
        let d = globs.drop_last();
        let n = globs.len() - 1;
        lemma_selves_hit(d, neg, url, is_dir);
        let s = selves_of(d, neg);
        let all = selves_of(globs, neg);
        if any_matches(all, url, is_dir) {
            let j = choose|j: int| 0 <= j < all.len() && pattern_matches(#[trigger] all[j], url, is_dir);
            if j < s.len() {
                assert(all[j] == s[j]);
                let i = choose|i: int| 0 <= i < d.len() && negated(d[i]) == neg && self_hits(#[trigger] d[i], url, is_dir);
                assert(globs[i] == d[i]);
            } else {
                assert(self_hits(globs[n], url, is_dir));
            }
        }
        if exists|i: int| 0 <= i < globs.len() && negated(globs[i]) == neg && self_hits(#[trigger] globs[i], url, is_dir) {
            let i = choose|i: int| 0 <= i < globs.len() && negated(globs[i]) == neg && self_hits(#[trigger] globs[i], url, is_dir);
            if i < n {
                assert(globs[i] == d[i]);
                assert(self_hits(d[i], url, is_dir));
                let j = choose|j: int| 0 <= j < s.len() && pattern_matches(#[trigger] s[j], url, is_dir);
                if negated(globs.last()) == neg {
                    assert(all[j] == s[j]);
                }
            } else {
                assert(all[s.len() as int] == pattern_spec(raw_of(globs[n])));
            }
        }
    }
}

proof fn lemma_below_hit(globs: Seq<Seq<char>>, neg: bool, url: UrlView)
    ensures
        any_covers(contents_of(globs, neg), url) <==> exists|i: int|
            0 <= i < globs.len() && negated(globs[i]) == neg && below_hits(#[trigger] globs[i], url),
    decreases globs.len(),
{
    if globs.len() > 0 {
        let d = globs.drop_last();
        let n = globs.len() - 1;
        lemma_below_hit(d, neg, url);
        let s = contents_of(d, neg);
        let all = contents_of(globs, neg);
        if any_covers(all, url) {
            let j = choose|j: int| 0 <= j < all.len() && covers_spec(#[trigger] all[j], url);
            if j < s.len() {
                assert(all[j] == s[j]);
                let i = choose|i: int| 0 <= i < d.len() && negated(d[i]) == neg && below_hits(#[trigger] d[i], url);
                assert(globs[i] == d[i]);
            } else {
                assert(below_hits(globs[n], url));
            }
        }
        if exists|i: int| 0 <= i < globs.len() && negated(globs[i]) == neg && below_hits(#[trigger] globs[i], url) {
            let i = choose|i: int| 0 <= i < globs.len() && negated(globs[i]) == neg && below_hits(#[trigger] globs[i], url);
            if i < n {
                assert(globs[i] == d[i]);
                assert(below_hits(d[i], url));
                let j = choose|j: int| 0 <= j < s.len() && covers_spec(#[trigger] s[j], url);
                if negated(globs.last()) == neg && contents_glob_spec(raw_of(globs.last())) is Some {
                    assert(all[j] == s[j]);
                }
            } else {
                assert(covers_spec(all[s.len() as int], url));
            }
        }
    }
}

proof fn lemma_some_glob_hits(globs: Seq<Seq<char>>, neg: bool, url: UrlView, is_dir: bool, recursive: bool)
    ensures
        some_glob_hits(globs, neg, url, is_dir, recursive) <==> (any_matches(selves_of(globs, neg), url, is_dir)
            || (recursive && any_covers(contents_of(globs, neg), url))),
{
    lemma_selves_hit(globs, neg, url, is_dir);
    lemma_below_hit(globs, neg, url);
    if some_glob_hits(globs, neg, url, is_dir, recursive) {
        let i = choose|i: int|
            0 <= i < globs.len() && negated(globs[i]) == neg && glob_hits(#[trigger] globs[i], url, is_dir, recursive);
        if self_hits(globs[i], url, is_dir) {
        } else {
            assert(below_hits(globs[i], url));
        }
    }
    if any_matches(selves_of(globs, neg), url, is_dir) {
        let i = choose|i: int| 0 <= i < globs.len() && negated(globs[i]) == neg && self_hits(#[trigger] globs[i], url, is_dir);
        assert(glob_hits(globs[i], url, is_dir, recursive));
    }
    if recursive && any_covers(contents_of(globs, neg), url) {
        let i = choose|i: int| 0 <= i < globs.len() && negated(globs[i]) == neg && below_hits(#[trigger] globs[i], url);
        assert(glob_hits(globs[i], url, is_dir, recursive));
    }
}

/// Within one rule, a whitelisting glob (written with `!`) wins over an
/// ignoring one wherever it stands among the globs: the rule read from
/// `within` and `globs` whitelists `url` exactly when some negated glob hits
/// it, otherwise excludes it exactly when some other glob does, and otherwise
/// says nothing. A glob hits through its own pattern, or in a flattened
/// listing through its `<glob>/**` counterpart.
pub proof fn lemma_whitelist_wins(within: Seq<char>, globs: Seq<Seq<char>>, url: UrlView, is_dir: bool, recursive: bool)
    ensures
        rule_verdict(exclude_spec(within, globs), url, is_dir, recursive) == if some_glob_hits(
            globs,
            true,
            url,
            is_dir,
            recursive,
        ) {
            Some(false)
        } else if some_glob_hits(globs, false, url, is_dir, recursive) {
            Some(true)
        } else {
            None
        },
{
    lemma_some_glob_hits(globs, true, url, is_dir, recursive);
    lemma_some_glob_hits(globs, false, url, is_dir, recursive);
}

/// The counterpart glob holds no more `{` than the glob.
pub proof fn lemma_contents_glob_braces(raw: Seq<char>)
    ensures
        contents_glob_spec(raw) matches Some(c) ==> brace_count(c) <= brace_count(raw),
{
    if let Some(c) = contents_glob_spec(raw) {
        let mark = if is_prefix_of(case_mark(), raw) { case_mark() } else { Seq::<char>::empty() };
        let rest = raw.skip(mark.len() as int);
        let body = trim_end(rest, '/');
        lemma_trim_end_is_prefix(rest, '/');
        assert(body =~= rest.subrange(0, body.len() as int));
        lemma_brace_count_sub(rest, 0, body.len() as int);
        assert(rest =~= raw.subrange(mark.len() as int, raw.len() as int));
        lemma_brace_count_sub(raw, mark.len() as int, raw.len() as int);
        lemma_brace_count_append(mark + body, below_suffix());
        lemma_brace_count_append(mark, body);
        reveal_with_fuel(brace_count, 4);
        assert(brace_count(below_suffix()) == 0);
        assert(brace_count(mark) == 0);
    }
}

/// The counterpart glob is at most three characters longer than the glob.
pub proof fn lemma_contents_glob_len(raw: Seq<char>)
    ensures
        contents_glob_spec(raw) matches Some(c) ==> c.len() <= raw.len() + 3,
{
    let mark = if is_prefix_of(case_mark(), raw) { case_mark() } else { Seq::<char>::empty() };
    lemma_trim_end_is_prefix(raw.skip(mark.len() as int), '/');
}

pub proof fn lemma_trim_end_stops(s: Seq<char>, c: char)
    requires
        s.len() > 0,
        s.last() != c,
    ensures
        trim_end(s, c) == s,
{
}

/// The counterpart glob already reaches descendants: it ends in `/**`, so it
/// has no counterpart of its own.
pub proof fn lemma_contents_glob_reaches_descendants(raw: Seq<char>)
    ensures
        contents_glob_spec(raw) matches Some(c) ==> is_suffix_of(below_suffix(), c) && contents_glob_spec(c) is None,
{
    if let Some(c) = contents_glob_spec(raw) {
        let mark = if is_prefix_of(case_mark(), raw) { case_mark() } else { Seq::<char>::empty() };
        let body = trim_end(raw.skip(mark.len() as int), '/');
        assert(c == mark + body + below_suffix());
        assert(c.subrange(c.len() - 3, c.len() as int) =~= below_suffix());
        let mark2 = if is_prefix_of(case_mark(), c) { case_mark() } else { Seq::<char>::empty() };
        let rest = c.skip(mark2.len() as int);
        assert(rest.len() >= 3);
        assert(rest.last() == '*');
        lemma_trim_end_stops(rest, '/');
        assert(rest.subrange(rest.len() - 3, rest.len() as int) =~= below_suffix());
    }
}

} // verus!

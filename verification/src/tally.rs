//! How the package commands report each outcome, and the totals at the end.

use vstd::prelude::*;
use crate::dependency::{Dependency, DependencyView};
use crate::file::contains_seq;
use crate::text::is_prefix_of;
use crate::text::{
    decimal, decimal_spec, join_spec, join_strings, replace_char, replace_spec, string_eq,
    trim_end_whitespace, trim_end_ws,
};

verus! {

/// Where a report line goes and how it is shown.
#[derive(Clone, Copy, Debug, PartialEq, Eq, Structural)]
pub enum Outcome {
    /// Something changed: bold green, on standard output.
    Done,
    /// Nothing to do: dim, on standard output.
    Noop,
    /// Something went wrong: bold red, on standard error.
    Fail,
}

/// One line of a report: a status verb and what it is about.
pub struct ReportLine {
    pub outcome: Outcome,
    pub verb: String,
    pub body: String,
}

pub open spec fn line_is(l: ReportLine, outcome: Outcome, verb: Seq<char>, body: Seq<char>) -> bool {
    l.outcome == outcome && l.verb@ == verb && l.body@ == body
}

/// Width of the status column, which right-aligns every verb against it.
pub const VERB: usize = 12;

/// `n` spaces.
pub open spec fn spaces(n: nat) -> Seq<char> {
    Seq::new(n, |i: int| ' ')
}

/// `verb` right-aligned in the status column.
pub open spec fn verb_column(verb: Seq<char>) -> Seq<char> {
    if verb.len() < 12 {
        spaces((12 - verb.len()) as nat) + verb
    } else {
        verb
    }
}

/// `body` without trailing white space, every further line indented to the
/// body column.
pub open spec fn body_column(body: Seq<char>) -> Seq<char> {
    replace_spec(trim_end_ws(body), '\n', seq!['\n'] + spaces(12) + seq![' '])
}

pub struct Report;

impl Report {
    /// The two columns of a report line: the verb right-aligned against the
    /// status column, and the body, kept within the body column when it spans
    /// several lines (such as captured `git` output).
    pub fn columns(verb: &str, body: &str) -> (res: (String, String))
        ensures
            res.0@ == verb_column(verb@),
            res.1@ == body_column(body@),
    {
        let n = verb.unicode_len();
        let mut pad = String::new();
        let mut k: usize = 0;
        let width = if n < VERB { VERB - n } else { 0 };
        while k < width
            invariant
                k <= width,
                pad@ == spaces(k as nat),
            decreases width - k,
        {
            pad.append(" ");
            proof {
                reveal_strlit(" ");
                assert(pad@ =~= spaces((k + 1) as nat));
            }
            k += 1;
        }
        let verb_col = pad.concat(verb);
        proof {
            if n >= 12 {
                assert(verb_col@ =~= verb@);
            }
        }
        let mut indent = String::from_str("\n");
        proof {
            reveal_strlit("\n");
            assert(indent@ =~= seq!['\n'] + spaces(0));
        }
        let mut k: usize = 0;
        while k < VERB
            invariant
                k <= 12,
                indent@ == seq!['\n'] + spaces(k as nat),
            decreases 12 - k,
        {
            indent.append(" ");
            proof {
                reveal_strlit(" ");
                assert(indent@ =~= seq!['\n'] + spaces((k + 1) as nat));
            }
            k += 1;
        }
        indent.append(" ");
        proof {
            reveal_strlit("\n");
            reveal_strlit(" ");
        }
        let trimmed = trim_end_whitespace(body);
        let body_col = replace_char(trimmed, '\n', indent.as_str());
        proof {
            assert(indent@ =~= seq!['\n'] + spaces(12) + seq![' ']);
        }
        (verb_col, body_col)
    }
}

impl Report {
    /// The line that tells a deleted package left user data behind in `dir`.
    pub fn preserved(dir: &str) -> (l: ReportLine)
        ensures
            line_is(l, Outcome::Noop, "Preserved"@, "user data in "@ + dir@ + ", delete it manually"@),
    {
        let mut body = String::from_str("user data in ");
        body.append(dir);
        body.append(", delete it manually");
        ReportLine { outcome: Outcome::Noop, verb: String::from_str("Preserved"), body }
    }
}

/// The counts of a command's outcomes.
pub struct Tally {
    pub changed: usize,
    pub unchanged: usize,
    pub failed: usize,
}

/// The heading of a batch of `total` packages.
pub open spec fn heading_body(total: nat) -> Seq<char> {
    decimal_spec(total) + " package"@ + if total == 1 {
        Seq::<char>::empty()
    } else {
        "s"@
    }
}

/// How the outcome of an upgrade of `dep` from revision `old` reads.
pub open spec fn upgraded_line(dep: DependencyView, old: Seq<char>, fresh: bool) -> (Outcome, Seq<char>, Seq<char>) {
    if old.len() > 0 && old[0] == '=' {
        (Outcome::Noop, "Pinned"@, dep.name + " "@ + old)
    } else if fresh || old.len() == 0 {
        (Outcome::Done, "Installed"@, dep.name + " "@ + dep.rev)
    } else if old == dep.rev {
        (Outcome::Noop, "Unchanged"@, dep.name + " "@ + old)
    } else {
        (Outcome::Done, "Upgraded"@, dep.name + " "@ + old + " -> "@ + dep.rev)
    }
}

/// The parts of the closing summary, in order.
pub open spec fn finish_parts(t: Tally, changed: Seq<char>) -> Seq<Seq<char>> {
    (if t.changed > 0 {
        seq![decimal_spec(t.changed as nat) + " "@ + changed]
    } else {
        Seq::empty()
    }) + (if t.unchanged > 0 {
        seq![decimal_spec(t.unchanged as nat) + " unchanged"@]
    } else {
        Seq::empty()
    }) + (if t.failed > 0 {
        seq![decimal_spec(t.failed as nat) + " failed"@]
    } else {
        Seq::empty()
    })
}

impl Tally {
    pub fn new() -> (t: Tally)
        ensures
            t.changed == 0 && t.unchanged == 0 && t.failed == 0,
    {
        Tally { changed: 0, unchanged: 0, failed: 0 }
    }

    /// The line that opens a batch of `total` packages.
    pub fn heading(verb: &str, total: usize) -> (l: ReportLine)
        ensures
            line_is(l, Outcome::Done, verb@, heading_body(total as nat)),
    {
        let mut body = decimal(total);
        body.append(" package");
        if total != 1 {
            body.append("s");
        } else {
            proof {
                reveal_strlit("");
            }
        }
        proof {
            if total == 1 {
                assert(body@ =~= heading_body(total as nat));
            }
        }
        ReportLine { outcome: Outcome::Done, verb: String::from_str(verb), body }
    }

    /// Something changed.
    pub fn change(&mut self, verb: &str, body: String) -> (l: ReportLine)
        requires
            old(self).changed < usize::MAX,
        ensures
            final(self).changed == old(self).changed + 1,
            final(self).unchanged == old(self).unchanged,
            final(self).failed == old(self).failed,
            line_is(l, Outcome::Done, verb@, body@),
    {
        self.changed += 1;
        ReportLine { outcome: Outcome::Done, verb: String::from_str(verb), body }
    }

    /// Nothing to do.
    pub fn keep(&mut self, verb: &str, body: String) -> (l: ReportLine)
        requires
            old(self).unchanged < usize::MAX,
        ensures
            final(self).changed == old(self).changed,
            final(self).unchanged == old(self).unchanged + 1,
            final(self).failed == old(self).failed,
            line_is(l, Outcome::Noop, verb@, body@),
    {
        self.unchanged += 1;
        ReportLine { outcome: Outcome::Noop, verb: String::from_str(verb), body }
    }

    /// Something went wrong with `id`, for the reason in `message`.
    pub fn fail(&mut self, id: &str, message: &str) -> (l: ReportLine)
        requires
            old(self).failed < usize::MAX,
        ensures
            final(self).changed == old(self).changed,
            final(self).unchanged == old(self).unchanged,
            final(self).failed == old(self).failed + 1,
            line_is(l, Outcome::Fail, "Failed"@, id@ + ": "@ + message@),
    {
        self.failed += 1;
        let mut body = String::from_str(id);
        body.append(": ");
        body.append(message);
        ReportLine { outcome: Outcome::Fail, verb: String::from_str("Failed"), body }
    }

    /// Reports the upgrade of `dep`, which sat at revision `previous` before and
    /// was newly deployed when `fresh`.
    pub fn upgraded(&mut self, dep: &Dependency, previous: &str, fresh: bool) -> (l: ReportLine)
        requires
            old(self).changed < usize::MAX,
            old(self).unchanged < usize::MAX,
        ensures
            ({
                let (outcome, verb, body) = upgraded_line(dep@, previous@, fresh);
                &&& line_is(l, outcome, verb, body)
                &&& outcome == Outcome::Done ==> final(self).changed == old(self).changed + 1
                    && final(self).unchanged == old(self).unchanged
                &&& outcome == Outcome::Noop ==> final(self).unchanged == old(self).unchanged + 1
                    && final(self).changed == old(self).changed
                &&& final(self).failed == old(self).failed
            }),
    {
        let n = previous.unicode_len();
        let mut body = dep.name.clone();
        body.append(" ");
        if n > 0 && previous.get_char(0) == '=' {
            body.append(previous);
            self.keep("Pinned", body)
        } else if fresh || n == 0 {
            body.append(dep.rev.as_str());
            self.change("Installed", body)
        } else if string_eq(previous, dep.rev.as_str()) {
            body.append(previous);
            self.keep("Unchanged", body)
        } else {
            body.append(previous);
            body.append(" -> ");
            body.append(dep.rev.as_str());
            self.change("Upgraded", body)
        }
    }

    /// Reports how installing `dep` went: deployed afresh (`Ok(true)`), already
    /// in place (`Ok(false)`), or failed for the reason given.
    pub fn installed(&mut self, dep: &Dependency, outcome: &Result<bool, String>) -> (l: ReportLine)
        requires
            old(self).changed < usize::MAX,
            old(self).unchanged < usize::MAX,
            old(self).failed < usize::MAX,
        ensures
            match outcome {
                Ok(true) => line_is(l, Outcome::Done, "Installed"@, dep.name@ + " "@ + dep.rev@)
                    && final(self).changed == old(self).changed + 1
                    && final(self).unchanged == old(self).unchanged
                    && final(self).failed == old(self).failed,
                Ok(false) => line_is(l, Outcome::Noop, "Unchanged"@, dep.name@ + " "@ + dep.rev@)
                    && final(self).changed == old(self).changed
                    && final(self).unchanged == old(self).unchanged + 1
                    && final(self).failed == old(self).failed,
                Err(reason) => line_is(l, Outcome::Fail, "Failed"@, dep.name@ + ": "@ + reason@)
                    && final(self).changed == old(self).changed
                    && final(self).unchanged == old(self).unchanged
                    && final(self).failed == old(self).failed + 1,
            },
    {
        match outcome {
            Ok(fresh) => {
                let mut body = dep.name.clone();
                body.append(" ");
                body.append(dep.rev.as_str());
                if *fresh {
                    self.change("Installed", body)
                } else {
                    self.keep("Unchanged", body)
                }
            },
            Err(reason) => self.fail(dep.name.as_str(), reason.as_str()),
        }
    }

    /// The closing summary: how many changed (described by `changed`), stayed
    /// unchanged, and failed, leaving out the counts that are zero; and
    /// whether the command failed, which it did when anything failed.
    pub fn finish(&self, changed: &str) -> (res: (ReportLine, bool))
        ensures
            line_is(res.0, Outcome::Done, "Finished"@, join_spec(finish_parts(*self, changed@), ", "@)),
            res.1 == (self.failed > 0),
    {
        let mut parts: Vec<String> = Vec::new();
        if self.changed > 0 {
            let mut p = decimal(self.changed);
            p.append(" ");
            p.append(changed);
            parts.push(p);
        }
        if self.unchanged > 0 {
            let mut p = decimal(self.unchanged);
            p.append(" unchanged");
            parts.push(p);
        }
        if self.failed > 0 {
            let mut p = decimal(self.failed);
            p.append(" failed");
            parts.push(p);
        }
        proof {
            assert(parts@.map_values(|p: String| p@) =~= finish_parts(*self, changed@));
        }
        let line = ReportLine {
            outcome: Outcome::Done,
            verb: String::from_str("Finished"),
            body: join_strings(&parts, ", "),
        };
        (line, self.failed > 0)
    }
}

/// How an upgrade is reported, by what happened: a pinned package (its
/// previous revision starts with `=`) is reported as pinned and unchanged;
/// otherwise a package deployed afresh, or one that had no revision yet, as
/// installed at its new revision, a change, whatever its previous revision
/// was; otherwise one whose revision stayed as unchanged; and otherwise as
/// upgraded from the previous revision to the new one, a change.
pub proof fn lemma_upgrade_report(dep: DependencyView, old: Seq<char>, fresh: bool)
    ensures
        ({
            let (outcome, verb, body) = upgraded_line(dep, old, fresh);
            let pinned = old.len() > 0 && old[0] == '=';
            &&& pinned ==> outcome == Outcome::Noop && verb == "Pinned"@ && body == dep.name + " "@ + old
            &&& !pinned && (fresh || old.len() == 0) ==> outcome == Outcome::Done && verb == "Installed"@ && body
                == dep.name + " "@ + dep.rev
            &&& !pinned && !fresh && old.len() > 0 && old == dep.rev ==> outcome == Outcome::Noop && verb
                == "Unchanged"@ && body == dep.name + " "@ + old
            &&& !pinned && !fresh && old.len() > 0 && old != dep.rev ==> outcome == Outcome::Done && verb
                == "Upgraded"@ && body == dep.name + " "@ + old + " -> "@ + dep.rev
            &&& outcome == Outcome::Done <==> !pinned && (fresh || old.len() == 0 || old != dep.rev)
        }),
{
}

/// `part` occurs in `parts` joined by `sep`.
proof fn lemma_join_holds(parts: Seq<Seq<char>>, sep: Seq<char>, k: int)
    requires
        0 <= k < parts.len(),
    ensures
        contains_seq(join_spec(parts, sep), parts[k]),
    decreases parts.len(),
{
    let j = join_spec(parts, sep);
    let p = parts[k];
    if parts.len() == 1 {
        assert(j.subrange(0, p.len() as int) =~= p);
        assert(0 <= 0int <= j.len() - p.len() && j.subrange(0int, 0int + p.len()) == p);
    } else {
        let d = parts.drop_last();
        let jd = join_spec(d, sep);
        assert(j == jd + sep + parts.last());
        if k < parts.len() - 1 {
            lemma_join_holds(d, sep, k);
            assert(d[k] == p);
            let i = choose|i: int| 0 <= i <= jd.len() - d[k].len() && #[trigger] jd.subrange(i, i + d[k].len()) == d[k];
            assert(j.subrange(i, i + p.len()) =~= jd.subrange(i, i + d[k].len()));
            assert(0 <= i <= j.len() - p.len() && j.subrange(i, i + p.len()) == p);
        } else {
            let i: int = (jd.len() + sep.len()) as int;
            assert(j.subrange(i, i + p.len()) =~= p);
            assert(0 <= i <= j.len() - p.len() && j.subrange(i, i + p.len()) == p);
        }
    }
}

/// Parts joined are empty exactly when there are none or all are empty; with
/// a first part that is not empty, the joint is not.
proof fn lemma_join_empty(parts: Seq<Seq<char>>, sep: Seq<char>)
    ensures
        parts.len() == 0 ==> join_spec(parts, sep).len() == 0,
        parts.len() > 0 && parts[0].len() > 0 ==> join_spec(parts, sep).len() > 0,
    decreases parts.len(),
{
    if parts.len() > 1 {
        lemma_join_empty(parts.drop_last(), sep);
    }
}

/// A number written in decimal is not empty.
proof fn lemma_decimal_nonempty(n: nat)
    ensures
        decimal_spec(n).len() > 0,
    decreases n,
{
    if n >= 10 {
        lemma_decimal_nonempty(n / 10);
    }
}

/// The closing summary shows every count that is not zero: the changed
/// count followed by what the command did, the unchanged count and the
/// failed count each where they are not zero, in that order; and it is empty
/// exactly when all three counts are zero.
pub proof fn lemma_summary_shows_every_count(t: Tally, changed: Seq<char>)
    ensures
        ({
            let body = join_spec(finish_parts(t, changed), ", "@);
            &&& t.changed > 0 ==> contains_seq(body, decimal_spec(t.changed as nat) + " "@ + changed)
            &&& t.unchanged > 0 ==> contains_seq(body, decimal_spec(t.unchanged as nat) + " unchanged"@)
            &&& t.failed > 0 ==> contains_seq(body, decimal_spec(t.failed as nat) + " failed"@)
            &&& t.changed > 0 ==> is_prefix_of(decimal_spec(t.changed as nat) + " "@ + changed, body)
            &&& body.len() == 0 <==> (t.changed == 0 && t.unchanged == 0 && t.failed == 0)
        }),
{
    let parts = finish_parts(t, changed);
    let a = decimal_spec(t.changed as nat) + " "@ + changed;
    let b = decimal_spec(t.unchanged as nat) + " unchanged"@;
    let c = decimal_spec(t.failed as nat) + " failed"@;
    let pa = if t.changed > 0 { seq![a] } else { Seq::<Seq<char>>::empty() };
    let pb = if t.unchanged > 0 { seq![b] } else { Seq::<Seq<char>>::empty() };
    let pc = if t.failed > 0 { seq![c] } else { Seq::<Seq<char>>::empty() };
    assert(parts == pa + pb + pc);
    lemma_decimal_nonempty(t.changed as nat);
    lemma_decimal_nonempty(t.unchanged as nat);
    lemma_decimal_nonempty(t.failed as nat);
    if t.changed > 0 {
        assert(parts[0] == a);
        lemma_join_holds(parts, ", "@, 0);
        lemma_join_prefix(parts, ", "@);
    }
    if t.unchanged > 0 {
        let k = pa.len() as int;
        assert(parts[k] == b);
        lemma_join_holds(parts, ", "@, k);
    }
    if t.failed > 0 {
        let k = (pa.len() + pb.len()) as int;
        assert(parts[k] == c);
        lemma_join_holds(parts, ", "@, k);
    }
    lemma_join_empty(parts, ", "@);
    if parts.len() > 0 {
        assert(parts[0] == a || parts[0] == b || parts[0] == c);
    }
}

/// Parts joined begin with the first part.
proof fn lemma_join_prefix(parts: Seq<Seq<char>>, sep: Seq<char>)
    requires
        parts.len() > 0,
    ensures
        is_prefix_of(parts[0], join_spec(parts, sep)),
    decreases parts.len(),
{
    if parts.len() > 1 {
        let d = parts.drop_last();
        lemma_join_prefix(d, sep);
        let jd = join_spec(d, sep);
        assert(join_spec(parts, sep).subrange(0, parts[0].len() as int) =~= jd.subrange(0, d[0].len() as int));
    } else {
        assert(join_spec(parts, sep).subrange(0, parts[0].len() as int) =~= parts[0]);
    }
}

} // verus!

//! Clearing the cache: what is in it, and whether to go on.

use crate::fmt::{human_bytes, size_text};
use crate::text::{cat2, cat3, cat5, chars_of, decimal, has_prefix, number, owned, starts_with, str_eq, strs, text_of, trim, trimmed};
use vstd::prelude::*;
use vstd::string::*;

verus! {

/// How many files of each kind are in the cache, and how large they are.
#[derive(Debug, Clone, Copy, PartialEq, Eq, Structural)]
pub struct Stats {
    pub ac: u64,
    pub cas: u64,
    pub structural: u64,
    pub log: u64,
    pub total_bytes: u64,
    pub total_entries: u64,
}

/// How many of the files are below the directory.
pub open spec fn count_below(files: Seq<(String, u64)>, dir: Seq<char>) -> nat
    decreases files.len(),
{
    if files.len() == 0 {
        0
    } else {
        count_below(files.drop_last(), dir) + (if has_prefix(files.last().0@, dir) {
            1nat
        } else {
            0
        })
    }
}

/// How large the files are together.
pub open spec fn total_size(files: Seq<(String, u64)>) -> nat
    decreases files.len(),
{
    if files.len() == 0 {
        0
    } else {
        total_size(files.drop_last()) + files.last().1 as nat
    }
}

proof fn lemma_count_bound(files: Seq<(String, u64)>, dir: Seq<char>)
    ensures
        count_below(files, dir) <= files.len(),
    decreases files.len(),
{
    if files.len() > 0 {
        lemma_count_bound(files.drop_last(), dir);
    }
}

proof fn lemma_size_grows(files: Seq<(String, u64)>, n: int)
    requires
        0 <= n <= files.len(),
    ensures
        total_size(files.take(n)) <= total_size(files),
    decreases files.len() - n,
{
    if n < files.len() {
        lemma_size_grows(files, n + 1);
        assert(files.take(n + 1).drop_last() == files.take(n));
    } else {
        assert(files.take(n) == files);
    }
}

proof fn lemma_disjoint(s: Seq<char>)
    ensures
        has_prefix(s, "ac/"@) ==> !has_prefix(s, "cas/"@) && !has_prefix(s, "structural/"@) && !has_prefix(s, "log/"@),
        has_prefix(s, "cas/"@) ==> !has_prefix(s, "structural/"@) && !has_prefix(s, "log/"@),
        has_prefix(s, "structural/"@) ==> !has_prefix(s, "log/"@),
{
    reveal_strlit("ac/");
    reveal_strlit("cas/");
    reveal_strlit("structural/");
    reveal_strlit("log/");
    let a = "ac/"@;
    let b = "cas/"@;
    let c = "structural/"@;
    let d = "log/"@;
    if has_prefix(s, a) {
        assert(s.take(3)[0] == a[0]);
    }
    if has_prefix(s, b) {
        assert(s.take(4)[0] == b[0]);
    }
    if has_prefix(s, c) {
        assert(s.take(11)[0] == c[0]);
    }
    if has_prefix(s, d) {
        assert(s.take(4)[0] == d[0]);
    }
}

/// Counts the files of the cache, by their paths in it.
pub fn collect_stats(files: &Vec<(String, u64)>) -> (r: Stats)
    requires
        total_size(files@) <= u64::MAX,
    ensures
        r.ac == count_below(files@, "ac/"@),
        r.cas == count_below(files@, "cas/"@),
        r.structural == count_below(files@, "structural/"@),
        r.log == count_below(files@, "log/"@),
        r.total_bytes == total_size(files@),
        r.total_entries == files@.len(),
{
    let mut s = Stats { ac: 0, cas: 0, structural: 0, log: 0, total_bytes: 0, total_entries: 0 };
    let ghost fv = files@;
    let mut i: usize = 0;
    while i < files.len()
        invariant
            i <= files.len(),
            fv == files@,
            total_size(fv) <= u64::MAX,
            s.ac == count_below(fv.take(i as int), "ac/"@),
            s.cas == count_below(fv.take(i as int), "cas/"@),
            s.structural == count_below(fv.take(i as int), "structural/"@),
            s.log == count_below(fv.take(i as int), "log/"@),
            s.total_bytes == total_size(fv.take(i as int)),
            s.total_entries == i,
        decreases files.len() - i,
    {
        let ghost next = fv.take(i + 1);
        proof {
            assert(next.drop_last() == fv.take(i as int));
            assert(next.last() == fv[i as int]);
            lemma_size_grows(fv, i + 1);
            lemma_count_bound(fv.take(i as int), "ac/"@);
            lemma_count_bound(fv.take(i as int), "cas/"@);
            lemma_count_bound(fv.take(i as int), "structural/"@);
            lemma_count_bound(fv.take(i as int), "log/"@);
            lemma_disjoint(fv[i as int].0@);
        }
        let rel = files[i].0.as_str();
        s.total_bytes = s.total_bytes + files[i].1;
        s.total_entries = s.total_entries + 1;
        if starts_with(rel, "ac/") {
            s.ac = s.ac + 1;
        } else if starts_with(rel, "cas/") {
            s.cas = s.cas + 1;
        } else if starts_with(rel, "structural/") {
            s.structural = s.structural + 1;
        } else if starts_with(rel, "log/") {
            s.log = s.log + 1;
        }
        i = i + 1;
    }
    assert(fv.take(i as int) == fv);
    s
}

/// The summary of the cache in lines.
pub open spec fn summary(root: Seq<char>, s: Stats) -> Seq<Seq<char>> {
    if s.total_entries == 0 {
        seq!["Cache: "@ + root, "  empty."@]
    } else {
        seq!["Cache: "@ + root, "  size:    "@ + size_text(s.total_bytes as nat), "  entries: "@ + decimal(s.total_entries as nat) + " total"@] + (if s.ac > 0 || s.cas > 0
            || s.structural > 0 || s.log > 0 {
            seq!["    "@ + decimal(s.ac as nat) + " AC, "@ + decimal(s.cas as nat) + (" CAS, "@ + decimal(s.structural as nat) + " structural, "@ + decimal(s.log as nat) + " log"@)]
        } else {
            Seq::<Seq<char>>::empty()
        })
    }
}

/// The summary of the cache.
pub fn print_summary(root: &str, s: &Stats) -> (r: Vec<String>)
    ensures
        strs(r@) == summary(root@, *s),
{
    let mut out: Vec<String> = Vec::new();
    out.push(cat2("Cache: ", root));
    if s.total_entries == 0 {
        out.push(owned("  empty."));
        assert(strs(out@) == summary(root@, *s));
        return out;
    }
    let size = human_bytes(s.total_bytes);
    out.push(cat2("  size:    ", size.as_str()));
    let n = number(s.total_entries as u128);
    out.push(cat3("  entries: ", n.as_str(), " total"));
    if s.ac > 0 || s.cas > 0 || s.structural > 0 || s.log > 0 {
        let a = number(s.ac as u128);
        let c = number(s.cas as u128);
        let t = number(s.structural as u128);
        let l = number(s.log as u128);
        let tail = cat5(" CAS, ", t.as_str(), " structural, ", l.as_str(), " log");
        out.push(cat5("    ", a.as_str(), " AC, ", c.as_str(), tail.as_str()));
    }
    assert(strs(out@) == summary(root@, *s));
    out
}

/// What the command goes on with.
#[derive(Debug, Clone, Copy, PartialEq, Eq, Structural)]
pub enum CleanStep {
    /// It was only to be shown.
    DryRun,
    /// The cache is empty.
    Nothing,
    /// Nobody can be asked.
    Refuse,
    Ask,
    Delete,
}

/// What the command goes on with, whatever is in the cache.
pub open spec fn step_of(dry_run: bool, entries: nat, yes: bool, terminal: bool) -> CleanStep {
    if dry_run {
        CleanStep::DryRun
    } else if entries == 0 {
        CleanStep::Nothing
    } else if yes {
        CleanStep::Delete
    } else if !terminal {
        CleanStep::Refuse
    } else {
        CleanStep::Ask
    }
}

/// What the command goes on with.
pub fn clean_step(dry_run: bool, s: &Stats, yes: bool, terminal: bool) -> (r: CleanStep)
    ensures
        r == step_of(dry_run, s.total_entries as nat, yes, terminal),
{
    if dry_run {
        CleanStep::DryRun
    } else if s.total_entries == 0 {
        CleanStep::Nothing
    } else if yes {
        CleanStep::Delete
    } else if !terminal {
        CleanStep::Refuse
    } else {
        CleanStep::Ask
    }
}

/// A letter of ASCII in lower case; any other character as it is.
pub open spec fn lowered_char(c: char) -> char {
    if 'A' <= c && c <= 'Z' {
        ((c as u32) + 32) as char
    } else {
        c
    }
}

pub open spec fn lowered(s: Seq<char>) -> Seq<char> {
    s.map_values(|c: char| lowered_char(c))
}

fn lower(s: &str) -> (r: String)
    ensures
        r@ == lowered(s@),
{
    let v = chars_of(s);
    let mut out: Vec<char> = Vec::new();
    let mut i: usize = 0;
    while i < v.len()
        invariant
            i <= v.len(),
            v@ == s@,
            out.len() == i,
            forall|k: int| 0 <= k < i ==> #[trigger] out@[k] == lowered_char(s@[k]),
        decreases v.len() - i,
    {
        let c: char = v[i];
        if 'A' <= c && c <= 'Z' {
            out.push((c as u8 + 32) as char);
        } else {
            out.push(c);
        }
        i = i + 1;
    }
    let r = text_of(&out, 0, out.len());
    assert(r@ == lowered(s@));
    r
}

/// Whether an answer is a yes.
pub fn confirmed(answer: &str) -> (r: bool)
    ensures
        r == (lowered(trimmed(answer@)) == "y"@ || lowered(trimmed(answer@)) == "yes"@),
{
    let t = trim(answer);
    let l = lower(t.as_str());
    str_eq(l.as_str(), "y") || str_eq(l.as_str(), "yes")
}

/// What is said when the cache was cleared.
pub fn cleared(root: &str, s: &Stats) -> (r: String)
    ensures
        r@ == "Cleared "@ + root@ + " ("@ + size_text(s.total_bytes as nat) + ")."@,
{
    let size = human_bytes(s.total_bytes);
    cat5("Cleared ", root, " (", size.as_str(), ").")
}

/// Nothing is deleted unasked: without a yes on the command line the cache is
/// at most asked about, and only at a terminal; a dry run never deletes.
pub proof fn law_nothing_deleted_unasked(entries: nat, yes: bool, terminal: bool)
    ensures
        step_of(false, entries, yes, terminal) is Delete ==> yes,
        step_of(false, entries, yes, terminal) is Ask ==> terminal && !yes,
        step_of(true, entries, yes, terminal) is DryRun,
{
}

/// The counts tell the files below a directory, each once, and the size is the
/// sum over all files, whatever order they were met in.
pub proof fn law_stats(a: Seq<(String, u64)>, b: Seq<(String, u64)>, dir: Seq<char>)
    ensures
        count_below(a, dir) == a.filter(|f: (String, u64)| has_prefix(f.0@, dir)).len(),
        count_below(a + b, dir) == count_below(a, dir) + count_below(b, dir),
        total_size(a + b) == total_size(a) + total_size(b),
        a.len() == 1 ==> total_size(a) == a[0].1,
{
    lemma_count_filter(a, dir);
    lemma_stats_concat(a, b, dir);
    if a.len() == 1 {
        assert(a.drop_last().len() == 0);
        assert(total_size(a.drop_last()) == 0);
    }
}

proof fn lemma_count_filter(a: Seq<(String, u64)>, dir: Seq<char>)
    ensures
        count_below(a, dir) == a.filter(|f: (String, u64)| has_prefix(f.0@, dir)).len(),
    decreases a.len(),
{
    reveal(Seq::filter);
    if a.len() > 0 {
        lemma_count_filter(a.drop_last(), dir);
    }
}

proof fn lemma_stats_concat(a: Seq<(String, u64)>, b: Seq<(String, u64)>, dir: Seq<char>)
    ensures
        count_below(a + b, dir) == count_below(a, dir) + count_below(b, dir),
        total_size(a + b) == total_size(a) + total_size(b),
    decreases b.len(),
{
    if b.len() == 0 {
        assert(a + b =~= a);
    } else {
        lemma_stats_concat(a, b.drop_last(), dir);
        assert((a + b).drop_last() =~= a + b.drop_last());
        assert((a + b).last() == b.last());
    }
}

/// Something is deleted without a question only where that was said, never in a
/// dry run and never without a terminal to ask at.
pub proof fn law_clean_step(dry_run: bool, entries: nat, yes: bool, terminal: bool)
    ensures
        step_of(dry_run, entries, yes, terminal) is Delete <==> !dry_run && entries > 0 && yes,
        step_of(dry_run, entries, yes, terminal) is Ask <==> !dry_run && entries > 0 && !yes && terminal,
        step_of(dry_run, entries, yes, terminal) is Refuse <==> !dry_run && entries > 0 && !yes && !terminal,
        step_of(dry_run, entries, yes, terminal) is DryRun <==> dry_run,
{
}

/// An answer is read without regard to the case of its letters, and otherwise as
/// it is.
pub proof fn law_lowered(s: Seq<char>, i: int)
    requires
        0 <= i < s.len(),
    ensures
        lowered(s).len() == s.len(),
        !('A' <= s[i] <= 'Z') ==> lowered(s)[i] == s[i],
        'A' <= s[i] <= 'Z' ==> 'a' <= lowered(s)[i] <= 'z' && lowered(s)[i] as int - 'a' as int == s[i] as int - 'A' as int,
        lowered(lowered(s)) == lowered(s),
{
}

} // verus!

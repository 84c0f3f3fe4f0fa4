//! What git reports: the files that changed.

use crate::paths::{path_set, sort_paths};
use crate::text::{byte_views, cat2, cat3, contains, from_utf8_lossy, occurs_in, owned, split_bytes, split_bytes_on, strs, trim, trimmed, utf8_lossy};
use vstd::prelude::*;
use vstd::string::*;

verus! {

/// Why git gave no answer.
#[derive(Debug, PartialEq, Eq)]
pub enum GitError {
    NotARepo(String),
    Other(String),
}

impl GitError {
    /// The error in words.
    pub open spec fn text(&self) -> Seq<char> {
        match *self {
            GitError::NotARepo(p) => "not a git repository: "@ + p@,
            GitError::Other(m) => "git operation failed: "@ + m@,
        }
    }

    pub fn message(&self) -> (r: String)
        ensures
            r@ == self.text(),
    {
        match self {
            GitError::NotARepo(p) => cat2("not a git repository: ", p.as_str()),
            GitError::Other(m) => cat2("git operation failed: ", m.as_str()),
        }
    }
}

/// What an error of looking for the repository means: there is none, or it
/// cannot be read.
pub fn open_error(workspace_root: &str, msg: &str) -> (r: GitError)
    ensures
        r is NotARepo <==> occurs_in(msg@, "not a git repository"@) || occurs_in(msg@, "does not exist"@),
        r matches GitError::NotARepo(p) ==> p@ == workspace_root@,
        r matches GitError::Other(m) ==> m@ == msg@,
{
    if contains(msg, "not a git repository") || contains(msg, "does not exist") {
        GitError::NotARepo(owned(workspace_root))
    } else {
        GitError::Other(owned(msg))
    }
}

/// The texts of the records that are not empty.
pub open spec fn record_texts(records: Seq<Seq<u8>>) -> Seq<Seq<char>>
    decreases records.len(),
{
    if records.len() == 0 {
        Seq::<Seq<char>>::empty()
    } else {
        let rest = record_texts(records.drop_last());
        if records.last().len() == 0 {
            rest
        } else {
            rest.push(utf8_lossy(records.last()))
        }
    }
}

/// The paths of an answer whose records end in a zero byte.
pub fn parse_z_separated(bytes: &[u8]) -> (r: Vec<String>)
    ensures
        strs(r@) == record_texts(split_bytes_on(bytes@, 0)),
{
    let records = split_bytes(bytes, 0);
    let ghost rv = byte_views(records@);
    let mut out: Vec<String> = Vec::new();
    let mut i: usize = 0;
    assert(strs(out@) == record_texts(rv.take(0)));
    while i < records.len()
        invariant
            i <= records.len(),
            rv == byte_views(records@),
            strs(out@) == record_texts(rv.take(i as int)),
        decreases records.len() - i,
    {
        let ghost before = strs(out@);
        assert(rv.take(i + 1).drop_last() == rv.take(i as int));
        assert(rv.take(i + 1).last() == records@[i as int]@);
        if records[i].len() > 0 {
            let s = from_utf8_lossy(records[i].as_slice());
            let ghost sv = s@;
            out.push(s);
            assert(strs(out@) == before.push(sv));
        }
        i = i + 1;
    }
    assert(rv.take(i as int) == rv);
    out
}

/// How a run of git ended.
#[derive(Debug)]
pub enum GitRun {
    /// It could not be started.
    NotStarted(String),
    Exited { success: bool, stdout: Vec<u8>, stderr: Vec<u8> },
}

/// The paths that a run of git lists, or why it lists none.
pub fn listed_paths(what: &str, run: &GitRun) -> (r: Result<Vec<String>, GitError>)
    ensures
        match *run {
            GitRun::NotStarted(e) => r matches Err(GitError::Other(m)) && m@ == "spawn "@ + what@ + (": "@ + e@),
            GitRun::Exited { success, stdout, stderr } => if success {
                r matches Ok(v) && strs(v@) == record_texts(split_bytes_on(stdout@, 0))
            } else {
                r matches Err(GitError::Other(m)) && m@ == what@ + " failed: "@ + trimmed(utf8_lossy(stderr@))
            },
        },
{
    match run {
        GitRun::NotStarted(e) => {
            let tail = cat2(": ", e.as_str());
            Err(GitError::Other(cat3("spawn ", what, tail.as_str())))
        },
        GitRun::Exited { success, stdout, stderr } => {
            if *success {
                Ok(parse_z_separated(stdout.as_slice()))
            } else {
                let text = from_utf8_lossy(stderr.as_slice());
                let t = trim(text.as_str());
                Err(GitError::Other(cat3(what, " failed: ", t.as_str())))
            }
        },
    }
}

/// The changed files: those that differ from a revision and those that are not
/// tracked, in path order, each once.
pub fn affected_files(changed: Vec<String>, untracked: Vec<String>) -> (r: Vec<String>)
    ensures
        strs(r@) == path_set(strs(changed@) + strs(untracked@)),
{
    let ghost a = changed@;
    let ghost b = untracked@;
    let mut all = changed;
    let mut more = untracked;
    all.append(&mut more);
    assert(strs(a + b) == strs(a) + strs(b));
    sort_paths(&all)
}

/// The arguments that list what differs from a revision.
pub fn diff_args(base: &str) -> (r: Vec<String>)
    ensures
        strs(r@) == seq!["diff"@, "--name-only"@, "--no-renames"@, "--relative"@, "-z"@, base@],
{
    let mut out: Vec<String> = Vec::new();
    out.push(owned("diff"));
    out.push(owned("--name-only"));
    out.push(owned("--no-renames"));
    out.push(owned("--relative"));
    out.push(owned("-z"));
    out.push(owned(base));
    assert(strs(out@) == seq!["diff"@, "--name-only"@, "--no-renames"@, "--relative"@, "-z"@, base@]);
    out
}

/// The arguments that list what is not tracked.
pub fn untracked_args() -> (r: Vec<String>)
    ensures
        strs(r@) == seq!["ls-files"@, "--others"@, "--exclude-standard"@, "-z"@],
{
    let mut out: Vec<String> = Vec::new();
    out.push(owned("ls-files"));
    out.push(owned("--others"));
    out.push(owned("--exclude-standard"));
    out.push(owned("-z"));
    assert(strs(out@) == seq!["ls-files"@, "--others"@, "--exclude-standard"@, "-z"@]);
    out
}

/// The paths of an answer are the texts of its records, in order; an empty
/// record is no path.
pub proof fn law_record_texts(records: Seq<Seq<u8>>)
    ensures
        record_texts(records) == records.filter(|r: Seq<u8>| r.len() > 0).map_values(|r: Seq<u8>| utf8_lossy(r)),
    decreases records.len(),
{
    reveal(Seq::filter);
    if records.len() > 0 {
        law_record_texts(records.drop_last());
        let f = records.drop_last().filter(|r: Seq<u8>| r.len() > 0);
        assert(f.push(records.last()).map_values(|r: Seq<u8>| utf8_lossy(r)) =~= f.map_values(|r: Seq<u8>| utf8_lossy(r)).push(utf8_lossy(records.last())));
    } else {
        assert(record_texts(records) =~= records.filter(|r: Seq<u8>| r.len() > 0).map_values(|r: Seq<u8>| utf8_lossy(r)));
    }
}

} // verus!

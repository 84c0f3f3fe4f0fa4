//! A throwaway checkout of the committed state, to verify in.

use crate::paths::{joined, path_join};
use crate::sandbox::{sanitize, sanitized};
use crate::text::{cat2, from_utf8_lossy, owned, strs, trim, trimmed, utf8_lossy};
use vstd::prelude::*;
use vstd::string::*;

verus! {

/// A checkout and the repository it belongs to.
#[derive(Debug, PartialEq, Eq)]
pub struct Worktree {
    repo: String,
    path: String,
}

/// The complaint where there is no repository.
pub open spec fn no_repo_text() -> Seq<char> {
    "giant verify builds in an isolated worktree and needs a git repository (a jj colocated repo works too). Initialise one, or build without verify."@
}

/// Where the checkout of a run goes.
pub open spec fn checkout_path(temp: Seq<char>, id: Seq<char>) -> Seq<char> {
    joined(joined(temp, "giant-worktrees"@), sanitized(id))
}

impl Worktree {
    pub closed spec fn repo(&self) -> Seq<char> {
        self.repo@
    }

    pub closed spec fn at(&self) -> Seq<char> {
        self.path@
    }

    /// The checkout for a run of the workspace. Without a repository there is
    /// none: verifying never falls back to the live tree.
    pub fn plan(workspace_root: &str, temp: &str, id: &str, is_repo: bool) -> (r: Result<Worktree, String>)
        ensures
            r is Ok <==> is_repo,
            r matches Ok(w) ==> w.repo() == workspace_root@ && w.at() == checkout_path(temp@, id@),
            r matches Err(e) ==> e@ == no_repo_text(),
    {
        if !is_repo {
            return Err(
                owned(
                    "giant verify builds in an isolated worktree and needs a git repository (a jj colocated repo works too). Initialise one, or build without verify.",
                ),
            );
        }
        let dir = path_join(temp, "giant-worktrees");
        let s = sanitize(id);
        Ok(Worktree { repo: owned(workspace_root), path: path_join(dir.as_str(), s.as_str()) })
    }

    /// Where the checkout is.
    pub fn path(&self) -> (r: &str)
        ensures
            r@ == self.at(),
    {
        self.path.as_str()
    }

    /// The repository it belongs to.
    pub fn repository(&self) -> (r: &str)
        ensures
            r@ == self.repo(),
    {
        self.repo.as_str()
    }

    /// The arguments that make the checkout.
    pub fn add_args(&self) -> (r: Vec<String>)
        ensures
            strs(r@) == seq!["worktree"@, "add"@, "--detach"@, "--quiet"@, self.at(), "HEAD"@],
    {
        let mut out: Vec<String> = Vec::new();
        out.push(owned("worktree"));
        out.push(owned("add"));
        out.push(owned("--detach"));
        out.push(owned("--quiet"));
        out.push(self.path.clone());
        out.push(owned("HEAD"));
        assert(strs(out@) == seq!["worktree"@, "add"@, "--detach"@, "--quiet"@, self.at(), "HEAD"@]);
        out
    }

    /// The arguments that remove the checkout.
    pub fn remove_args(&self) -> (r: Vec<String>)
        ensures
            strs(r@) == seq!["worktree"@, "remove"@, "--force"@, self.at()],
    {
        let mut out: Vec<String> = Vec::new();
        out.push(owned("worktree"));
        out.push(owned("remove"));
        out.push(owned("--force"));
        out.push(self.path.clone());
        assert(strs(out@) == seq!["worktree"@, "remove"@, "--force"@, self.at()]);
        out
    }
}

/// The arguments that ask whether there is a repository.
pub fn probe_args() -> (r: Vec<String>)
    ensures
        strs(r@) == seq!["rev-parse"@, "--is-inside-work-tree"@],
{
    let mut out: Vec<String> = Vec::new();
    out.push(owned("rev-parse"));
    out.push(owned("--is-inside-work-tree"));
    assert(strs(out@) == seq!["rev-parse"@, "--is-inside-work-tree"@]);
    out
}

/// The arguments that forget checkouts which are gone.
pub fn prune_args() -> (r: Vec<String>)
    ensures
        strs(r@) == seq!["worktree"@, "prune"@],
{
    let mut out: Vec<String> = Vec::new();
    out.push(owned("worktree"));
    out.push(owned("prune"));
    assert(strs(out@) == seq!["worktree"@, "prune"@]);
    out
}

/// The complaint of a checkout that failed.
pub fn add_failed(stderr: &[u8]) -> (r: String)
    ensures
        r@ == "git worktree add failed: "@ + trimmed(utf8_lossy(stderr@)),
{
    let text = from_utf8_lossy(stderr);
    let t = trim(text.as_str());
    cat2("git worktree add failed: ", t.as_str())
}

/// The checkout of a run lies below the directory for temporary files, in a
/// directory of its own.
pub proof fn law_checkout_below(temp: Seq<char>, id: Seq<char>, other: Seq<char>)
    requires
        temp.len() > 0,
        id.len() > 0,
        other.len() > 0,
    ensures
        crate::paths::is_below(checkout_path(temp, id), temp),
        crate::paths::components(checkout_path(temp, id)) == crate::paths::components(temp) + seq!["giant-worktrees"@, sanitized(id)],
        sanitized(id) != sanitized(other) ==> checkout_path(temp, id) != checkout_path(temp, other),
{
    lemma_checkout(temp, id);
    lemma_checkout(temp, other);
    let a = crate::paths::components(checkout_path(temp, id));
    let b = crate::paths::components(checkout_path(temp, other));
    assert(a.last() == sanitized(id) && b.last() == sanitized(other));
}

proof fn lemma_checkout(temp: Seq<char>, id: Seq<char>)
    requires
        temp.len() > 0,
        id.len() > 0,
    ensures
        crate::paths::is_below(checkout_path(temp, id), temp),
        crate::paths::components(checkout_path(temp, id)) == crate::paths::components(temp) + seq!["giant-worktrees"@, sanitized(id)],
{
    let base = "giant-worktrees"@;
    reveal_strlit("giant-worktrees");
    reveal_strlit("/");
    crate::sandbox::law_sanitized_is_safe(id);
    let s = sanitized(id);
    if s.contains('/') {
        let i = choose|i: int| 0 <= i < s.len() && s[i] == '/';
        assert(s[i] != '/');
    }
    if s == seq!['.'] {
        assert(s[0] == '.');
    }
    crate::paths::lemma_bare_name(base);
    crate::paths::lemma_bare_name(s);
    crate::paths::law_joined(temp, base);
    let j = joined(temp, base);
    assert(j.len() > 0);
    if base == seq!['.'] {
        assert(base.len() == 1);
    }
    crate::paths::law_joined(j, s);
    let c = crate::paths::components(temp);
    assert((c + seq![base] + seq![s]).take(c.len() as int) == c);
    assert(c + seq![base] + seq![s] == c + seq![base, s]);
}

} // verus!

//! Resolving input patterns against the workspace.
//!
//! Reading directories is the caller's part. Here stands which patterns need a
//! walk, what the walk leaves out, and which of the files it finds are inputs.

use crate::key::{glob_kind, glob_kind_of, GlobKind};
use crate::paths::{holds_path, path_join, path_rank, path_set, rank, sort_paths};
use crate::pattern::{glob_compile, glob_error, GlobError};
use crate::text::{cat2, cat4, strs};
use globset::{Glob, GlobSet, GlobSetBuilder};
use vstd::prelude::*;

verus! {

/// `globset::GlobSet`, opaque to proofs.
#[verifier::external_type_specification]
#[verifier::external_body]
pub struct ExGlobSet(GlobSet);

/// `globset::GlobSetBuilder`, opaque to proofs.
#[verifier::external_type_specification]
#[verifier::external_body]
pub struct ExGlobSetBuilder(GlobSetBuilder);

/// The globs added to a builder, in order.
pub uninterp spec fn builder_globs(b: GlobSetBuilder) -> Seq<Seq<char>>;

/// The globs that a set was built from, in order.
pub uninterp spec fn set_globs(s: GlobSet) -> Seq<Seq<char>>;

/// What `globset::Glob::new` objects to in a glob; nothing where it parses.
pub uninterp spec fn walk_glob_error(glob: Seq<char>) -> Option<Seq<char>>;

/// What `globset::GlobSetBuilder::build` objects to in a list of globs that
/// parse; nothing where the set is built. A set is refused where its compiled
/// form outgrows a limit in bytes, so for a list near that limit the width of a
/// pointer can matter; the name stands for the outcome on one such width.
pub uninterp spec fn glob_set_error(globs: Seq<Seq<char>>) -> Option<Seq<char>>;

/// Whether a `globset::GlobSet` with the one glob `glob` matches `path` (on
/// Unix, where `/` is the only separator).
pub uninterp spec fn walk_glob_match(glob: Seq<char>, path: Seq<char>) -> bool;

/// `globset::Glob::new`. Trusted: whether the glob parses, and the error's text
/// where it does not, are functions of the glob's text.
#[verifier::external_body]
fn walk_glob_check(glob: &str) -> (r: Option<String>)
    ensures
        r is None <==> walk_glob_error(glob@) is None,
        r matches Some(e) ==> walk_glob_error(glob@) == Some(e@),
{
    Glob::new(glob).err().map(|e| e.to_string())
}

/// `globset::GlobSetBuilder::new`. Trusted: a new builder holds nothing.
#[verifier::external_body]
fn builder_new() -> (b: GlobSetBuilder)
    ensures
        builder_globs(b) == Seq::<Seq<char>>::empty(),
{
    GlobSetBuilder::new()
}

/// `globset::GlobSetBuilder::add`. Trusted: the glob goes behind those that are
/// there. The glob has to parse.
#[verifier::external_body]
fn builder_add(b: &mut GlobSetBuilder, glob: &str)
    requires
        walk_glob_error(glob@) is None,
    ensures
        builder_globs(*final(b)) == builder_globs(*old(b)).push(glob@),
{
    b.add(Glob::new(glob).unwrap());
}

/// `globset::GlobSetBuilder::build`. Trusted: the set holds the builder's
/// globs; whether it can be built, and the error's text where it cannot, are
/// functions of those globs.
#[verifier::external_body]
fn builder_build(b: &GlobSetBuilder) -> (r: Result<GlobSet, String>)
    ensures
        r is Ok <==> glob_set_error(builder_globs(*b)) is None,
        r matches Ok(s) ==> set_globs(s) == builder_globs(*b),
        r matches Err(e) ==> glob_set_error(builder_globs(*b)) == Some(e@),
{
    b.build().map_err(|e| e.to_string())
}

/// `globset::GlobSet::is_match`. Trusted: a set matches a path if any of its
/// globs does.
#[verifier::external_body]
fn set_matches(s: &GlobSet, path: &str) -> (r: bool)
    ensures
        r <==> (exists|i: int| 0 <= i < set_globs(*s).len() && walk_glob_match(#[trigger] set_globs(*s)[i], path@)),
{
    s.is_match(path)
}

/// Some glob of the list matches `path`.
pub open spec fn any_glob_matches(globs: Seq<Seq<char>>, path: Seq<char>) -> bool {
    exists|i: int| 0 <= i < globs.len() && walk_glob_match(#[trigger] globs[i], path)
}

/// What the `{:?}` form of a string is.
pub uninterp spec fn str_debug(s: Seq<char>) -> Seq<char>;

/// `c` needs no escape inside quotes: printable ASCII other than a double
/// quote or a backslash.
pub open spec fn is_plain(c: char) -> bool {
    0x20 <= c as u32 <= 0x7e && c != '"' && c != '\\'
}

/// `format!("{:?}", s)`. Trusted: the quoted form is a function of the text,
/// and plain characters stand in it as they are. How other characters are
/// escaped is left unsaid.
#[verifier::external_body]
pub(crate) fn quoted(s: &str) -> (r: String)
    ensures
        r@ == str_debug(s@),
        (forall|i: int| 0 <= i < s@.len() ==> is_plain(#[trigger] s@[i])) ==> r@ == seq!['"'] + s@ + seq!['"'],
{
    format!("{:?}", s)
}

/// The message for a glob that does not compile.
pub open spec fn bad_glob_text(glob: Seq<char>, error: Seq<char>) -> Seq<char> {
    "bad glob "@ + str_debug(glob) + ": "@ + error
}

pub(crate) fn bad_glob(glob: &str, error: &str) -> (r: String)
    ensures
        r@ == bad_glob_text(glob@, error@),
{
    let q = quoted(glob);
    cat4("bad glob ", q.as_str(), ": ", error)
}

/// The patterns of one kind, in order.
pub open spec fn of_kind(globs: Seq<Seq<char>>, kind: GlobKind) -> Seq<Seq<char>>
    decreases globs.len(),
{
    if globs.len() == 0 {
        globs
    } else {
        let rest = of_kind(globs.drop_last(), kind);
        if glob_kind_of(globs.last()) == kind {
            rest.push(globs.last())
        } else {
            rest
        }
    }
}

/// The patterns of `globs` that are of the given kind.
pub fn globs_of_kind(globs: &Vec<String>, kind: GlobKind) -> (r: Vec<String>)
    ensures
        strs(r@) == of_kind(strs(globs@), kind),
{
    let ghost gv = strs(globs@);
    let mut out: Vec<String> = Vec::new();
    let mut i: usize = 0;
    while i < globs.len()
        invariant
            i <= globs.len(),
            gv == strs(globs@),
            strs(out@) == of_kind(gv.take(i as int), kind),
        decreases globs.len() - i,
    {
        let ghost before = strs(out@);
        assert(gv[i as int] == globs@[i as int]@);
        assert(gv.take(i + 1).drop_last() == gv.take(i as int));
        if glob_kind(globs[i].as_str()) == kind {
            out.push(globs[i].clone());
            assert(strs(out@) == before.push(gv[i as int]));
        }
        i = i + 1;
    }
    assert(gv.take(i as int) == gv);
    out
}

/// The absolute pattern to read for a shallow glob, or why it is none.
pub fn shallow_pattern(workspace: &str, glob: &str) -> (r: Result<String, String>)
    ensures
        r is Ok <==> glob_error(crate::paths::joined(workspace@, glob@)) is None,
        r matches Ok(p) ==> p@ == crate::paths::joined(workspace@, glob@),
        r matches Err(m) ==> exists|e: GlobError| #[trigger] e.model() == glob_error(crate::paths::joined(workspace@, glob@))->0 && m@ == bad_glob_text(glob@, e.text()),
{
    let full = path_join(workspace, glob);
    match glob_compile(full.as_str()) {
        None => Ok(full),
        Some(e) => {
            let err = GlobError { pos: e.0, msg: e.1 };
            let text = err.message();
            let m = bad_glob(glob, text.as_str());
            assert(err.model() == glob_error(full@)->0);
            Err(m)
        },
    }
}

/// A directory that the walk does not enter, by name.
pub open spec fn is_noise(name: Seq<char>) -> bool {
    name == ".git"@ || name == ".giant"@ || name == ".direnv"@ || name == ".devenv"@ || name == "node_modules"@ || name == "target"@
}

/// Whether the walk leaves out the entry `name` at `path`: the cache directory,
/// and what version control, tools and builds keep for themselves.
pub fn walk_skips(path: &str, name: &str, cache_dir: &str) -> (r: bool)
    ensures
        r == (path_rank(path@) == path_rank(cache_dir@) || is_noise(name@)),
{
    let a = rank(path);
    let b = rank(cache_dir);
    crate::paths::bytes_eq(&a, &b) || crate::text::str_eq(name, ".git") || crate::text::str_eq(name, ".giant") || crate::text::str_eq(name, ".direnv") || crate::text::str_eq(name, ".devenv") || crate::text::str_eq(name, "node_modules") || crate::text::str_eq(name, "target")
}

/// The first glob of the list that does not parse.
pub open spec fn first_bad(globs: Seq<Seq<char>>, i: int) -> bool {
    &&& 0 <= i < globs.len()
    &&& walk_glob_error(globs[i]) is Some
    &&& forall|k: int| 0 <= k < i ==> walk_glob_error(#[trigger] globs[k]) is None
}

/// The files that some glob matches, in order.
pub open spec fn matched(globs: Seq<Seq<char>>, files: Seq<Seq<char>>) -> Seq<Seq<char>>
    decreases files.len(),
{
    if files.len() == 0 {
        files
    } else {
        let rest = matched(globs, files.drop_last());
        if any_glob_matches(globs, files.last()) {
            rest.push(files.last())
        } else {
            rest
        }
    }
}

/// The entries of `files` whose flag is set, in order.
pub open spec fn kept(files: Seq<Seq<char>>, flags: Seq<bool>) -> Seq<Seq<char>>
    decreases files.len(),
{
    if files.len() == 0 {
        files
    } else {
        let rest = kept(files.drop_last(), flags);
        if flags[files.len() - 1] {
            rest.push(files.last())
        } else {
            rest
        }
    }
}

/// The entries of `files` whose flag is set.
pub fn keep_flagged(files: &Vec<String>, flags: &Vec<bool>) -> (r: Vec<String>)
    requires
        flags.len() == files.len(),
    ensures
        strs(r@) == kept(strs(files@), flags@),
{
    let ghost fv = strs(files@);
    let mut out: Vec<String> = Vec::new();
    let mut i: usize = 0;
    while i < files.len()
        invariant
            i <= files.len(),
            flags.len() == files.len(),
            fv == strs(files@),
            strs(out@) == kept(fv.take(i as int), flags@),
        decreases files.len() - i,
    {
        let ghost before = strs(out@);
        assert(fv[i as int] == files@[i as int]@);
        assert(fv.take(i + 1).drop_last() == fv.take(i as int));
        if flags[i] {
            out.push(files[i].clone());
            assert(strs(out@) == before.push(fv[i as int]));
        }
        i = i + 1;
    }
    assert(fv.take(i as int) == fv);
    out
}

proof fn lemma_kept_is_matched(globs: Seq<Seq<char>>, files: Seq<Seq<char>>, flags: Seq<bool>)
    requires
        files.len() <= flags.len(),
        forall|i: int| 0 <= i < files.len() ==> #[trigger] flags[i] == any_glob_matches(globs, files[i]),
    ensures
        kept(files, flags) == matched(globs, files),
    decreases files.len(),
{
    if files.len() > 0 {
        lemma_kept_is_matched(globs, files.drop_last(), flags);
        assert(flags[files.len() - 1] == any_glob_matches(globs, files[files.len() - 1]));
    }
}

/// The walked files that some recursive glob matches, in order; or why the
/// globs cannot be used.
pub fn select_walked(globs: &Vec<String>, files: &Vec<String>) -> (r: Result<Vec<String>, String>)
    ensures
        r is Ok <==> (forall|i: int| 0 <= i < globs.len() ==> walk_glob_error(#[trigger] strs(globs@)[i]) is None) && glob_set_error(strs(globs@)) is None,
        r matches Ok(v) ==> strs(v@) == matched(strs(globs@), strs(files@)),
        r matches Err(m) ==> {
            ||| exists|i: int| #[trigger] first_bad(strs(globs@), i) && m@ == bad_glob_text(strs(globs@)[i], walk_glob_error(strs(globs@)[i])->0)
            ||| (forall|i: int| 0 <= i < globs.len() ==> walk_glob_error(#[trigger] strs(globs@)[i]) is None) && m@ == "glob set build: "@ + glob_set_error(strs(globs@))->0
        },
{
    let ghost gv = strs(globs@);
    let mut b = builder_new();
    let mut i: usize = 0;
    while i < globs.len()
        invariant
            i <= globs.len(),
            gv == strs(globs@),
            builder_globs(b) == gv.take(i as int),
            forall|k: int| 0 <= k < i ==> walk_glob_error(#[trigger] gv[k]) is None,
        decreases globs.len() - i,
    {
        assert(gv[i as int] == globs@[i as int]@);
        match walk_glob_check(globs[i].as_str()) {
            Some(e) => {
                assert(first_bad(gv, i as int));
                return Err(bad_glob(globs[i].as_str(), e.as_str()));
            },
            None => {},
        }
        builder_add(&mut b, globs[i].as_str());
        assert(gv.take(i + 1) == gv.take(i as int).push(gv[i as int]));
        i = i + 1;
    }
    assert(gv.take(i as int) == gv);
    let set = match builder_build(&b) {
        Ok(set) => set,
        Err(e) => {
            return Err(cat2("glob set build: ", e.as_str()));
        },
    };
    let mut flags: Vec<bool> = Vec::new();
    let mut j: usize = 0;
    while j < files.len()
        invariant
            j <= files.len(),
            set_globs(set) == gv,
            flags.len() == j,
            forall|k: int| 0 <= k < j ==> #[trigger] flags@[k] == any_glob_matches(gv, strs(files@)[k]),
        decreases files.len() - j,
    {
        assert(strs(files@)[j as int] == files@[j as int]@);
        flags.push(set_matches(&set, files[j].as_str()));
        j = j + 1;
    }
    let out = keep_flagged(files, &flags);
    proof {
        lemma_kept_is_matched(gv, strs(files@), flags@);
    }
    Ok(out)
}

/// The input files of a target: what its literal paths and shallow globs
/// found, and the walked files that its recursive globs match, in order, each
/// once. Without recursive globs the walked files do not matter.
pub fn input_paths(found: &Vec<String>, recursive: &Vec<String>, walked: &Vec<String>) -> (r: Result<Vec<String>, String>)
    ensures
        recursive.len() == 0 ==> r is Ok,
        r is Ok <==> recursive.len() == 0 || ((forall|i: int| 0 <= i < recursive.len() ==> walk_glob_error(#[trigger] strs(recursive@)[i]) is None) && glob_set_error(strs(recursive@)) is None),
        r matches Ok(v) ==> strs(v@) == path_set(if recursive.len() == 0 { strs(found@) } else { strs(found@) + matched(strs(recursive@), strs(walked@)) }),
        r matches Err(m) ==> {
            ||| exists|i: int| #[trigger] first_bad(strs(recursive@), i) && m@ == bad_glob_text(strs(recursive@)[i], walk_glob_error(strs(recursive@)[i])->0)
            ||| (forall|i: int| 0 <= i < recursive.len() ==> walk_glob_error(#[trigger] strs(recursive@)[i]) is None) && m@ == "glob set build: "@ + glob_set_error(strs(recursive@))->0
        },
{
    let mut all = crate::text::copy_strs(found);
    if recursive.len() > 0 {
        match select_walked(recursive, walked) {
            Err(e) => {
                return Err(e);
            },
            Ok(mut more) => {
                let ghost mv = more@;
                all.append(&mut more);
                assert(strs(all@) == strs(found@) + strs(mv));
            },
        }
    }
    Ok(sort_paths(&all))
}

/// The patterns of one kind are those that say so: with `**` they are recursive,
/// with another wildcard shallow, with none literal. Their order stays.
pub proof fn law_of_kind(globs: Seq<Seq<char>>, kind: GlobKind)
    ensures
        of_kind(globs, kind) == globs.filter(|g: Seq<char>| if crate::text::occurs_in(g, "**"@) {
            kind is Recursive
        } else if g.contains('*') || g.contains('?') || g.contains('[') {
            kind is Shallow
        } else {
            kind is Literal
        }),
    decreases globs.len(),
{
    reveal(Seq::filter);
    if globs.len() > 0 {
        law_of_kind(globs.drop_last(), kind);
    }
}

/// The walked files that count are those that some recursive glob matches, in
/// order.
pub proof fn law_matched(globs: Seq<Seq<char>>, files: Seq<Seq<char>>)
    ensures
        matched(globs, files) == files.filter(|f: Seq<char>| exists|i: int| 0 <= i < globs.len() && walk_glob_match(#[trigger] globs[i], f)),
    decreases files.len(),
{
    reveal(Seq::filter);
    if files.len() > 0 {
        law_matched(globs, files.drop_last());
    }
}

/// What is kept is what is flagged: an entry whose flag is set is there, and
/// what is there had its flag set.
pub proof fn law_kept(files: Seq<Seq<char>>, flags: Seq<bool>, x: Seq<char>)
    requires
        flags.len() == files.len(),
    ensures
        kept(files, flags).contains(x) <==> exists|i: int| 0 <= i < files.len() && #[trigger] files[i] == x && flags[i],
        (forall|i: int| 0 <= i < flags.len() ==> #[trigger] flags[i]) ==> kept(files, flags) == files,
{
    lemma_kept(files, flags, x);
}

proof fn lemma_kept(files: Seq<Seq<char>>, flags: Seq<bool>, x: Seq<char>)
    requires
        flags.len() >= files.len(),
    ensures
        kept(files, flags).contains(x) <==> exists|i: int| 0 <= i < files.len() && #[trigger] files[i] == x && flags[i],
        (forall|i: int| 0 <= i < flags.len() ==> #[trigger] flags[i]) ==> kept(files, flags) == files,
    decreases files.len(),
{
    if files.len() > 0 {
        let f = files.drop_last();
        let n = files.len() - 1;
        lemma_kept(f, flags, x);
        crate::order::lemma_push_contains(kept(f, flags), files.last(), x);
        if kept(f, flags).contains(x) {
            let i = choose|i: int| 0 <= i < f.len() && #[trigger] f[i] == x && flags[i];
            assert(files[i] == x);
        }
        if exists|i: int| 0 <= i < files.len() && #[trigger] files[i] == x && flags[i] {
            let i = choose|i: int| 0 <= i < files.len() && #[trigger] files[i] == x && flags[i];
            if i < n {
                assert(f[i] == x);
            }
        }
        assert(files[n] == files.last());
        if forall|i: int| 0 <= i < flags.len() ==> #[trigger] flags[i] {
            assert(flags[n]);
            assert(f.push(files.last()) =~= files);
        }
    }
}

/// The input files of a target are all that its paths and globs found and all
/// walked files that one of its recursive globs matches, as paths, and no
/// others.
pub proof fn law_input_paths(found: Seq<Seq<char>>, recursive: Seq<Seq<char>>, walked: Seq<Seq<char>>)
    ensures
        forall|i: int| 0 <= i < found.len() ==> holds_path(path_set(found + matched(recursive, walked)), #[trigger] found[i]),
        forall|i: int, k: int| 0 <= i < walked.len() && 0 <= k < recursive.len() && #[trigger] walk_glob_match(recursive[k], walked[i]) ==> holds_path(path_set(found + matched(recursive, walked)), walked[i]),
        forall|x: Seq<char>| #[trigger] path_set(found + matched(recursive, walked)).contains(x) ==> found.contains(x) || (walked.contains(x) && exists|k: int| 0 <= k < recursive.len() && walk_glob_match(#[trigger] recursive[k], x)),
        recursive.len() == 0 ==> path_set(found + matched(recursive, walked)) == path_set(found),
{
    let m = matched(recursive, walked);
    let all = found + m;
    crate::paths::law_path_set(all);
    assert forall|i: int| 0 <= i < found.len() implies holds_path(path_set(all), #[trigger] found[i]) by {
        assert(all[i] == found[i]);
    }
    assert forall|i: int, k: int| 0 <= i < walked.len() && 0 <= k < recursive.len() && #[trigger] walk_glob_match(recursive[k], walked[i]) implies holds_path(path_set(all), walked[i]) by {
        lemma_matched_members(recursive, walked, walked[i]);
        assert(any_glob_matches(recursive, walked[i]));
        assert(walked.contains(walked[i]));
        let j = choose|j: int| 0 <= j < m.len() && m[j] == walked[i];
        assert(all[found.len() + j] == walked[i]);
    }
    assert forall|x: Seq<char>| #[trigger] path_set(all).contains(x) implies found.contains(x) || (walked.contains(x) && exists|k: int| 0 <= k < recursive.len() && walk_glob_match(#[trigger] recursive[k], x)) by {
        let p = path_set(all);
        let j = choose|j: int| 0 <= j < p.len() && p[j] == x;
        assert(all.contains(p[j]));
        let i = choose|i: int| 0 <= i < all.len() && all[i] == x;
        if i < found.len() {
            assert(found[i] == x);
        } else {
            assert(m[i - found.len()] == x);
            lemma_matched_members(recursive, walked, x);
        }
    }
    if recursive.len() == 0 {
        if m.len() > 0 {
            lemma_matched_members(recursive, walked, m[0]);
            assert(m.contains(m[0]));
        }
        assert(all =~= found);
    }
}

proof fn lemma_matched_members(globs: Seq<Seq<char>>, files: Seq<Seq<char>>, x: Seq<char>)
    ensures
        matched(globs, files).contains(x) <==> files.contains(x) && any_glob_matches(globs, x),
    decreases files.len(),
{
    if files.len() > 0 {
        let f = files.drop_last();
        lemma_matched_members(globs, f, x);
        assert(files =~= f.push(files.last()));
        crate::order::lemma_push_contains(f, files.last(), x);
        crate::order::lemma_push_contains(matched(globs, f), files.last(), x);
    }
}

/// The walk stays out of the directories of version control and of tools, and
/// enters every other.
pub proof fn law_noise(name: Seq<char>)
    ensures
        is_noise(name) <==> seq![".git"@, ".giant"@, ".direnv"@, ".devenv"@, "node_modules"@, "target"@].contains(name),
{
    let list = seq![".git"@, ".giant"@, ".direnv"@, ".devenv"@, "node_modules"@, "target"@];
    assert(list[0] == ".git"@ && list[1] == ".giant"@ && list[2] == ".direnv"@);
    assert(list[3] == ".devenv"@ && list[4] == "node_modules"@ && list[5] == "target"@);
}

} // verus!

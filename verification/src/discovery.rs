//! Discovery: targets that other targets produce.
//!
//! A discovery target writes a fragment with further targets, and says which
//! files and directories it read. Its output is kept beside what was read, and
//! used again as long as nothing of that changed.

use crate::digest::{hex_of, sha256};
use crate::fsmonitor::ChangeSet;
use crate::graph::{spec_ids, BuildGraph, GraphError};
use crate::key::{
    all_hashes, all_variables, env_fields, env_section, env_views, feed, feed_all, feed_env, feed_hash, field, fields, lemma_between, lemma_env_section_shape,
    lemma_env_section_to_mark, lemma_field_between,
    lemma_regroup, lemma_regroup_end, path_texts, seconds, BuiltIn,
};
use crate::model::{ids_of, rel_paths_of, CacheKey, ContentHash, Hasher, TargetId, TargetSpec};
use crate::order::{arranged, is_order, names_of, positions, sort_order, sort_strings, sorted_order, sorted_strs};
use crate::paths::{
    absolute, bytes_eq, is_absolute, is_below, joined, path_is_below, path_join, path_rank, path_ranks, path_relative, rank, ranks,
    relative_to, WsRelPath,
};
use crate::pattern::{glob_error, glob_error_text, glob_match, matches_loosely, GlobPattern};
use crate::readback::{
    all_plain, is_environment, is_listing, is_plain, lemma_field_head, lemma_fields_to_mark, lemma_same_head,
};
use crate::text::{
    bytes_before, bytes_lt, cat2, cat3, cat4, contains, copy_strs, decimal, has_prefix, lines, lines_of, number, occurs_in,
    owned, starts_with, strs, text_from_utf8, utf8,
};
use vstd::prelude::*;
use vstd::string::*;
use vstd::utf8::{decode_utf8, valid_utf8};

verus! {

// The command line.

/// What `shell_words::split` makes of a command line: its words, or nothing if
/// a quote is not closed.
pub uninterp spec fn shell_split(command: Seq<char>) -> Option<Seq<Seq<char>>>;

/// The words of a split, by their views.
pub open spec fn words_view(v: Option<Vec<String>>) -> Option<Seq<Seq<char>>> {
    match v {
        Some(w) => Some(strs(w@)),
        None => None,
    }
}

/// `shell_words::split`. Trusted: its result is a function of the text.
#[verifier::external_body]
fn split_words(command: &str) -> (r: Option<Vec<String>>)
    ensures
        words_view(r) == shell_split(command@),
{
    shell_words::split(command).ok()
}

/// The paths to try for one word of a command, in order: an absolute path, a
/// path with a slash and any word but the first stand alone; a bare first word
/// is looked for in the working directory and then in the search path.
pub open spec fn candidates(tok: Seq<char>, cwd: Seq<char>, first: bool, search: Seq<Seq<char>>) -> Seq<Seq<char>> {
    if is_absolute(tok) {
        seq![tok]
    } else if occurs_in(tok, "/"@) || !first {
        seq![joined(cwd, tok)]
    } else {
        seq![joined(cwd, tok)] + search.map_values(|d: Seq<char>| joined(d, tok))
    }
}

/// The paths to try for one word of a command.
pub fn candidate_paths(tok: &str, cwd_abs: &str, is_argv0: bool, search: &Vec<String>) -> (r: Vec<String>)
    ensures
        strs(r@) == candidates(tok@, cwd_abs@, is_argv0, strs(search@)),
{
    let mut out: Vec<String> = Vec::new();
    if absolute(tok) {
        out.push(owned(tok));
        assert(strs(out@) == seq![tok@]);
        return out;
    }
    out.push(path_join(cwd_abs, tok));
    let ghost base = seq![joined(cwd_abs@, tok@)];
    assert(strs(out@) == base);
    if contains(tok, "/") || !is_argv0 {
        return out;
    }
    let ghost sv = strs(search@).map_values(|d: Seq<char>| joined(d, tok@));
    let mut i: usize = 0;
    assert(base + sv.take(0) == base);
    while i < search.len()
        invariant
            i <= search.len(),
            sv == strs(search@).map_values(|d: Seq<char>| joined(d, tok@)),
            strs(out@) == base + sv.take(i as int),
        decreases search.len() - i,
    {
        let ghost before = strs(out@);
        assert(sv[i as int] == joined(search@[i as int]@, tok@));
        out.push(path_join(search[i].as_str(), tok));
        assert(strs(out@) == before.push(sv[i as int]));
        assert(base + sv.take(i + 1) == before.push(sv[i as int]));
        i = i + 1;
    }
    assert(sv.take(i as int) == sv);
    out
}

/// The lists of paths to try, by their views.
pub open spec fn list_views(v: Seq<Vec<String>>) -> Seq<Seq<Seq<char>>> {
    v.map_values(|l: Vec<String>| strs(l@))
}

/// For each word that is not an option, the paths to try.
pub open spec fn word_candidates(words: Seq<Seq<char>>, cwd: Seq<char>, search: Seq<Seq<char>>) -> Seq<Seq<Seq<char>>>
    decreases words.len(),
{
    if words.len() == 0 {
        Seq::<Seq<Seq<char>>>::empty()
    } else {
        let rest = word_candidates(words.drop_last(), cwd, search);
        if has_prefix(words.last(), "-"@) {
            rest
        } else {
            rest.push(candidates(words.last(), cwd, words.len() == 1, search))
        }
    }
}

/// For each word that is not an option, the paths to try.
pub fn argv_candidates(words: &Vec<String>, cwd_abs: &str, search: &Vec<String>) -> (r: Vec<Vec<String>>)
    ensures
        list_views(r@) == word_candidates(strs(words@), cwd_abs@, strs(search@)),
{
    let ghost wv = strs(words@);
    let mut out: Vec<Vec<String>> = Vec::new();
    let mut i: usize = 0;
    assert(list_views(out@) == word_candidates(wv.take(0), cwd_abs@, strs(search@)));
    while i < words.len()
        invariant
            i <= words.len(),
            wv == strs(words@),
            list_views(out@) == word_candidates(wv.take(i as int), cwd_abs@, strs(search@)),
        decreases words.len() - i,
    {
        let ghost before = list_views(out@);
        assert(wv.take(i + 1).drop_last() == wv.take(i as int));
        assert(wv.take(i + 1).last() == words@[i as int]@);
        if !starts_with(words[i].as_str(), "-") {
            let c = candidate_paths(words[i].as_str(), cwd_abs, i == 0, search);
            let ghost cv = strs(c@);
            out.push(c);
            assert(list_views(out@) == before.push(cv));
        }
        i = i + 1;
    }
    assert(wv.take(i as int) == wv);
    out
}

/// The paths to try for the words of a command that runs in `cwd`; none if the
/// command line cannot be split.
pub fn command_candidates(command: &str, workspace_root: &str, cwd: &str, search: &Vec<String>) -> (r: Vec<Vec<String>>)
    ensures
        list_views(r@) == (match shell_split(command@) {
            Some(w) => word_candidates(w, joined(workspace_root@, cwd@), strs(search@)),
            None => Seq::<Seq<Seq<char>>>::empty(),
        }),
{
    let cwd_abs = path_join(workspace_root, cwd);
    match split_words(command) {
        Some(words) => argv_candidates(&words, cwd_abs.as_str(), search),
        None => {
            let out: Vec<Vec<String>> = Vec::new();
            assert(list_views(out@) == Seq::<Seq<Seq<char>>>::empty());
            out
        },
    }
}

/// What was found at a path.
#[derive(Debug)]
pub struct Found {
    /// The path with all links resolved.
    pub canonical: String,
    /// The hash of the contents, if it is a file that can be read.
    pub hash: Option<ContentHash>,
}

/// What was found counts: a readable file in the workspace.
pub open spec fn counts(f: Option<Found>, workspace: Seq<char>) -> bool {
    f is Some && is_below(f->0.canonical@, workspace) && f->0.hash is Some
}

/// What a file contributes: its path in the workspace and its hash.
pub open spec fn contribution(f: Found, workspace: Seq<char>) -> (Seq<char>, Seq<u8>) {
    (relative_to(f.canonical@, workspace), f.hash->0@)
}

/// The first find that counts.
pub open spec fn first_hit(found: Seq<Option<Found>>, workspace: Seq<char>) -> Option<(Seq<char>, Seq<u8>)>
    decreases found.len(),
{
    if found.len() == 0 {
        None
    } else if counts(found[0], workspace) {
        Some(contribution(found[0]->0, workspace))
    } else {
        first_hit(found.skip(1), workspace)
    }
}

/// The first find of each word.
pub open spec fn hits(words: Seq<Vec<Option<Found>>>, workspace: Seq<char>) -> Seq<(Seq<char>, Seq<u8>)>
    decreases words.len(),
{
    if words.len() == 0 {
        Seq::<(Seq<char>, Seq<u8>)>::empty()
    } else {
        let rest = hits(words.drop_last(), workspace);
        match first_hit(words.last()@, workspace) {
            Some(h) => rest.push(h),
            None => rest,
        }
    }
}

/// All finds that count.
pub open spec fn all_hits(found: Seq<Option<Found>>, workspace: Seq<char>) -> Seq<(Seq<char>, Seq<u8>)>
    decreases found.len(),
{
    if found.len() == 0 {
        Seq::<(Seq<char>, Seq<u8>)>::empty()
    } else {
        let rest = all_hits(found.drop_last(), workspace);
        if counts(found.last(), workspace) {
            rest.push(contribution(found.last()->0, workspace))
        } else {
            rest
        }
    }
}

/// Path and hash of each input, by their views.
pub open spec fn content_views(v: Seq<(String, ContentHash)>) -> Seq<(Seq<char>, Seq<u8>)> {
    v.map_values(|p: (String, ContentHash)| (p.0@, p.1@))
}

fn take_hit(f: &Option<Found>, workspace: &str) -> (r: Option<(String, ContentHash)>)
    ensures
        r is Some <==> counts(*f, workspace@),
        r matches Some(p) ==> (p.0@, p.1@) == contribution(f->0, workspace@),
{
    match f {
        None => None,
        Some(found) => {
            if !path_is_below(found.canonical.as_str(), workspace) {
                return None;
            }
            match found.hash {
                Some(h) => Some((path_relative(found.canonical.as_str(), workspace), h)),
                None => None,
            }
        },
    }
}

fn take_first(found: &Vec<Option<Found>>, workspace: &str) -> (r: Option<(String, ContentHash)>)
    ensures
        match r {
            Some(p) => first_hit(found@, workspace@) == Some((p.0@, p.1@)),
            None => first_hit(found@, workspace@) is None,
        },
{
    let ghost fv = found@;
    let mut i: usize = 0;
    assert(fv.skip(0) == fv);
    while i < found.len()
        invariant
            i <= found.len(),
            fv == found@,
            first_hit(fv, workspace@) == first_hit(fv.skip(i as int), workspace@),
        decreases found.len() - i,
    {
        assert(fv.skip(i as int)[0] == fv[i as int]);
        assert(fv.skip(i as int).skip(1) == fv.skip(i + 1));
        match take_hit(&found[i], workspace) {
            Some(p) => {
                return Some(p);
            },
            None => {},
        }
        i = i + 1;
    }
    None
}

/// What a command's words contribute: for each word the first path tried that
/// is a file in the workspace.
pub fn executable_inputs(words: &Vec<Vec<Option<Found>>>, workspace: &str) -> (r: Vec<(String, ContentHash)>)
    ensures
        content_views(r@) == hits(words@, workspace@),
{
    let ghost wv = words@;
    let mut out: Vec<(String, ContentHash)> = Vec::new();
    let mut i: usize = 0;
    assert(content_views(out@) == hits(wv.take(0), workspace@));
    while i < words.len()
        invariant
            i <= words.len(),
            wv == words@,
            content_views(out@) == hits(wv.take(i as int), workspace@),
        decreases words.len() - i,
    {
        let ghost before = content_views(out@);
        assert(wv.take(i + 1).drop_last() == wv.take(i as int));
        assert(wv.take(i + 1).last() == wv[i as int]);
        match take_first(&words[i], workspace) {
            Some(p) => {
                let ghost pv = (p.0@, p.1@);
                out.push(p);
                assert(content_views(out@) == before.push(pv));
            },
            None => {},
        }
        i = i + 1;
    }
    assert(wv.take(i as int) == wv);
    out
}

/// What the files that declared inputs match contribute.
pub fn declared_inputs(found: &Vec<Option<Found>>, workspace: &str) -> (r: Vec<(String, ContentHash)>)
    ensures
        content_views(r@) == all_hits(found@, workspace@),
{
    let ghost fv = found@;
    let mut out: Vec<(String, ContentHash)> = Vec::new();
    let mut i: usize = 0;
    assert(content_views(out@) == all_hits(fv.take(0), workspace@));
    while i < found.len()
        invariant
            i <= found.len(),
            fv == found@,
            content_views(out@) == all_hits(fv.take(i as int), workspace@),
        decreases found.len() - i,
    {
        let ghost before = content_views(out@);
        assert(fv.take(i + 1).drop_last() == fv.take(i as int));
        assert(fv.take(i + 1).last() == fv[i as int]);
        match take_hit(&found[i], workspace) {
            Some(p) => {
                let ghost pv = (p.0@, p.1@);
                out.push(p);
                assert(content_views(out@) == before.push(pv));
            },
            None => {},
        }
        i = i + 1;
    }
    assert(fv.take(i as int) == fv);
    out
}

// The key.

/// The list without entries whose path is that of the one before.
pub open spec fn one_per_path(v: Seq<(Seq<char>, Seq<u8>)>) -> Seq<(Seq<char>, Seq<u8>)>
    decreases v.len(),
{
    if v.len() == 0 {
        v
    } else {
        let front = one_per_path(v.drop_last());
        if front.len() > 0 && path_rank(front.last().0) == path_rank(v.last().0) {
            front
        } else {
            front.push(v.last())
        }
    }
}

/// The inputs in path order, the first of each path.
pub open spec fn content_set(v: Seq<(Seq<char>, Seq<u8>)>) -> Seq<(Seq<char>, Seq<u8>)> {
    one_per_path(arranged(v, path_ranks(names_of(v))))
}

/// `path=hash` and a zero byte for each input.
pub open spec fn content_fields(v: Seq<(Seq<char>, Seq<u8>)>) -> Seq<u8>
    decreases v.len(),
{
    if v.len() == 0 {
        Seq::<u8>::empty()
    } else {
        content_fields(v.drop_last()) + utf8(v.last().0) + utf8("="@) + v.last().1.push(0)
    }
}

/// Everything that the key of a discovery target is the hash of.
pub open spec fn discovery_bytes(
    command: Seq<char>,
    cwd: Seq<char>,
    env: Seq<(Seq<char>, Seq<char>)>,
    triple: Seq<char>,
    version: Seq<char>,
    scope: Seq<Seq<char>>,
    content: Seq<(Seq<char>, Seq<u8>)>,
) -> Seq<u8> {
    field("disc-v2"@) + (field("cmd"@) + field(command)) + (field("cwd"@) + field(cwd)) + env_section(env, triple, version)
        + (field("scope"@) + fields(sorted_strs(scope))) + (field("content"@) + content_fields(content_set(content)))
}

fn content_names(v: &Vec<(String, ContentHash)>) -> (r: Vec<String>)
    ensures
        strs(r@) == names_of(content_views(v@)),
{
    let mut out: Vec<String> = Vec::new();
    let mut i: usize = 0;
    while i < v.len()
        invariant
            i <= v.len(),
            out.len() == i,
            forall|k: int| 0 <= k < i ==> (#[trigger] out@[k])@ == v@[k].0@,
        decreases v.len() - i,
    {
        out.push(v[i].0.clone());
        i = i + 1;
    }
    assert(strs(out@) == names_of(content_views(v@)));
    out
}

/// The inputs in path order, the first of each path.
pub fn sort_content(v: &Vec<(String, ContentHash)>) -> (r: Vec<(String, ContentHash)>)
    ensures
        content_views(r@) == content_set(content_views(v@)),
{
    let names = content_names(v);
    let keys = ranks(&names);
    let order = sorted_order(&keys);
    let ghost vv = content_views(v@);
    let ghost kv = path_ranks(names_of(vv));
    let ghost sv = arranged(vv, kv);
    let ghost pv = positions(order@);
    let mut out: Vec<(String, ContentHash)> = Vec::new();
    let mut last: Vec<u8> = Vec::new();
    let mut i: usize = 0;
    while i < order.len()
        invariant
            i <= order.len(),
            pv == positions(order@),
            pv == sort_order(kv),
            is_order(kv, pv),
            vv == content_views(v@),
            kv == path_ranks(names_of(vv)),
            crate::order::key_views(keys@) == kv,
            sv == arranged(vv, kv),
            content_views(out@) == one_per_path(sv.take(i as int)),
            out.len() > 0 ==> last@ == path_rank(content_views(out@).last().0),
        decreases order.len() - i,
    {
        assert(pv[i as int] == order@[i as int]);
        assert(0 <= pv[i as int] < kv.len());
        assert(sv[i as int] == vv[pv[i as int]]);
        assert(sv.take(i + 1).drop_last() == sv.take(i as int));
        let j: usize = order[i];
        assert(vv[j as int] == (v@[j as int].0@, v@[j as int].1@));
        assert(kv[j as int] == path_rank(v@[j as int].0@));
        assert(keys@[j as int]@ == kv[j as int]);
        let ghost before = content_views(out@);
        if out.len() == 0 || !bytes_eq(&last, &keys[j]) {
            last = keys[j].clone();
            out.push((v[j].0.clone(), v[j].1));
            assert(last@ == keys@[j as int]@);
            assert(content_views(out@) == before.push(vv[j as int]));
        }
        i = i + 1;
    }
    assert(sv.take(i as int) == sv);
    out
}

fn feed_content(h: &mut Hasher, v: &Vec<(String, ContentHash)>)
    ensures
        final(h)@ == old(h)@ + content_fields(content_views(v@)),
{
    let ghost cv = content_views(v@);
    let mut i: usize = 0;
    assert(h@ == old(h)@ + content_fields(cv.take(0)));
    while i < v.len()
        invariant
            i <= v.len(),
            cv == content_views(v@),
            h@ == old(h)@ + content_fields(cv.take(i as int)),
        decreases v.len() - i,
    {
        assert(cv[i as int] == (v@[i as int].0@, v@[i as int].1@));
        assert(cv.take(i + 1).drop_last() == cv.take(i as int));
        h.update_str(v[i].0.as_str());
        h.update_str("=");
        feed_hash(h, &v[i].1);
        assert(h@ == old(h)@ + content_fields(cv.take(i + 1)));
        i = i + 1;
    }
    assert(cv.take(i as int) == cv);
}

/// The key of a discovery target: its command, environment, working directory
/// and scope, and the contents of the files it runs or declares.
pub fn discovery_cache_key(spec: &TargetSpec, built_in: &BuiltIn, content: &Vec<(String, ContentHash)>) -> (r: CacheKey)
    ensures
        r@ == sha256(discovery_bytes(
            spec.command@,
            spec.cwd@,
            env_views(spec.env@),
            built_in.target_triple@,
            built_in.version@,
            rel_paths_of(spec.scope@),
            content_views(content@),
        )),
        r@ == sha256(discovery_target_bytes(*spec, *built_in, content@)),
{
    let mut h = ContentHash::hasher();
    feed(&mut h, "disc-v2");
    feed(&mut h, "cmd");
    feed(&mut h, spec.command.as_str());
    feed(&mut h, "cwd");
    feed(&mut h, spec.cwd.as_str());
    let ghost part1 = field("disc-v2"@) + (field("cmd"@) + field(spec.command@)) + (field("cwd"@) + field(spec.cwd@));
    assert(h@ == part1);
    feed_env(&mut h, &spec.env, built_in);
    let ghost part2 = part1 + env_section(env_views(spec.env@), built_in.target_triple@, built_in.version@);
    feed(&mut h, "scope");
    let texts = path_texts(&spec.scope);
    let sorted = sort_strings(&texts);
    feed_all(&mut h, &sorted);
    let ghost part3 = part2 + (field("scope"@) + fields(sorted_strs(rel_paths_of(spec.scope@))));
    assert(h@ == part3);
    feed(&mut h, "content");
    let set = sort_content(content);
    feed_content(&mut h, &set);
    assert(h@ == part3 + (field("content"@) + content_fields(content_set(content_views(content@)))));
    CacheKey::new(h.finalize())
}

/// The order of the variables of a discovery target does not matter to its key.
pub proof fn law_discovery_env_order(
    command: Seq<char>,
    cwd: Seq<char>,
    a: Seq<(Seq<char>, Seq<char>)>,
    b: Seq<(Seq<char>, Seq<char>)>,
    triple: Seq<char>,
    version: Seq<char>,
    scope: Seq<Seq<char>>,
    content: Seq<(Seq<char>, Seq<u8>)>,
)
    requires
        names_of(a).no_duplicates(),
        names_of(b).no_duplicates(),
        forall|x: (Seq<char>, Seq<char>)| a.contains(x) <==> b.contains(x),
    ensures
        discovery_bytes(command, cwd, a, triple, version, scope, content) == discovery_bytes(command, cwd, b, triple, version, scope, content),
{
    crate::order::lemma_sorted_pairs_unique(a, b);
}

/// The order of a discovery target's scope does not matter to its key.
pub proof fn law_discovery_scope_order(
    command: Seq<char>,
    cwd: Seq<char>,
    env: Seq<(Seq<char>, Seq<char>)>,
    triple: Seq<char>,
    version: Seq<char>,
    a: Seq<Seq<char>>,
    b: Seq<Seq<char>>,
    content: Seq<(Seq<char>, Seq<u8>)>,
)
    requires
        a.to_multiset() == b.to_multiset(),
    ensures
        discovery_bytes(command, cwd, env, triple, version, a, content) == discovery_bytes(command, cwd, env, triple, version, b, content),
{
    crate::order::lemma_sorted_strs_unique(a, b);
}

/// The entries of one path are the same: a path names one file with one
/// content, however often it occurs.
pub open spec fn one_content(v: Seq<(Seq<char>, Seq<u8>)>) -> bool {
    forall|i: int, j: int| 0 <= i < v.len() && 0 <= j < v.len() && path_rank((#[trigger] v[i]).0) == path_rank((#[trigger] v[j]).0) ==> v[i] == v[j]
}

/// Every path comes after those before it.
spec fn rising(v: Seq<(Seq<char>, Seq<u8>)>) -> bool {
    forall|i: int, j: int| 0 <= i < j < v.len() ==> bytes_lt(path_rank((#[trigger] v[i]).0), path_rank((#[trigger] v[j]).0))
}

/// Whether `v` has an entry for the path.
spec fn has_path(v: Seq<(Seq<char>, Seq<u8>)>, rank: Seq<u8>) -> bool {
    exists|k: int| 0 <= k < v.len() && path_rank((#[trigger] v[k]).0) == rank
}

proof fn lemma_one_per_path(v: Seq<(Seq<char>, Seq<u8>)>)
    requires
        forall|i: int, j: int| 0 <= i < j < v.len() ==> !bytes_lt(path_rank((#[trigger] v[j]).0), path_rank((#[trigger] v[i]).0)),
    ensures
        rising(one_per_path(v)),
        forall|k: int| 0 <= k < one_per_path(v).len() ==> v.contains(#[trigger] one_per_path(v)[k]),
        forall|i: int| 0 <= i < v.len() ==> has_path(one_per_path(v), path_rank((#[trigger] v[i]).0)),
        v.len() > 0 ==> one_per_path(v).len() > 0 && path_rank(one_per_path(v).last().0) == path_rank(v.last().0),
    decreases v.len(),
{
    if v.len() > 0 {
        let w = v.drop_last();
        let n = v.len() - 1;
        assert forall|i: int, j: int| 0 <= i < j < w.len() implies !bytes_lt(path_rank((#[trigger] w[j]).0), path_rank((#[trigger] w[i]).0)) by {
            assert(w[i] == v[i] && w[j] == v[j]);
        }
        lemma_one_per_path(w);
        let front = one_per_path(w);
        let out = one_per_path(v);
        assert forall|k: int| 0 <= k < out.len() implies v.contains(#[trigger] out[k]) by {
            if k < front.len() {
                assert(out[k] == front[k]);
                assert(w.contains(front[k]));
                let m = choose|m: int| 0 <= m < w.len() && w[m] == front[k];
                assert(v[m] == out[k]);
            } else {
                assert(v[n] == out[k]);
            }
        }
        assert forall|i: int| 0 <= i < v.len() implies has_path(out, path_rank((#[trigger] v[i]).0)) by {
            if i < n {
                assert(w[i] == v[i]);
                assert(has_path(front, path_rank(w[i].0)));
                let k = choose|k: int| 0 <= k < front.len() && path_rank((#[trigger] front[k]).0) == path_rank(w[i].0);
                assert(out[k] == front[k]);
            } else {
                assert(path_rank(out[out.len() - 1].0) == path_rank(v[n].0));
            }
        }
        if out.len() > front.len() {
            assert forall|i: int, j: int| 0 <= i < j < out.len() implies bytes_lt(path_rank((#[trigger] out[i]).0), path_rank((#[trigger] out[j]).0)) by {
                if j < front.len() {
                    assert(out[i] == front[i] && out[j] == front[j]);
                } else {
                    let m = front.len() - 1;
                    let a = path_rank(w.last().0);
                    let b = path_rank(v[n].0);
                    assert(path_rank(front[m].0) == a);
                    assert(w.last() == v[n - 1]);
                    assert(!bytes_lt(b, a));
                    crate::text::lemma_bytes_lt_total(a, b);
                    assert(bytes_lt(a, b));
                    if i < m {
                        assert(bytes_lt(path_rank(front[i].0), path_rank(front[m].0)));
                        crate::text::lemma_bytes_lt_transitive(path_rank(front[i].0), a, b);
                    }
                }
            }
        }
    }
}

/// Where a path names one content, the set has the entries of the list, each
/// once, in path order.
proof fn lemma_content_set(v: Seq<(Seq<char>, Seq<u8>)>)
    requires
        one_content(v),
    ensures
        rising(content_set(v)),
        forall|x: (Seq<char>, Seq<u8>)| #![trigger content_set(v).contains(x)] #![trigger v.contains(x)] content_set(v).contains(x) <==> v.contains(x),
{
    let keys = path_ranks(names_of(v));
    let t = arranged(v, keys);
    crate::order::lemma_order_exists(keys);
    let p = crate::order::sort_order(keys);
    assert forall|i: int, j: int| 0 <= i < j < t.len() implies !bytes_lt(path_rank((#[trigger] t[j]).0), path_rank((#[trigger] t[i]).0)) by {
        assert(crate::order::comes_first(keys, p[i], p[j]));
        assert(keys[p[i]] == path_rank(t[i].0));
        assert(keys[p[j]] == path_rank(t[j].0));
        crate::text::lemma_bytes_lt_irreflexive(keys[p[i]]);
        if bytes_lt(keys[p[j]], keys[p[i]]) && bytes_lt(keys[p[i]], keys[p[j]]) {
            crate::text::lemma_bytes_lt_transitive(keys[p[i]], keys[p[j]], keys[p[i]]);
        }
    }
    lemma_one_per_path(t);
    let out = content_set(v);
    assert forall|x: (Seq<char>, Seq<u8>)| out.contains(x) <==> v.contains(x) by {
        crate::order::lemma_arranged_members(v, keys, x);
        if out.contains(x) {
            let k = choose|k: int| 0 <= k < out.len() && out[k] == x;
            assert(t.contains(out[k]));
        }
        if v.contains(x) {
            let i = choose|i: int| 0 <= i < t.len() && t[i] == x;
            assert(has_path(out, path_rank(t[i].0)));
            let k = choose|k: int| 0 <= k < out.len() && path_rank((#[trigger] out[k]).0) == path_rank(t[i].0);
            assert(t.contains(out[k]));
            crate::order::lemma_arranged_members(v, keys, out[k]);
            let m = choose|m: int| 0 <= m < v.len() && v[m] == out[k];
            let n = choose|n: int| 0 <= n < v.len() && v[n] == x;
            assert(v[m] == v[n]);
        }
    }
}

proof fn lemma_rising_unique(a: Seq<(Seq<char>, Seq<u8>)>, b: Seq<(Seq<char>, Seq<u8>)>)
    requires
        rising(a),
        rising(b),
        forall|x: (Seq<char>, Seq<u8>)| a.contains(x) <==> b.contains(x),
    ensures
        a == b,
    decreases a.len(),
{
    if a.len() == 0 {
        if b.len() > 0 {
            assert(b.contains(b[0]));
        }
        assert(a =~= b);
    } else {
        assert(a.contains(a.last()));
        let i = choose|i: int| 0 <= i < b.len() && b[i] == a.last();
        assert(b.contains(b.last()));
        let j = choose|j: int| 0 <= j < a.len() && a[j] == b.last();
        if i < b.len() - 1 && j < a.len() - 1 {
            let ra = path_rank(a.last().0);
            let rb = path_rank(b.last().0);
            assert(bytes_lt(path_rank(b[i].0), path_rank(b[b.len() - 1].0)));
            assert(bytes_lt(path_rank(a[j].0), path_rank(a[a.len() - 1].0)));
            crate::text::lemma_bytes_lt_transitive(ra, rb, ra);
            crate::text::lemma_bytes_lt_irreflexive(ra);
        }
        assert(a.last() == b.last());
        let x = a.drop_last();
        let y = b.drop_last();
        assert forall|e: (Seq<char>, Seq<u8>)| x.contains(e) <==> y.contains(e) by {
            lemma_front_members(a, e);
            lemma_front_members(b, e);
        }
        lemma_rising_unique(x, y);
        assert(a =~= x.push(a.last()));
        assert(b =~= y.push(b.last()));
    }
}

proof fn lemma_front_members(a: Seq<(Seq<char>, Seq<u8>)>, e: (Seq<char>, Seq<u8>))
    requires
        rising(a),
        a.len() > 0,
    ensures
        rising(a.drop_last()),
        a.drop_last().contains(e) <==> a.contains(e) && e != a.last(),
{
    let x = a.drop_last();
    if x.contains(e) {
        let k = choose|k: int| 0 <= k < x.len() && x[k] == e;
        assert(a[k] == e);
        assert(bytes_lt(path_rank(a[k].0), path_rank(a[a.len() - 1].0)));
        crate::text::lemma_bytes_lt_irreflexive(path_rank(e.0));
    }
    if a.contains(e) && e != a.last() {
        let k = choose|k: int| 0 <= k < a.len() && a[k] == e;
        assert(x[k] == e);
    }
}

/// The order in which the files of a discovery target are named, and how often
/// each is, does not matter to its key.
pub proof fn law_discovery_content_order(
    command: Seq<char>,
    cwd: Seq<char>,
    env: Seq<(Seq<char>, Seq<char>)>,
    triple: Seq<char>,
    version: Seq<char>,
    scope: Seq<Seq<char>>,
    a: Seq<(Seq<char>, Seq<u8>)>,
    b: Seq<(Seq<char>, Seq<u8>)>,
)
    requires
        one_content(a),
        forall|x: (Seq<char>, Seq<u8>)| a.contains(x) <==> b.contains(x),
    ensures
        discovery_bytes(command, cwd, env, triple, version, scope, a) == discovery_bytes(command, cwd, env, triple, version, scope, b),
{
    assert forall|i: int, j: int| 0 <= i < b.len() && 0 <= j < b.len() && path_rank((#[trigger] b[i]).0) == path_rank((#[trigger] b[j]).0) implies b[i] == b[j] by {
        assert(b.contains(b[i]) && b.contains(b[j]));
        assert(a.contains(b[i]) && a.contains(b[j]));
        let m = choose|m: int| 0 <= m < a.len() && a[m] == b[i];
        let n = choose|n: int| 0 <= n < a.len() && a[n] == b[j];
        assert(a[m] == a[n]);
    }
    lemma_content_set(a);
    lemma_content_set(b);
    assert forall|x: (Seq<char>, Seq<u8>)| content_set(a).contains(x) <==> content_set(b).contains(x) by {
        assert(a.contains(x) <==> b.contains(x));
    }
    lemma_rising_unique(content_set(a), content_set(b));
}

proof fn lemma_one_per_path_names(a: Seq<(Seq<char>, Seq<u8>)>, b: Seq<(Seq<char>, Seq<u8>)>)
    requires
        names_of(a) == names_of(b),
    ensures
        names_of(one_per_path(a)) == names_of(one_per_path(b)),
    decreases a.len(),
{
    assert(names_of(a).len() == a.len() && names_of(b).len() == b.len());
    if a.len() > 0 {
        let n = a.len() - 1;
        assert(names_of(a)[n] == a[n].0 && names_of(b)[n] == b[n].0);
        assert(names_of(a.drop_last()) =~= names_of(a).drop_last());
        assert(names_of(b.drop_last()) =~= names_of(b).drop_last());
        lemma_one_per_path_names(a.drop_last(), b.drop_last());
        let x = one_per_path(a.drop_last());
        let y = one_per_path(b.drop_last());
        assert(names_of(x).len() == x.len() && names_of(y).len() == y.len());
        if x.len() > 0 {
            let m = x.len() - 1;
            assert(names_of(x)[m] == x[m].0 && names_of(y)[m] == y[m].0);
        }
        assert(names_of(x.push(a.last())) =~= names_of(x).push(a.last().0));
        assert(names_of(y.push(b.last())) =~= names_of(y).push(b.last().0));
    } else {
        assert(a =~= b);
    }
}

proof fn lemma_content_fields_injective(a: Seq<(Seq<char>, Seq<u8>)>, b: Seq<(Seq<char>, Seq<u8>)>)
    requires
        names_of(a) == names_of(b),
        all_hashes(seconds(a)),
        all_hashes(seconds(b)),
        content_fields(a) == content_fields(b),
    ensures
        a == b,
    decreases a.len(),
{
    assert(names_of(a).len() == a.len() && names_of(b).len() == b.len());
    if a.len() == 0 {
        assert(a =~= b);
    } else {
        let x = a.drop_last();
        let y = b.drop_last();
        let n = a.len() - 1;
        assert(names_of(a)[n] == a[n].0 && names_of(b)[n] == b[n].0);
        assert(seconds(a)[n] == a[n].1 && seconds(b)[n] == b[n].1);
        let fa = content_fields(a);
        let fb = content_fields(b);
        let mid = utf8(a.last().0) + utf8("="@);
        assert(fa =~= content_fields(x) + mid + a.last().1.push(0));
        assert(fb =~= content_fields(y) + mid + b.last().1.push(0));
        let k = content_fields(x).len() as int;
        assert(content_fields(y).len() == k);
        assert(content_fields(x) =~= fa.take(k));
        assert(content_fields(y) =~= fb.take(k));
        assert forall|i: int| 0 <= i < 32 implies a.last().1[i] == b.last().1[i] by {
            assert(fa[k + mid.len() + i] == a.last().1[i]);
            assert(fb[k + mid.len() + i] == b.last().1[i]);
        }
        assert(a.last().1 =~= b.last().1);
        assert(names_of(x) =~= names_of(a).drop_last());
        assert(names_of(y) =~= names_of(b).drop_last());
        assert(seconds(x) =~= seconds(a).drop_last());
        assert(seconds(y) =~= seconds(b).drop_last());
        lemma_content_fields_injective(x, y);
        assert(a =~= x.push(a.last()));
        assert(b =~= y.push(b.last()));
    }
}

proof fn lemma_set_hashes(v: Seq<(Seq<char>, Seq<u8>)>)
    requires
        one_content(v),
        all_hashes(seconds(v)),
    ensures
        all_hashes(seconds(content_set(v))),
{
    lemma_content_set(v);
    let s = content_set(v);
    assert forall|i: int| 0 <= i < seconds(s).len() implies (#[trigger] seconds(s)[i]).len() == 32 by {
        assert(s.contains(s[i]));
        assert(v.contains(s[i]));
        let k = choose|k: int| 0 <= k < v.len() && v[k] == s[i];
        assert(seconds(v)[k] == v[k].1);
    }
}

/// The contents of the files that a discovery target runs or declares count:
/// where the same files are named, the bytes to hash are the same only if each
/// has the same content hash.
pub proof fn law_discovery_contents_count(
    command: Seq<char>,
    cwd: Seq<char>,
    env: Seq<(Seq<char>, Seq<char>)>,
    triple: Seq<char>,
    version: Seq<char>,
    scope: Seq<Seq<char>>,
    a: Seq<(Seq<char>, Seq<u8>)>,
    b: Seq<(Seq<char>, Seq<u8>)>,
)
    requires
        names_of(a) == names_of(b),
        one_content(a),
        one_content(b),
        all_hashes(seconds(a)),
        all_hashes(seconds(b)),
        discovery_bytes(command, cwd, env, triple, version, scope, a) == discovery_bytes(command, cwd, env, triple, version, scope, b),
    ensures
        a == b,
{
    let front = field("disc-v2"@) + (field("cmd"@) + field(command)) + (field("cwd"@) + field(cwd)) + env_section(env, triple, version)
        + (field("scope"@) + fields(sorted_strs(scope))) + field("content"@);
    let back = Seq::<u8>::empty();
    let sa = content_set(a);
    let sb = content_set(b);
    assert(discovery_bytes(command, cwd, env, triple, version, scope, a) =~= front + content_fields(sa) + back);
    assert(discovery_bytes(command, cwd, env, triple, version, scope, b) =~= front + content_fields(sb) + back);
    lemma_between(front, content_fields(sa), content_fields(sb), back);
    assert(names_of(a).len() == a.len() && names_of(b).len() == b.len());
    let keys = path_ranks(names_of(a));
    crate::order::lemma_order_exists(keys);
    let p = crate::order::sort_order(keys);
    let ta = arranged(a, keys);
    let tb = arranged(b, keys);
    assert forall|i: int| 0 <= i < ta.len() implies names_of(ta)[i] == names_of(tb)[i] by {
        assert(0 <= p[i] < keys.len());
        assert(names_of(a)[p[i]] == a[p[i]].0 && names_of(b)[p[i]] == b[p[i]].0);
    }
    assert(names_of(ta) =~= names_of(tb));
    lemma_one_per_path_names(ta, tb);
    lemma_set_hashes(a);
    lemma_set_hashes(b);
    lemma_content_fields_injective(sa, sb);
    lemma_content_set(a);
    lemma_content_set(b);
    assert forall|i: int| 0 <= i < a.len() implies a[i] == b[i] by {
        assert(a.contains(a[i]));
        assert(sa.contains(a[i]));
        assert(b.contains(a[i]));
        let k = choose|k: int| 0 <= k < b.len() && b[k] == a[i];
        assert(names_of(a)[i] == a[i].0 && names_of(b)[i] == b[i].0);
        assert(path_rank(b[k].0) == path_rank(b[i].0));
    }
    assert(a =~= b);
}

/// The command of a discovery target and the directory it runs in count:
/// targets that are otherwise the same have the same bytes to hash only if
/// both are the same.
pub proof fn law_discovery_command_counts(
    command: Seq<char>,
    other_command: Seq<char>,
    cwd: Seq<char>,
    other_cwd: Seq<char>,
    env: Seq<(Seq<char>, Seq<char>)>,
    triple: Seq<char>,
    version: Seq<char>,
    scope: Seq<Seq<char>>,
    content: Seq<(Seq<char>, Seq<u8>)>,
)
    ensures
        discovery_bytes(command, cwd, env, triple, version, scope, content) == discovery_bytes(other_command, cwd, env, triple, version, scope, content) ==> command == other_command,
        discovery_bytes(command, cwd, env, triple, version, scope, content) == discovery_bytes(command, other_cwd, env, triple, version, scope, content) ==> cwd == other_cwd,
{
    let e = env_section(env, triple, version);
    let f = field("scope"@) + fields(sorted_strs(scope));
    let g = field("content"@) + content_fields(content_set(content));
    if discovery_bytes(command, cwd, env, triple, version, scope, content) == discovery_bytes(other_command, cwd, env, triple, version, scope, content) {
        let w = field("cwd"@) + field(cwd);
        let front = field("disc-v2"@) + field("cmd"@);
        lemma_regroup(field("disc-v2"@), field("cmd"@), field(command), w, e, f);
        lemma_regroup(field("disc-v2"@), field("cmd"@), field(other_command), w, e, f);
        lemma_regroup_end(front, field(command), w + e + f, g);
        lemma_regroup_end(front, field(other_command), w + e + f, g);
        lemma_field_between(front, command, other_command, w + e + f + g);
    }
    if discovery_bytes(command, cwd, env, triple, version, scope, content) == discovery_bytes(command, other_cwd, env, triple, version, scope, content) {
        let before = field("disc-v2"@) + (field("cmd"@) + field(command));
        lemma_regroup(before, field("cwd"@), field(cwd), e, f, g);
        lemma_regroup(before, field("cwd"@), field(other_cwd), e, f, g);
        lemma_field_between(before + field("cwd"@), cwd, other_cwd, e + f + g);
    }
}

/// The value of a discovery target's variable counts: another value of one
/// variable leaves the bytes to hash the same only if it is the same value.
pub proof fn law_discovery_env_counts(
    command: Seq<char>,
    cwd: Seq<char>,
    env: Seq<(Seq<char>, Seq<char>)>,
    i: int,
    value: Seq<char>,
    triple: Seq<char>,
    version: Seq<char>,
    scope: Seq<Seq<char>>,
    content: Seq<(Seq<char>, Seq<u8>)>,
)
    requires
        0 <= i < env.len(),
        discovery_bytes(command, cwd, env, triple, version, scope, content) == discovery_bytes(command, cwd, env.update(i, (env[i].0, value)), triple, version, scope, content),
    ensures
        env[i].1 == value,
{
    let front = field("disc-v2"@) + (field("cmd"@) + field(command)) + (field("cwd"@) + field(cwd));
    let f = field("scope"@) + fields(sorted_strs(scope));
    let g = field("content"@) + content_fields(content_set(content));
    let x = env_section(env, triple, version);
    let y = env_section(env.update(i, (env[i].0, value)), triple, version);
    lemma_regroup_end(front, x, f, g);
    lemma_regroup_end(front, y, f, g);
    crate::key::lemma_between(front, x, y, f + g);
    crate::key::lemma_env_section_value(env, i, value, triple, version);
}

/// A row of contents ends in a zero byte.
proof fn lemma_content_end(v: Seq<(Seq<char>, Seq<u8>)>)
    ensures
        v.len() == 0 <==> content_fields(v).len() == 0,
        v.len() > 0 ==> content_fields(v).last() == 0,
{
}

proof fn lemma_content_path_length(x: Seq<u8>, p: Seq<char>, y: Seq<u8>, q: Seq<char>)
    requires
        x.len() > 0 ==> x.last() == 0,
        is_plain(q),
        x + utf8(p) == y + utf8(q),
    ensures
        utf8(p).len() >= utf8(q).len(),
{
    crate::readback::lemma_ascii_byte(q, '\0');
    if utf8(p).len() < utf8(q).len() {
        let k = x.len() - 1;
        assert((x + utf8(p)).len() == x.len() + utf8(p).len());
        assert((y + utf8(q)).len() == y.len() + utf8(q).len());
        assert(k >= y.len());
        assert((x + utf8(p))[k] == 0);
        assert((y + utf8(q))[k] == utf8(q)[k - y.len()]);
        assert(utf8(q).contains(0u8));
    }
}

proof fn lemma_content_read(a: Seq<(Seq<char>, Seq<u8>)>, b: Seq<(Seq<char>, Seq<u8>)>)
    requires
        is_listing(a),
        is_listing(b),
        content_fields(a) == content_fields(b),
    ensures
        a == b,
    decreases a.len(),
{
    lemma_content_end(a);
    lemma_content_end(b);
    if a.len() == 0 {
        assert(a =~= b);
    } else {
        let x = a.drop_last();
        let y = b.drop_last();
        let n = a.len() - 1;
        let m = b.len() - 1;
        let p = a[n].0;
        let q = b[m].0;
        assert(names_of(a)[n] == p && names_of(b)[m] == q);
        assert(seconds(a)[n] == a[n].1 && seconds(b)[m] == b[m].1);
        let tail_a = utf8("="@) + a[n].1.push(0);
        let tail_b = utf8("="@) + b[m].1.push(0);
        let fa = content_fields(a);
        let fb = content_fields(b);
        let ha = content_fields(x) + utf8(p);
        let hb = content_fields(y) + utf8(q);
        assert(fa =~= ha + tail_a);
        assert(fb =~= hb + tail_b);
        assert(tail_a.len() == tail_b.len());
        crate::readback::lemma_even_head(ha, tail_a, hb, tail_b);
        crate::readback::lemma_same_head(utf8("="@), a[n].1.push(0), b[m].1.push(0));
        assert(a[n].1 =~= a[n].1.push(0).drop_last());
        assert(b[m].1 =~= b[m].1.push(0).drop_last());
        lemma_content_end(x);
        lemma_content_end(y);
        lemma_content_path_length(content_fields(x), p, content_fields(y), q);
        lemma_content_path_length(content_fields(y), q, content_fields(x), p);
        crate::readback::lemma_even_head(content_fields(x), utf8(p), content_fields(y), utf8(q));
        crate::text::lemma_utf8_injective(p, q);
        lemma_front_listing(a);
        lemma_front_listing(b);
        lemma_content_read(x, y);
        assert(a =~= x.push(a[n]));
        assert(b =~= y.push(b[m]));
    }
}

proof fn lemma_front_listing(v: Seq<(Seq<char>, Seq<u8>)>)
    requires
        v.len() > 0,
        is_listing(v),
    ensures
        is_listing(v.drop_last()),
{
    let w = v.drop_last();
    assert forall|i: int| 0 <= i < names_of(w).len() implies is_plain(#[trigger] names_of(w)[i]) by {
        assert(names_of(w)[i] == names_of(v)[i]);
    }
    assert forall|i: int| 0 <= i < seconds(w).len() implies (#[trigger] seconds(w)[i]).len() == 32 by {
        assert(seconds(w)[i] == seconds(v)[i]);
    }
}

proof fn lemma_set_listing(v: Seq<(Seq<char>, Seq<u8>)>)
    requires
        one_content(v),
        is_listing(v),
    ensures
        is_listing(content_set(v)),
{
    lemma_content_set(v);
    lemma_set_hashes(v);
    let s = content_set(v);
    assert forall|i: int| 0 <= i < names_of(s).len() implies is_plain(#[trigger] names_of(s)[i]) by {
        assert(s.contains(s[i]));
        let k = choose|k: int| 0 <= k < v.len() && v[k] == s[i];
        assert(names_of(v)[k] == v[k].0);
    }
}

/// Everything that goes into the key of a discovery target.
pub ghost struct DiscoveryParts {
    pub command: Seq<char>,
    pub cwd: Seq<char>,
    pub env: Seq<(Seq<char>, Seq<char>)>,
    pub triple: Seq<char>,
    pub version: Seq<char>,
    pub scope: Seq<Seq<char>>,
    pub content: Seq<(Seq<char>, Seq<u8>)>,
}

impl DiscoveryParts {
    /// The bytes to hash.
    pub open spec fn bytes(self) -> Seq<u8> {
        discovery_bytes(self.command, self.cwd, self.env, self.triple, self.version, self.scope, self.content)
    }

    /// No text holds what ends a field, and no directory of the scope has the
    /// name of the section behind.
    pub open spec fn is_plain(self) -> bool {
        &&& is_plain(self.command) && is_plain(self.cwd)
        &&& is_environment(self.env)
        &&& is_plain(self.triple) && is_plain(self.version)
        &&& all_plain(self.scope) && !self.scope.contains("content"@)
        &&& is_listing(self.content) && one_content(self.content)
    }

    spec fn after_env(self) -> Seq<u8> {
        fields(sorted_strs(self.scope)) + (field("content"@) + content_fields(content_set(self.content)))
    }

    spec fn after_cwd(self) -> Seq<u8> {
        field("env"@) + (env_fields(all_variables(self.env, self.triple, self.version)) + (field("scope"@) + self.after_env()))
    }

    spec fn after_command(self) -> Seq<u8> {
        field("cwd"@) + (field(self.cwd) + self.after_cwd())
    }

    proof fn lemma_shape(self)
        ensures
            self.bytes() == field("disc-v2"@) + (field("cmd"@) + (field(self.command) + self.after_command())),
    {
        lemma_env_section_shape(self.env, self.triple, self.version);
        let v = env_fields(all_variables(self.env, self.triple, self.version));
        lemma_discovery_nested(field("disc-v2"@), field("cmd"@), field(self.command), field("cwd"@), field(self.cwd), field("env"@), v, field("scope"@), fields(sorted_strs(self.scope)), field("content"@), content_fields(content_set(self.content)));
    }
}

proof fn lemma_discovery_nested(t: Seq<u8>, cmd: Seq<u8>, command: Seq<u8>, cwd: Seq<u8>, dir: Seq<u8>, env: Seq<u8>, v: Seq<u8>, sc: Seq<u8>, s: Seq<u8>, ct: Seq<u8>, c: Seq<u8>)
    ensures
        t + (cmd + command) + (cwd + dir) + (env + v) + (sc + s) + (ct + c) == t + (cmd + (command + (cwd + (dir + (env + (v + (sc + (s + (ct + c))))))))),
{
    let b = s + (ct + c);
    let d = v + (sc + b);
    let e = dir + (env + d);
    assert(sc + s + (ct + c) =~= sc + b);
    assert(env + v + (sc + b) =~= env + d);
    assert(cwd + dir + (env + d) =~= cwd + e);
    assert(t + (cmd + command) + (cwd + e) =~= t + (cmd + (command + (cwd + e))));
    let front = t + (cmd + command);
    assert(front + (cwd + dir) + (env + v) + (sc + s) + (ct + c) =~= front + ((cwd + dir) + ((env + v) + (sc + s + (ct + c)))));
}

proof fn lemma_scope_sorted(scope: Seq<Seq<char>>)
    ensures
        sorted_strs(scope).to_multiset() == scope.to_multiset(),
        all_plain(scope) ==> all_plain(sorted_strs(scope)),
        forall|x: Seq<char>| #[trigger] sorted_strs(scope).contains(x) <==> scope.contains(x),
{
    let s = sorted_strs(scope);
    crate::order::lemma_sorted_strs_properties(scope);
    assert forall|x: Seq<char>| #[trigger] s.contains(x) <==> scope.contains(x) by {
        crate::order::lemma_arranged_members(scope, crate::order::encoded(scope), x);
    }
    if all_plain(scope) {
        assert forall|i: int| 0 <= i < s.len() implies is_plain(#[trigger] s[i]) by {
            assert(s.contains(s[i]));
            let k = choose|k: int| 0 <= k < scope.len() && scope[k] == s[i];
            assert(is_plain(scope[k]));
        }
    }
}

/// The key of a discovery target tells it apart: the bytes to hash are the same
/// only if the command, the directory, the variables, what is built in, the
/// scope and the files it runs or declares, path by path, all are.
pub proof fn law_discovery_key_tells_all(a: DiscoveryParts, b: DiscoveryParts)
    requires
        a.is_plain(),
        b.is_plain(),
        a.bytes() == b.bytes(),
    ensures
        a.command == b.command,
        a.cwd == b.cwd,
        forall|x: (Seq<char>, Seq<char>)| a.env.contains(x) <==> b.env.contains(x),
        a.triple == b.triple,
        a.version == b.version,
        a.scope.to_multiset() == b.scope.to_multiset(),
        forall|x: (Seq<char>, Seq<u8>)| a.content.contains(x) <==> b.content.contains(x),
{
    lemma_discovery_command(a, b);
    lemma_discovery_env(a, b);
    lemma_discovery_tail(a, b);
}

proof fn lemma_discovery_command(a: DiscoveryParts, b: DiscoveryParts)
    requires
        a.is_plain(),
        b.is_plain(),
        a.bytes() == b.bytes(),
    ensures
        a.command == b.command,
        a.cwd == b.cwd,
        a.after_cwd() == b.after_cwd(),
{
    a.lemma_shape();
    b.lemma_shape();
    let x = field(a.command) + a.after_command();
    let y = field(b.command) + b.after_command();
    lemma_same_head(field("disc-v2"@), field("cmd"@) + x, field("cmd"@) + y);
    lemma_same_head(field("cmd"@), x, y);
    lemma_field_head(a.command, a.after_command(), b.command, b.after_command());
    lemma_same_head(field("cwd"@), field(a.cwd) + a.after_cwd(), field(b.cwd) + b.after_cwd());
    lemma_field_head(a.cwd, a.after_cwd(), b.cwd, b.after_cwd());
}

proof fn lemma_discovery_env(a: DiscoveryParts, b: DiscoveryParts)
    requires
        a.is_plain(),
        b.is_plain(),
        a.after_cwd() == b.after_cwd(),
    ensures
        forall|x: (Seq<char>, Seq<char>)| a.env.contains(x) <==> b.env.contains(x),
        a.triple == b.triple,
        a.version == b.version,
        a.after_env() == b.after_env(),
{
    let va = env_fields(all_variables(a.env, a.triple, a.version));
    let vb = env_fields(all_variables(b.env, b.triple, b.version));
    lemma_same_head(field("env"@), va + (field("scope"@) + a.after_env()), vb + (field("scope"@) + b.after_env()));
    assert(is_plain("scope"@) && !"scope"@.contains('=')) by {
        reveal_strlit("scope");
    }
    lemma_env_section_to_mark(a.env, a.triple, a.version, a.after_env(), b.env, b.triple, b.version, b.after_env(), "scope"@);
}

proof fn lemma_discovery_tail(a: DiscoveryParts, b: DiscoveryParts)
    requires
        a.is_plain(),
        b.is_plain(),
        a.after_env() == b.after_env(),
    ensures
        a.scope.to_multiset() == b.scope.to_multiset(),
        forall|x: (Seq<char>, Seq<u8>)| a.content.contains(x) <==> b.content.contains(x),
{
    assert(is_plain("content"@)) by {
        reveal_strlit("content");
    }
    lemma_scope_sorted(a.scope);
    lemma_scope_sorted(b.scope);
    let ca = content_set(a.content);
    let cb = content_set(b.content);
    lemma_fields_to_mark(sorted_strs(a.scope), content_fields(ca), sorted_strs(b.scope), content_fields(cb), "content"@);
    lemma_set_listing(a.content);
    lemma_set_listing(b.content);
    lemma_content_read(ca, cb);
    lemma_content_set(a.content);
    lemma_content_set(b.content);
    assert forall|x: (Seq<char>, Seq<u8>)| a.content.contains(x) <==> b.content.contains(x) by {
        assert(ca.contains(x) <==> a.content.contains(x));
        assert(cb.contains(x) <==> b.content.contains(x));
    }
}

/// Two discovery targets have the same bytes to hash only if they run the same
/// command in the same directory and scope, and every file that one runs or
/// declares is one of the other with the same content.
pub proof fn law_same_discovery_key(spec: TargetSpec, built_in: BuiltIn, content: Seq<(String, ContentHash)>, other_spec: TargetSpec, other_built_in: BuiltIn, other_content: Seq<(String, ContentHash)>)
    requires
        plain_discovery(spec, built_in, content),
        plain_discovery(other_spec, other_built_in, other_content),
        discovery_target_bytes(spec, built_in, content) == discovery_target_bytes(other_spec, other_built_in, other_content),
    ensures
        spec.command@ == other_spec.command@,
        spec.cwd@ == other_spec.cwd@,
        crate::key::sets_all(spec, other_spec) && crate::key::sets_all(other_spec, spec),
        built_in.target_triple@ == other_built_in.target_triple@,
        built_in.version@ == other_built_in.version@,
        spec.scope@.map_values(|p: WsRelPath| p@).to_multiset() == other_spec.scope@.map_values(|p: WsRelPath| p@).to_multiset(),
        forall|i: int| 0 <= i < content.len() ==> names_file(other_content, (#[trigger] content[i]).0@, content[i].1@),
        forall|i: int| 0 <= i < other_content.len() ==> names_file(content, (#[trigger] other_content[i]).0@, other_content[i].1@),
{
    let a = discovery_parts(spec, built_in, content);
    let b = discovery_parts(other_spec, other_built_in, other_content);
    lemma_discovery_parts(spec, built_in, content);
    lemma_discovery_parts(other_spec, other_built_in, other_content);
    law_discovery_key_tells_all(a, b);
    crate::key::lemma_sets_all(spec, other_spec);
    crate::key::lemma_sets_all(other_spec, spec);
    assert(spec.scope@.map_values(|p: WsRelPath| p@) =~= rel_paths_of(spec.scope@));
    assert(other_spec.scope@.map_values(|p: WsRelPath| p@) =~= rel_paths_of(other_spec.scope@));
    assert forall|i: int| 0 <= i < content.len() implies names_file(other_content, (#[trigger] content[i]).0@, content[i].1@) by {
        lemma_names_file(content, other_content, i);
    }
    assert forall|i: int| 0 <= i < other_content.len() implies names_file(content, (#[trigger] other_content[i]).0@, other_content[i].1@) by {
        lemma_names_file(other_content, content, i);
    }
}

/// A file of the list has that path and that content hash.
pub open spec fn names_file(content: Seq<(String, ContentHash)>, path: Seq<char>, hash: Seq<u8>) -> bool {
    exists|j: int| 0 <= j < content.len() && (#[trigger] content[j]).0@ == path && content[j].1@ == hash
}

proof fn lemma_names_file(a: Seq<(String, ContentHash)>, b: Seq<(String, ContentHash)>, i: int)
    requires
        0 <= i < a.len(),
        forall|x: (Seq<char>, Seq<u8>)| content_views(a).contains(x) ==> content_views(b).contains(x),
    ensures
        names_file(b, a[i].0@, a[i].1@),
{
    let va = content_views(a);
    let vb = content_views(b);
    assert(va[i] == (a[i].0@, a[i].1@));
    assert(va.contains(va[i]));
    assert(vb.contains(va[i]));
    let j = choose|j: int| 0 <= j < vb.len() && vb[j] == va[i];
    assert(vb[j] == (b[j].0@, b[j].1@));
    assert(b[j].0@ == a[i].0@);
}

/// What goes into the key of a discovery target.
pub open spec fn discovery_parts(spec: TargetSpec, built_in: BuiltIn, content: Seq<(String, ContentHash)>) -> DiscoveryParts {
    DiscoveryParts {
        command: spec.command@,
        cwd: spec.cwd@,
        env: env_views(spec.env@),
        triple: built_in.target_triple@,
        version: built_in.version@,
        scope: rel_paths_of(spec.scope@),
        content: content_views(content),
    }
}

/// The bytes whose hash is the key of a discovery target.
pub open spec fn discovery_target_bytes(spec: TargetSpec, built_in: BuiltIn, content: Seq<(String, ContentHash)>) -> Seq<u8> {
    discovery_parts(spec, built_in, content).bytes()
}

/// No text of a discovery target holds a zero character, no name of a variable
/// an equals sign, no directory of its scope is called `content`, and each path
/// names one content.
pub open spec fn plain_discovery(spec: TargetSpec, built_in: BuiltIn, content: Seq<(String, ContentHash)>) -> bool {
    &&& is_plain(spec.command@) && is_plain(spec.cwd@)
    &&& is_plain(built_in.target_triple@) && is_plain(built_in.version@)
    &&& forall|i: int| 0 <= i < spec.env@.len() ==> is_plain((#[trigger] spec.env@[i]).0@) && is_plain(spec.env@[i].1@) && !spec.env@[i].0@.contains('=')
    &&& forall|i: int| 0 <= i < spec.scope@.len() ==> is_plain((#[trigger] spec.scope@[i])@) && spec.scope@[i]@ != "content"@
    &&& forall|i: int| 0 <= i < content.len() ==> is_plain((#[trigger] content[i]).0@)
    &&& one_content(content_views(content))
}

proof fn lemma_discovery_parts(spec: TargetSpec, built_in: BuiltIn, content: Seq<(String, ContentHash)>)
    requires
        plain_discovery(spec, built_in, content),
    ensures
        discovery_parts(spec, built_in, content).is_plain(),
{
    let ev = env_views(spec.env@);
    assert forall|i: int| 0 <= i < ev.len() implies is_plain((#[trigger] ev[i]).0) && is_plain(ev[i].1) && !ev[i].0.contains('=') by {
        assert(is_plain(spec.env@[i].0@));
    }
    let sv = rel_paths_of(spec.scope@);
    assert forall|i: int| 0 <= i < sv.len() implies is_plain(#[trigger] sv[i]) && sv[i] != "content"@ by {
        assert(is_plain(spec.scope@[i]@));
    }
    let cv = content_views(content);
    assert forall|i: int| 0 <= i < names_of(cv).len() implies is_plain(#[trigger] names_of(cv)[i]) by {
        assert(is_plain(content[i].0@));
    }
    assert forall|i: int| 0 <= i < seconds(cv).len() implies (#[trigger] seconds(cv)[i]).len() == 32 by {
        content[i].1.lemma_len();
    }
}

// Fragments.

/// The version of a fragment.
pub const SUPPORTED_SCHEMA: u32 = 1;

/// Why a discovery output was refused.
#[derive(Debug, PartialEq, Eq)]
pub enum DiscoveryError {
    Io(String, String),
    Json(String, String),
    Graph(GraphError),
    UnsupportedSchema { file: String, found: u32 },
}

impl DiscoveryError {
    /// The error in words.
    pub open spec fn text(&self) -> Seq<char> {
        match *self {
            DiscoveryError::Io(file, e) => "IO error reading discovery output "@ + file@ + ": "@ + e@,
            DiscoveryError::Json(file, e) => "invalid JSON in discovery output "@ + file@ + ": "@ + e@,
            DiscoveryError::Graph(e) => "graph error: "@ + e.text(),
            DiscoveryError::UnsupportedSchema { file, found } => "unsupported discovery schema_version "@ + decimal(found as nat) + " in "@ + file@,
        }
    }

    pub fn message(&self) -> (r: String)
        ensures
            r@ == self.text(),
    {
        match self {
            DiscoveryError::Io(file, e) => cat4("IO error reading discovery output ", file.as_str(), ": ", e.as_str()),
            DiscoveryError::Json(file, e) => cat4("invalid JSON in discovery output ", file.as_str(), ": ", e.as_str()),
            DiscoveryError::Graph(e) => {
                let m = e.message();
                cat2("graph error: ", m.as_str())
            },
            DiscoveryError::UnsupportedSchema { file, found } => {
                let n = number(*found as u128);
                cat4("unsupported discovery schema_version ", n.as_str(), " in ", file.as_str())
            },
        }
    }
}

/// The output of a discovery target.
#[derive(Debug)]
pub struct DiscoveryFragment {
    pub schema_version: u32,
    pub targets: Vec<TargetSpec>,
    /// Further discovery targets.
    pub include_targets: Vec<TargetSpec>,
    /// What the discovery read; `None` if it does not say.
    pub reads: Option<DiscoveryReads>,
}

/// What a discovery read.
#[derive(Debug)]
pub struct DiscoveryReads {
    pub files: Vec<ReadFileEntry>,
    pub dirs: Vec<ReadDirEntry>,
}

/// A file that was read: whole, or only the lines that start with one of
/// `lines`.
#[derive(Debug)]
pub struct ReadFileEntry {
    pub path: WsRelPath,
    pub lines: Vec<String>,
}

/// A directory that was listed: whole, or only the names that match one of
/// `filter`.
#[derive(Debug)]
pub struct ReadDirEntry {
    pub path: WsRelPath,
    pub filter: Vec<String>,
}

/// Refuses a fragment of another version.
pub fn check_fragment(file: &str, frag: DiscoveryFragment) -> (r: Result<DiscoveryFragment, DiscoveryError>)
    ensures
        r is Ok <==> frag.schema_version == SUPPORTED_SCHEMA,
        r matches Ok(f) ==> f == frag,
        r matches Err(e) ==> (e matches DiscoveryError::UnsupportedSchema { file: f, found } && f@ == file@ && found == frag.schema_version),
{
    if frag.schema_version != SUPPORTED_SCHEMA {
        return Err(DiscoveryError::UnsupportedSchema { file: owned(file), found: frag.schema_version });
    }
    Ok(frag)
}

/// The further discovery targets that are new: not among `ids`, and not named
/// before in the list.
pub open spec fn fresh_includes(ids: Seq<Seq<char>>, inc: Seq<TargetSpec>) -> Seq<TargetSpec>
    decreases inc.len(),
{
    if inc.len() == 0 {
        inc
    } else {
        let rest = fresh_includes(ids, inc.drop_last());
        if ids.contains(inc.last().id@) || spec_ids(rest).contains(inc.last().id@) {
            rest
        } else {
            rest.push(inc.last())
        }
    }
}

/// Target `i` of the list has a label that is taken.
pub open spec fn clashes(known: Seq<Seq<char>>, targets: Seq<TargetSpec>, i: int) -> bool {
    known.contains(targets[i].id@) || spec_ids(targets.take(i)).contains(targets[i].id@)
}

/// Target `i` is the first with a label that is taken.
pub open spec fn first_clash(known: Seq<Seq<char>>, targets: Seq<TargetSpec>, i: int) -> bool {
    &&& 0 <= i < targets.len()
    &&& clashes(known, targets, i)
    &&& forall|j: int| 0 <= j < i ==> !#[trigger] clashes(known, targets, j)
}

proof fn lemma_ids_concat(a: Seq<TargetSpec>, b: Seq<TargetSpec>, x: Seq<char>)
    ensures
        spec_ids(a + b).contains(x) <==> spec_ids(a).contains(x) || spec_ids(b).contains(x),
{
    let av = spec_ids(a);
    let bv = spec_ids(b);
    let cv = spec_ids(a + b);
    assert(cv == av + bv);
    if av.contains(x) {
        let i = choose|i: int| 0 <= i < av.len() && av[i] == x;
        assert(cv[i] == x);
    }
    if bv.contains(x) {
        let i = choose|i: int| 0 <= i < bv.len() && bv[i] == x;
        assert(cv[av.len() + i] == x);
    }
    if cv.contains(x) {
        let i = choose|i: int| 0 <= i < cv.len() && cv[i] == x;
        if i < av.len() {
            assert(av[i] == x);
        } else {
            assert(bv[i - av.len()] == x);
        }
    }
}

/// Adds the targets of a fragment to the graph. The labels of the further
/// discovery targets that were new come back; those that the graph has already
/// are passed over, which ends a recursion. An ordinary target whose label is
/// taken is an error.
pub fn merge_into(graph: &mut BuildGraph, frag: DiscoveryFragment) -> (r: Result<Vec<TargetId>, DiscoveryError>)
    requires
        old(graph).well_formed(),
    ensures
        final(graph).well_formed(),
        final(graph).edges() == old(graph).edges(),
        r is Ok <==> forall|i: int| 0 <= i < frag.targets@.len() ==> !#[trigger] clashes(
            spec_ids(old(graph).specs() + fresh_includes(old(graph).ids(), frag.include_targets@)),
            frag.targets@,
            i,
        ),
        r matches Ok(v) ==> {
            &&& ids_of(v@) == spec_ids(fresh_includes(old(graph).ids(), frag.include_targets@))
            &&& final(graph).specs() == old(graph).specs() + fresh_includes(old(graph).ids(), frag.include_targets@) + frag.targets@
        },
        r matches Err(e) ==> exists|i: int| #[trigger] first_clash(
            spec_ids(old(graph).specs() + fresh_includes(old(graph).ids(), frag.include_targets@)),
            frag.targets@,
            i,
        ) && merge_error(frag.targets@, i, e) && final(graph).specs() == old(graph).specs() + fresh_includes(
            old(graph).ids(),
            frag.include_targets@,
        ) + frag.targets@.take(i),
{
    let ghost base = graph.specs();
    let ghost ids = graph.ids();
    let ghost edges = graph.edges();
    let ghost inc = frag.include_targets@;
    let ghost targets = frag.targets@;
    let mut fresh: Vec<TargetId> = Vec::new();
    assert(base + fresh_includes(ids, inc.take(0)) == base);
    assert(ids_of(fresh@) == spec_ids(fresh_includes(ids, inc.take(0))));
    for t in it: frag.include_targets.into_iter()
        invariant
            it.seq() == inc,
            base == old(graph).specs(),
            ids == old(graph).ids(),
            ids == spec_ids(base),
            edges == old(graph).edges(),
            graph.well_formed(),
            graph.edges() == edges,
            graph.specs() == base + fresh_includes(ids, inc.take(it.index())),
            ids_of(fresh@) == spec_ids(fresh_includes(ids, inc.take(it.index()))),
    {
        let ghost n = it.index();
        let ghost front = fresh_includes(ids, inc.take(n));
        assert(inc.take(n + 1).drop_last() == inc.take(n));
        assert(inc.take(n + 1).last() == t);
        proof {
            lemma_ids_concat(base, front, t.id@);
        }
        if graph.get(&t.id).is_none() {
            let id = t.id.clone();
            let ghost before = ids_of(fresh@);
            match graph.add_target(t) {
                Ok(()) => {},
                Err(e) => {
                    assert(false);
                },
            }
            fresh.push(id);
            assert(base + front.push(t) == (base + front).push(t));
            assert(ids_of(fresh@) == before.push(t.id@));
            assert(spec_ids(front.push(t)) == spec_ids(front).push(t.id@));
        }
    }
    assert(inc.take(inc.len() as int) == inc);
    let ghost start = base + fresh_includes(ids, inc);
    let ghost known = spec_ids(start);
    assert(graph.specs() == start + targets.take(0));
    for t in it: frag.targets.into_iter()
        invariant
            it.seq() == targets,
            targets == frag.targets@,
            inc == frag.include_targets@,
            base == old(graph).specs(),
            ids == old(graph).ids(),
            start == base + fresh_includes(ids, inc),
            known == spec_ids(start),
            edges == old(graph).edges(),
            graph.well_formed(),
            graph.edges() == edges,
            graph.specs() == start + targets.take(it.index()),
            ids_of(fresh@) == spec_ids(fresh_includes(ids, inc)),
            forall|j: int| 0 <= j < it.index() ==> !#[trigger] clashes(known, targets, j),
    {
        let ghost n = it.index();
        assert(t == targets[n]);
        proof {
            lemma_ids_concat(start, targets.take(n), t.id@);
        }
        match graph.add_target(t) {
            Ok(()) => {},
            Err(e) => {
                assert(clashes(known, targets, n));
                assert(first_clash(known, targets, n));
                let e = DiscoveryError::Graph(e);
                assert(merge_error(targets, n, e));
                return Err(e);
            },
        }
        assert(!clashes(known, targets, n));
        assert((start + targets.take(n)).push(t) == start + targets.take(n + 1));
    }
    assert(targets.take(targets.len() as int) == targets);
    Ok(fresh)
}

/// The error for target `i`, whose label is taken.
pub open spec fn merge_error(targets: Seq<TargetSpec>, i: int, e: DiscoveryError) -> bool {
    e is Graph && e->Graph_0 is DuplicateId && e->Graph_0->DuplicateId_0@ == targets[i].id@
}

// What was read.

/// What a discovery read, with the hash of each.
#[derive(Debug)]
pub struct RecordedReads {
    pub files: Vec<RecordedFile>,
    pub dirs: Vec<RecordedDir>,
}

#[derive(Debug)]
pub struct RecordedFile {
    pub path: WsRelPath,
    pub lines: Vec<String>,
    pub content_hash: ContentHash,
    /// When the file was changed, and its size. While both are the same the
    /// hash is taken to be.
    pub mtime_ns: Option<u64>,
    pub size: Option<u64>,
}

#[derive(Debug)]
pub struct RecordedDir {
    pub path: WsRelPath,
    pub filter: Vec<String>,
    pub listing_hash: ContentHash,
    /// When the directory was changed.
    pub mtime_ns: Option<u64>,
}

/// What comes out of checking a manifest.
#[derive(Debug, PartialEq, Eq)]
pub enum VerifyOutcome {
    Match,
    Mismatch { reason: String },
}

/// What the file system says of a path.
#[derive(Debug, Clone, Copy)]
pub struct Stat {
    pub size: u64,
    pub mtime_ns: Option<u64>,
}

/// What hashing an entry gave.
#[derive(Debug)]
pub enum Computed {
    /// It was not needed.
    NotNeeded,
    Hash(ContentHash),
    NotFound,
    Failed(String),
}

/// What is known of an entry.
#[derive(Debug)]
pub struct Check {
    pub stat: Option<Stat>,
    pub computed: Computed,
}

/// Path and patterns of an entry.
pub open spec fn file_entry_view(e: ReadFileEntry) -> (Seq<char>, Seq<Seq<char>>) {
    (e.path@, strs(e.lines@))
}

pub open spec fn dir_entry_view(e: ReadDirEntry) -> (Seq<char>, Seq<Seq<char>>) {
    (e.path@, strs(e.filter@))
}

pub open spec fn recorded_file_view(f: RecordedFile) -> (Seq<char>, Seq<Seq<char>>) {
    (f.path@, strs(f.lines@))
}

pub open spec fn recorded_dir_view(d: RecordedDir) -> (Seq<char>, Seq<Seq<char>>) {
    (d.path@, strs(d.filter@))
}

impl DiscoveryReads {
    pub open spec fn file_entries(&self) -> Seq<(Seq<char>, Seq<Seq<char>>)> {
        self.files@.map_values(|e: ReadFileEntry| file_entry_view(e))
    }

    pub open spec fn dir_entries(&self) -> Seq<(Seq<char>, Seq<Seq<char>>)> {
        self.dirs@.map_values(|e: ReadDirEntry| dir_entry_view(e))
    }
}

impl RecordedReads {
    pub open spec fn file_entries(&self) -> Seq<(Seq<char>, Seq<Seq<char>>)> {
        self.files@.map_values(|e: RecordedFile| recorded_file_view(e))
    }

    pub open spec fn dir_entries(&self) -> Seq<(Seq<char>, Seq<Seq<char>>)> {
        self.dirs@.map_values(|e: RecordedDir| recorded_dir_view(e))
    }

    /// The entries without their hashes, as the discovery gave them.
    pub fn to_discovery_reads(&self) -> (r: DiscoveryReads)
        ensures
            r.file_entries() == self.file_entries(),
            r.dir_entries() == self.dir_entries(),
    {
        let mut files: Vec<ReadFileEntry> = Vec::new();
        let mut i: usize = 0;
        while i < self.files.len()
            invariant
                i <= self.files.len(),
                files.len() == i,
                forall|k: int| 0 <= k < i ==> file_entry_view(#[trigger] files@[k]) == recorded_file_view(self.files@[k]),
            decreases self.files.len() - i,
        {
            files.push(ReadFileEntry { path: self.files[i].path.clone(), lines: copy_strs(&self.files[i].lines) });
            i = i + 1;
        }
        let mut dirs: Vec<ReadDirEntry> = Vec::new();
        let mut j: usize = 0;
        while j < self.dirs.len()
            invariant
                j <= self.dirs.len(),
                dirs.len() == j,
                forall|k: int| 0 <= k < j ==> dir_entry_view(#[trigger] dirs@[k]) == recorded_dir_view(self.dirs@[k]),
            decreases self.dirs.len() - j,
        {
            dirs.push(ReadDirEntry { path: self.dirs[j].path.clone(), filter: copy_strs(&self.dirs[j].filter) });
            j = j + 1;
        }
        let r = DiscoveryReads { files, dirs };
        assert(r.file_entries() == self.file_entries());
        assert(r.dir_entries() == self.dir_entries());
        r
    }
}

/// The lines of a text that start with one of the patterns, each with a zero
/// byte behind it.
pub open spec fn excerpt(lines: Seq<Seq<char>>, patterns: Seq<Seq<char>>) -> Seq<u8>
    decreases lines.len(),
{
    if lines.len() == 0 {
        Seq::<u8>::empty()
    } else {
        let rest = excerpt(lines.drop_last(), patterns);
        if starts_with_any(lines.last(), patterns) {
            rest + field(lines.last())
        } else {
            rest
        }
    }
}

pub open spec fn starts_with_any(s: Seq<char>, patterns: Seq<Seq<char>>) -> bool {
    exists|i: int| 0 <= i < patterns.len() && has_prefix(s, #[trigger] patterns[i])
}

fn any_prefix(s: &str, patterns: &Vec<String>) -> (r: bool)
    ensures
        r == starts_with_any(s@, strs(patterns@)),
{
    let mut i: usize = 0;
    while i < patterns.len()
        invariant
            i <= patterns.len(),
            forall|k: int| 0 <= k < i ==> !has_prefix(s@, #[trigger] strs(patterns@)[k]),
        decreases patterns.len() - i,
    {
        assert(strs(patterns@)[i as int] == patterns@[i as int]@);
        if starts_with(s, patterns[i].as_str()) {
            return true;
        }
        i = i + 1;
    }
    false
}

/// The hash of a file of which only some lines were read.
pub fn hash_excerpt(text: &str, patterns: &Vec<String>) -> (r: ContentHash)
    ensures
        r@ == sha256(excerpt(lines_of(text@), strs(patterns@))),
{
    let all = lines(text);
    let ghost lv = strs(all@);
    let ghost pv = strs(patterns@);
    let mut h = ContentHash::hasher();
    let mut i: usize = 0;
    assert(h@ == excerpt(lv.take(0), pv));
    while i < all.len()
        invariant
            i <= all.len(),
            lv == strs(all@),
            pv == strs(patterns@),
            h@ == excerpt(lv.take(i as int), pv),
        decreases all.len() - i,
    {
        assert(lv.take(i + 1).drop_last() == lv.take(i as int));
        assert(lv.take(i + 1).last() == all@[i as int]@);
        if any_prefix(all[i].as_str(), patterns) {
            feed(&mut h, all[i].as_str());
        }
        i = i + 1;
    }
    assert(lv.take(i as int) == lv);
    h.finalize()
}

/// The name passes the filter: there is none, or one of its globs matches.
pub open spec fn passes(name: Seq<char>, filter: Seq<Seq<char>>) -> bool {
    filter.len() == 0 || exists|i: int| 0 <= i < filter.len() && matches_loosely(#[trigger] filter[i], name)
}

/// The names that pass the filter, in order.
pub open spec fn passing(names: Seq<Seq<char>>, filter: Seq<Seq<char>>) -> Seq<Seq<char>>
    decreases names.len(),
{
    if names.len() == 0 {
        names
    } else {
        let rest = passing(names.drop_last(), filter);
        if passes(names.last(), filter) {
            rest.push(names.last())
        } else {
            rest
        }
    }
}

/// Glob `i` is the first that does not compile.
pub open spec fn first_bad_glob(globs: Seq<Seq<char>>, i: int) -> bool {
    &&& 0 <= i < globs.len()
    &&& glob_error(globs[i]) is Some
    &&& forall|j: int| 0 <= j < i ==> glob_error(#[trigger] globs[j]) is None
}

fn compile_filter(filter: &Vec<String>) -> (r: Result<Vec<GlobPattern>, String>)
    ensures
        r is Ok <==> forall|i: int| 0 <= i < filter@.len() ==> glob_error(#[trigger] strs(filter@)[i]) is None,
        r matches Ok(v) ==> crate::model::globs_of(v@) == strs(filter@),
        r matches Err(e) ==> exists|i: int| #[trigger] first_bad_glob(strs(filter@), i) && e@ == glob_error_text(glob_error(strs(filter@)[i])->0),
{
    let ghost fv = strs(filter@);
    let mut out: Vec<GlobPattern> = Vec::new();
    let mut i: usize = 0;
    while i < filter.len()
        invariant
            i <= filter.len(),
            fv == strs(filter@),
            out.len() == i,
            forall|k: int| 0 <= k < i ==> (#[trigger] out@[k])@ == fv[k],
            forall|k: int| 0 <= k < i ==> glob_error(#[trigger] fv[k]) is None,
        decreases filter.len() - i,
    {
        assert(fv[i as int] == filter@[i as int]@);
        match GlobPattern::new(filter[i].as_str()) {
            Ok(g) => {
                out.push(g);
            },
            Err(e) => {
                assert(first_bad_glob(fv, i as int));
                let m = e.message();
                return Err(m);
            },
        }
        i = i + 1;
    }
    assert(crate::model::globs_of(out@) == fv);
    Ok(out)
}

fn name_passes(name: &str, filter: &Vec<GlobPattern>) -> (r: bool)
    ensures
        r == passes(name@, crate::model::globs_of(filter@)),
{
    if filter.len() == 0 {
        return true;
    }
    let ghost gv = crate::model::globs_of(filter@);
    let mut i: usize = 0;
    while i < filter.len()
        invariant
            i <= filter.len(),
            gv == crate::model::globs_of(filter@),
            forall|k: int| 0 <= k < i ==> !matches_loosely(#[trigger] gv[k], name@),
        decreases filter.len() - i,
    {
        assert(gv[i as int] == filter@[i as int]@);
        if filter[i].matches(name) {
            return true;
        }
        i = i + 1;
    }
    false
}

/// The hash of a listing: the names that pass the filter, sorted, each with a
/// zero byte behind it. A filter that does not compile is an error.
pub fn hash_listing(names: &Vec<String>, filter: &Vec<String>) -> (r: Result<ContentHash, String>)
    ensures
        r is Ok <==> forall|i: int| 0 <= i < filter@.len() ==> glob_error(#[trigger] strs(filter@)[i]) is None,
        r matches Ok(h) ==> h@ == sha256(fields(sorted_strs(passing(strs(names@), strs(filter@))))),
        r matches Err(e) ==> exists|i: int| #[trigger] first_bad_glob(strs(filter@), i) && e@ == glob_error_text(glob_error(strs(filter@)[i])->0),
{
    let globs = match compile_filter(filter) {
        Ok(g) => g,
        Err(e) => {
            return Err(e);
        },
    };
    let ghost nv = strs(names@);
    let ghost fv = strs(filter@);
    let mut kept: Vec<String> = Vec::new();
    let mut i: usize = 0;
    assert(strs(kept@) == passing(nv.take(0), fv));
    while i < names.len()
        invariant
            i <= names.len(),
            nv == strs(names@),
            crate::model::globs_of(globs@) == fv,
            strs(kept@) == passing(nv.take(i as int), fv),
        decreases names.len() - i,
    {
        let ghost before = strs(kept@);
        assert(nv.take(i + 1).drop_last() == nv.take(i as int));
        assert(nv.take(i + 1).last() == names@[i as int]@);
        if name_passes(names[i].as_str(), &globs) {
            kept.push(names[i].clone());
            assert(strs(kept@) == before.push(names@[i as int]@));
        }
        i = i + 1;
    }
    assert(nv.take(i as int) == nv);
    let sorted = sort_strings(&kept);
    let mut h = ContentHash::hasher();
    feed_all(&mut h, &sorted);
    assert(h@ == fields(strs(sorted@)));
    Ok(h.finalize())
}

/// The hash of a file entry whose contents are given: of all of it, or of the
/// lines that were read; `None` if lines are asked of contents that are no
/// text.
pub fn hash_file_entry(entry: &ReadFileEntry, contents: &[u8]) -> (r: Option<ContentHash>)
    ensures
        r is None <==> entry.lines@.len() > 0 && !valid_utf8(contents@),
        r matches Some(h) ==> h@ == (if entry.lines@.len() == 0 {
            sha256(contents@)
        } else {
            sha256(excerpt(lines_of(decode_utf8(contents@)), strs(entry.lines@)))
        }),
{
    if entry.lines.len() == 0 {
        return Some(ContentHash::of_bytes(contents));
    }
    match text_from_utf8(contents) {
        Some(text) => Some(hash_excerpt(text.as_str(), &entry.lines)),
        None => None,
    }
}

/// A file entry was recorded.
pub open spec fn records_file(f: RecordedFile, e: ReadFileEntry, stat: Option<Stat>, hash: Seq<u8>) -> bool {
    &&& recorded_file_view(f) == file_entry_view(e)
    &&& f.content_hash@ == hash
    &&& f.mtime_ns == (match stat {
        Some(s) => s.mtime_ns,
        None => None,
    })
    &&& f.size == (match stat {
        Some(s) => Some(s.size),
        None => None,
    })
}

/// A directory entry was recorded.
pub open spec fn records_dir(d: RecordedDir, e: ReadDirEntry, stat: Option<Stat>, hash: Seq<u8>) -> bool {
    &&& recorded_dir_view(d) == dir_entry_view(e)
    &&& d.listing_hash@ == hash
    &&& d.mtime_ns == (match stat {
        Some(s) => s.mtime_ns,
        None => None,
    })
}

/// What was found for an entry to record: its state, and its hash or why it has
/// none.
#[derive(Debug)]
pub struct Reading {
    pub stat: Option<Stat>,
    pub hash: Result<ContentHash, String>,
}

/// Reading `i` is the first that failed.
pub open spec fn first_failed(v: Seq<Reading>, i: int) -> bool {
    &&& 0 <= i < v.len()
    &&& v[i].hash is Err
    &&& forall|j: int| 0 <= j < i ==> (#[trigger] v[j]).hash is Ok
}

pub open spec fn all_read(v: Seq<Reading>) -> bool {
    forall|j: int| 0 <= j < v.len() ==> (#[trigger] v[j]).hash is Ok
}

fn record_files(entries: &Vec<ReadFileEntry>, readings: &Vec<Reading>) -> (r: Result<Vec<RecordedFile>, String>)
    requires
        readings@.len() == entries@.len(),
    ensures
        r is Ok <==> all_read(readings@),
        r matches Ok(v) ==> v@.len() == entries@.len() && forall|i: int| 0 <= i < v@.len() ==> records_file(#[trigger] v@[i], entries@[i], readings@[i].stat, readings@[i].hash->Ok_0@),
        r matches Err(e) ==> exists|i: int| #[trigger] first_failed(readings@, i) && e@ == readings@[i].hash->Err_0@,
{
    let mut out: Vec<RecordedFile> = Vec::new();
    let mut i: usize = 0;
    while i < entries.len()
        invariant
            i <= entries.len(),
            readings@.len() == entries@.len(),
            out.len() == i,
            forall|k: int| 0 <= k < i ==> (#[trigger] readings@[k]).hash is Ok,
            forall|k: int| 0 <= k < i ==> records_file(#[trigger] out@[k], entries@[k], readings@[k].stat, readings@[k].hash->Ok_0@),
        decreases entries.len() - i,
    {
        match &readings[i].hash {
            Err(e) => {
                assert(first_failed(readings@, i as int));
                return Err(e.clone());
            },
            Ok(h) => {
                let (mtime_ns, size) = match readings[i].stat {
                    Some(s) => (s.mtime_ns, Some(s.size)),
                    None => (None, None),
                };
                out.push(
                    RecordedFile { path: entries[i].path.clone(), lines: copy_strs(&entries[i].lines), content_hash: *h, mtime_ns, size },
                );
            },
        }
        i = i + 1;
    }
    Ok(out)
}

fn record_dirs(entries: &Vec<ReadDirEntry>, readings: &Vec<Reading>) -> (r: Result<Vec<RecordedDir>, String>)
    requires
        readings@.len() == entries@.len(),
    ensures
        r is Ok <==> all_read(readings@),
        r matches Ok(v) ==> v@.len() == entries@.len() && forall|i: int| 0 <= i < v@.len() ==> records_dir(#[trigger] v@[i], entries@[i], readings@[i].stat, readings@[i].hash->Ok_0@),
        r matches Err(e) ==> exists|i: int| #[trigger] first_failed(readings@, i) && e@ == readings@[i].hash->Err_0@,
{
    let mut out: Vec<RecordedDir> = Vec::new();
    let mut i: usize = 0;
    while i < entries.len()
        invariant
            i <= entries.len(),
            readings@.len() == entries@.len(),
            out.len() == i,
            forall|k: int| 0 <= k < i ==> (#[trigger] readings@[k]).hash is Ok,
            forall|k: int| 0 <= k < i ==> records_dir(#[trigger] out@[k], entries@[k], readings@[k].stat, readings@[k].hash->Ok_0@),
        decreases entries.len() - i,
    {
        match &readings[i].hash {
            Err(e) => {
                assert(first_failed(readings@, i as int));
                return Err(e.clone());
            },
            Ok(h) => {
                let mtime_ns = match readings[i].stat {
                    Some(s) => s.mtime_ns,
                    None => None,
                };
                out.push(RecordedDir { path: entries[i].path.clone(), filter: copy_strs(&entries[i].filter), listing_hash: *h, mtime_ns });
            },
        }
        i = i + 1;
    }
    Ok(out)
}

/// Records what a discovery read, from the state and the hash of each entry.
/// The first entry without a hash is an error, files before directories.
pub fn materialize_reads(reads: &DiscoveryReads, files: &Vec<Reading>, dirs: &Vec<Reading>) -> (r: Result<RecordedReads, String>)
    requires
        files@.len() == reads.files@.len(),
        dirs@.len() == reads.dirs@.len(),
    ensures
        r is Ok <==> all_read(files@) && all_read(dirs@),
        r matches Ok(v) ==> {
            &&& v.files@.len() == files@.len()
            &&& v.dirs@.len() == dirs@.len()
            &&& forall|i: int| 0 <= i < files@.len() ==> records_file(#[trigger] v.files@[i], reads.files@[i], files@[i].stat, files@[i].hash->Ok_0@)
            &&& forall|i: int| 0 <= i < dirs@.len() ==> records_dir(#[trigger] v.dirs@[i], reads.dirs@[i], dirs@[i].stat, dirs@[i].hash->Ok_0@)
            &&& v.file_entries() == reads.file_entries()
            &&& v.dir_entries() == reads.dir_entries()
        },
        r matches Err(e) ==> {
            ||| exists|i: int| #[trigger] first_failed(files@, i) && e@ == files@[i].hash->Err_0@
            ||| all_read(files@) && exists|i: int| #[trigger] first_failed(dirs@, i) && e@ == dirs@[i].hash->Err_0@
        },
{
    let f = match record_files(&reads.files, files) {
        Ok(v) => v,
        Err(e) => {
            return Err(e);
        },
    };
    let d = match record_dirs(&reads.dirs, dirs) {
        Ok(v) => v,
        Err(e) => {
            return Err(e);
        },
    };
    let r = RecordedReads { files: f, dirs: d };
    proof {
        assert forall|i: int| 0 <= i < r.files@.len() implies recorded_file_view(#[trigger] r.files@[i]) == file_entry_view(reads.files@[i]) by {
            assert(records_file(r.files@[i], reads.files@[i], files@[i].stat, files@[i].hash->Ok_0@));
        }
        assert forall|i: int| 0 <= i < r.dirs@.len() implies recorded_dir_view(#[trigger] r.dirs@[i]) == dir_entry_view(reads.dirs@[i]) by {
            assert(records_dir(r.dirs@[i], reads.dirs@[i], dirs@[i].stat, dirs@[i].hash->Ok_0@));
        }
        assert(r.file_entries() == reads.file_entries());
        assert(r.dir_entries() == reads.dir_entries());
    }
    Ok(r)
}

// Checking what was read.

/// The monitor or the state of the file says that the entry is as it was.
pub open spec fn file_settled(f: RecordedFile, stat: Option<Stat>, changes: Option<ChangeSet>) -> bool {
    ||| changes is Some && !changes->0.file_changed(f.path@)
    ||| f.mtime_ns is Some && f.size is Some && stat is Some && Some(stat->0.size) == f.size && stat->0.mtime_ns == f.mtime_ns
}

pub open spec fn dir_settled(d: RecordedDir, stat: Option<Stat>, changes: Option<ChangeSet>) -> bool {
    ||| changes is Some && !changes->0.dir_changed(d.path@)
    ||| d.mtime_ns is Some && stat is Some && stat->0.mtime_ns == d.mtime_ns
}

/// What is wrong with an entry.
#[derive(Debug, PartialEq, Eq)]
pub enum Issue {
    Differs(String),
    Failed(String),
}

/// The issue differs for the reason, or failed with the message.
pub open spec fn issue_view(i: Option<Issue>) -> Option<(bool, Seq<char>)> {
    match i {
        Some(Issue::Differs(r)) => Some((true, r@)),
        Some(Issue::Failed(m)) => Some((false, m@)),
        None => None,
    }
}

/// What is wrong with an entry that has to be hashed.
pub open spec fn hash_issue(label: Seq<char>, path: Seq<char>, recorded: Seq<u8>, computed: Computed) -> Option<(bool, Seq<char>)> {
    match computed {
        Computed::NotNeeded => None,
        Computed::Hash(h) => if h@ == recorded {
            None
        } else {
            Some((true, label + " content changed: "@ + path))
        },
        Computed::NotFound => Some((true, label + " missing: "@ + path)),
        Computed::Failed(m) => Some((false, m@)),
    }
}

pub open spec fn file_issue(f: RecordedFile, c: Check, changes: Option<ChangeSet>) -> Option<(bool, Seq<char>)> {
    if file_settled(f, c.stat, changes) {
        None
    } else {
        hash_issue("file"@, f.path@, f.content_hash@, c.computed)
    }
}

pub open spec fn dir_issue(d: RecordedDir, c: Check, changes: Option<ChangeSet>) -> Option<(bool, Seq<char>)> {
    if dir_settled(d, c.stat, changes) {
        None
    } else {
        hash_issue("directory"@, d.path@, d.listing_hash@, c.computed)
    }
}

/// Whether a file has to be hashed to know that it is as it was.
pub fn needs_file_hash(f: &RecordedFile, stat: &Option<Stat>, changes: &Option<ChangeSet>) -> (r: bool)
    ensures
        r == !file_settled(*f, *stat, *changes),
{
    match changes {
        Some(cs) => {
            if !cs.file_might_have_changed(f.path.as_str()) {
                return false;
            }
        },
        None => {},
    }
    match f.mtime_ns {
        Some(t) => match f.size {
            Some(n) => match stat {
                Some(s) => match s.mtime_ns {
                    Some(u) => !(s.size == n && u == t),
                    None => true,
                },
                None => true,
            },
            None => true,
        },
        None => true,
    }
}

/// Whether a directory has to be listed to know that it is as it was.
pub fn needs_dir_hash(d: &RecordedDir, stat: &Option<Stat>, changes: &Option<ChangeSet>) -> (r: bool)
    ensures
        r == !dir_settled(*d, *stat, *changes),
{
    match changes {
        Some(cs) => {
            if !cs.dir_might_have_changed(d.path.as_str()) {
                return false;
            }
        },
        None => {},
    }
    match d.mtime_ns {
        Some(t) => match stat {
            Some(s) => match s.mtime_ns {
                Some(u) => u != t,
                None => true,
            },
            None => true,
        },
        None => true,
    }
}

fn issue_of(label: &str, path: &str, recorded: &ContentHash, computed: &Computed) -> (r: Option<Issue>)
    ensures
        issue_view(r) == hash_issue(label@, path@, recorded@, *computed),
{
    match computed {
        Computed::NotNeeded => None,
        Computed::Hash(h) => {
            if h.same(recorded) {
                None
            } else {
                Some(Issue::Differs(cat3(label, " content changed: ", path)))
            }
        },
        Computed::NotFound => Some(Issue::Differs(cat3(label, " missing: ", path))),
        Computed::Failed(m) => Some(Issue::Failed(m.clone())),
    }
}

/// The rank of its path and what is wrong, for each entry, files first.
pub open spec fn issues(r: RecordedReads, files: Seq<Check>, dirs: Seq<Check>, changes: Option<ChangeSet>) -> Seq<(Seq<u8>, Option<(bool, Seq<char>)>)> {
    Seq::new(r.files@.len(), |i: int| (path_rank(r.files@[i].path@), file_issue(r.files@[i], files[i], changes))) + Seq::new(
        r.dirs@.len(),
        |i: int| (path_rank(r.dirs@[i].path@), dir_issue(r.dirs@[i], dirs[i], changes)),
    )
}

/// Entry `k` has an issue, and its path is the least of those that do; of equal
/// paths it is the first.
pub open spec fn is_least_issue(v: Seq<(Seq<u8>, Option<(bool, Seq<char>)>)>, k: int) -> bool {
    &&& 0 <= k < v.len()
    &&& v[k].1 is Some
    &&& forall|j: int| 0 <= j < v.len() && (#[trigger] v[j]).1 is Some ==> !bytes_lt(v[j].0, v[k].0) && (j < k ==> bytes_lt(v[k].0, v[j].0))
}

pub open spec fn no_issue(v: Seq<(Seq<u8>, Option<(bool, Seq<char>)>)>) -> bool {
    forall|j: int| 0 <= j < v.len() ==> (#[trigger] v[j]).1 is None
}

/// The best of a prefix: none if it has no issue, else the least one.
spec fn best_upto(v: Seq<(Seq<u8>, Option<(bool, Seq<char>)>)>, n: int, best: Option<(Vec<u8>, Issue)>) -> bool {
    match best {
        None => no_issue(v.take(n)),
        Some(b) => exists|k: int| #[trigger] is_least_issue(v.take(n), k) && v[k].0 == b.0@ && v[k].1 == issue_view(Some(b.1)),
    }
}

proof fn lemma_best_step(v: Seq<(Seq<u8>, Option<(bool, Seq<char>)>)>, n: int, best: Option<(Vec<u8>, Issue)>, next: Option<(Vec<u8>, Issue)>)
    requires
        0 <= n < v.len(),
        best_upto(v, n, best),
        v[n].1 is None ==> next == best,
        v[n].1 is Some && best is Some && !bytes_lt(v[n].0, (best->0).0@) ==> next == best,
        v[n].1 is Some && (best is None || bytes_lt(v[n].0, (best->0).0@)) ==> next is Some && (next->0).0@ == v[n].0 && issue_view(Some((next->0).1)) == v[n].1,
    ensures
        best_upto(v, n + 1, next),
{
    let a = v.take(n);
    let b = v.take(n + 1);
    assert(b == a.push(v[n]));
    if v[n].1 is None {
        match best {
            None => {
                assert forall|j: int| 0 <= j < b.len() implies (#[trigger] b[j]).1 is None by {
                    if j < n {
                        assert(a[j].1 is None);
                    }
                }
            },
            Some(x) => {
                let k = choose|k: int| #[trigger] is_least_issue(a, k) && v[k].0 == x.0@ && v[k].1 == issue_view(Some(x.1));
                assert forall|j: int| 0 <= j < b.len() && (#[trigger] b[j]).1 is Some implies !bytes_lt(b[j].0, b[k].0) && (j < k ==> bytes_lt(b[k].0, b[j].0)) by {
                    assert(a[j] == b[j]);
                }
                assert(is_least_issue(b, k));
            },
        }
    } else {
        match best {
            None => {
                crate::text::lemma_bytes_lt_irreflexive(v[n].0);
                assert forall|j: int| 0 <= j < b.len() && (#[trigger] b[j]).1 is Some implies !bytes_lt(b[j].0, b[n].0) && (j < n ==> bytes_lt(b[n].0, b[j].0)) by {
                    if j < n {
                        assert(a[j].1 is None);
                    }
                }
                assert(is_least_issue(b, n));
            },
            Some(x) => {
                let k = choose|k: int| #[trigger] is_least_issue(a, k) && v[k].0 == x.0@ && v[k].1 == issue_view(Some(x.1));
                if bytes_lt(v[n].0, x.0@) {
                    assert forall|j: int| 0 <= j < b.len() && (#[trigger] b[j]).1 is Some implies !bytes_lt(b[j].0, b[n].0) && (j < n ==> bytes_lt(b[n].0, b[j].0)) by {
                        if j < n {
                            assert(a[j] == b[j]);
                            assert(a[k] == v[k]);
                            assert(!bytes_lt(a[j].0, a[k].0));
                            crate::text::lemma_bytes_lt_total(a[j].0, a[k].0);
                            if a[j].0 != a[k].0 {
                                crate::text::lemma_bytes_lt_transitive(v[n].0, a[k].0, a[j].0);
                            }
                            if bytes_lt(b[j].0, b[n].0) {
                                crate::text::lemma_bytes_lt_transitive(b[j].0, b[n].0, b[j].0);
                                crate::text::lemma_bytes_lt_irreflexive(b[j].0);
                            }
                        } else {
                            crate::text::lemma_bytes_lt_irreflexive(b[j].0);
                        }
                    }
                    assert(is_least_issue(b, n));
                } else {
                    assert forall|j: int| 0 <= j < b.len() && (#[trigger] b[j]).1 is Some implies !bytes_lt(b[j].0, b[k].0) && (j < k ==> bytes_lt(b[k].0, b[j].0)) by {
                        if j < n {
                            assert(a[j] == b[j]);
                        }
                    }
                    assert(is_least_issue(b, k));
                }
            },
        }
    }
}

/// Takes an issue if it comes before the best so far.
fn better(best: Option<(Vec<u8>, Issue)>, path: &str, issue: Option<Issue>) -> (r: Option<(Vec<u8>, Issue)>)
    ensures
        issue is None ==> r == best,
        issue is Some && best is Some && !bytes_lt(path_rank(path@), (best->0).0@) ==> r == best,
        issue is Some && (best is None || bytes_lt(path_rank(path@), (best->0).0@)) ==> r is Some && (r->0).0@ == path_rank(path@) && (r->0).1 == issue->0,
{
    match issue {
        None => best,
        Some(i) => {
            let k = rank(path);
            match best {
                None => Some((k, i)),
                Some(b) => {
                    if bytes_before(k.as_slice(), b.0.as_slice()) {
                        Some((k, i))
                    } else {
                        Some(b)
                    }
                },
            }
        },
    }
}

/// Checks what a discovery read against the state of the files and directories.
/// An entry that the monitor or its time and size settle needs no hash. Of the
/// entries that are not as they were, the one with the least path decides.
pub fn verify_reads_with_fsmonitor(recorded: &RecordedReads, files: &Vec<Check>, dirs: &Vec<Check>, changeset: &Option<ChangeSet>) -> (r: Result<VerifyOutcome, String>)
    requires
        files@.len() == recorded.files@.len(),
        dirs@.len() == recorded.dirs@.len(),
        forall|i: int| 0 <= i < files@.len() && !file_settled(recorded.files@[i], (#[trigger] files@[i]).stat, *changeset) ==> !(files@[i].computed is NotNeeded),
        forall|i: int| 0 <= i < dirs@.len() && !dir_settled(recorded.dirs@[i], (#[trigger] dirs@[i]).stat, *changeset) ==> !(dirs@[i].computed is NotNeeded),
    ensures
        r matches Ok(VerifyOutcome::Match) <==> no_issue(issues(*recorded, files@, dirs@, *changeset)),
        r matches Ok(VerifyOutcome::Mismatch { reason }) ==> exists|k: int|
            #[trigger] is_least_issue(issues(*recorded, files@, dirs@, *changeset), k) && issues(*recorded, files@, dirs@, *changeset)[k].1 == Some((true, reason@)),
        r matches Err(e) ==> exists|k: int|
            #[trigger] is_least_issue(issues(*recorded, files@, dirs@, *changeset), k) && issues(*recorded, files@, dirs@, *changeset)[k].1 == Some((false, e@)),
{
    let ghost v = issues(*recorded, files@, dirs@, *changeset);
    let ghost nf = files@.len() as int;
    let mut best: Option<(Vec<u8>, Issue)> = None;
    let mut i: usize = 0;
    assert(no_issue(v.take(0)));
    while i < files.len()
        invariant
            i <= files.len(),
            nf == files@.len(),
            files@.len() == recorded.files@.len(),
            v == issues(*recorded, files@, dirs@, *changeset),
            best_upto(v, i as int, best),
        decreases files.len() - i,
    {
        let f = &recorded.files[i];
        assert(v[i as int] == (path_rank(f.path@), file_issue(*f, files@[i as int], *changeset)));
        let issue = if needs_file_hash(f, &files[i].stat, changeset) {
            issue_of("file", f.path.as_str(), &f.content_hash, &files[i].computed)
        } else {
            None
        };
        let ghost before = best;
        best = better(best, f.path.as_str(), issue);
        proof {
            lemma_best_step(v, i as int, before, best);
        }
        i = i + 1;
    }
    let mut j: usize = 0;
    while j < dirs.len()
        invariant
            j <= dirs.len(),
            nf == files@.len(),
            files@.len() == recorded.files@.len(),
            dirs@.len() == recorded.dirs@.len(),
            v == issues(*recorded, files@, dirs@, *changeset),
            best_upto(v, nf + j, best),
        decreases dirs.len() - j,
    {
        let d = &recorded.dirs[j];
        assert(v[nf + j] == (path_rank(d.path@), dir_issue(*d, dirs@[j as int], *changeset)));
        let issue = if needs_dir_hash(d, &dirs[j].stat, changeset) {
            issue_of("directory", d.path.as_str(), &d.listing_hash, &dirs[j].computed)
        } else {
            None
        };
        let ghost before = best;
        best = better(best, d.path.as_str(), issue);
        proof {
            lemma_best_step(v, nf + j, before, best);
        }
        j = j + 1;
    }
    assert(v.take(nf + j) == v);
    match best {
        None => Ok(VerifyOutcome::Match),
        Some(b) => {
            let ghost k = choose|k: int| #[trigger] is_least_issue(v, k) && v[k].0 == b.0@ && v[k].1 == issue_view(Some(b.1));
            assert(is_least_issue(v, k));
            match b.1 {
                Issue::Differs(reason) => Ok(VerifyOutcome::Mismatch { reason }),
                Issue::Failed(m) => Err(m),
            }
        },
    }
}

/// Checks what a discovery read without a monitor.
pub fn verify_reads(recorded: &RecordedReads, files: &Vec<Check>, dirs: &Vec<Check>) -> (r: Result<VerifyOutcome, String>)
    requires
        files@.len() == recorded.files@.len(),
        dirs@.len() == recorded.dirs@.len(),
        forall|i: int| 0 <= i < files@.len() && !file_settled(recorded.files@[i], (#[trigger] files@[i]).stat, None) ==> !(files@[i].computed is NotNeeded),
        forall|i: int| 0 <= i < dirs@.len() && !dir_settled(recorded.dirs@[i], (#[trigger] dirs@[i]).stat, None) ==> !(dirs@[i].computed is NotNeeded),
    ensures
        r matches Ok(VerifyOutcome::Match) <==> no_issue(issues(*recorded, files@, dirs@, None)),
        r matches Ok(VerifyOutcome::Mismatch { reason }) ==> exists|k: int|
            #[trigger] is_least_issue(issues(*recorded, files@, dirs@, None), k) && issues(*recorded, files@, dirs@, None)[k].1 == Some((true, reason@)),
        r matches Err(e) ==> exists|k: int| #[trigger] is_least_issue(issues(*recorded, files@, dirs@, None), k) && issues(*recorded, files@, dirs@, None)[k].1 == Some((false, e@)),
{
    verify_reads_with_fsmonitor(recorded, files, dirs, &None)
}

/// What was just recorded checks out as long as the hashes are the same: times
/// and sizes cannot make a difference where there is none.
pub proof fn law_unchanged_verifies(recorded: RecordedReads, files: Seq<Check>, dirs: Seq<Check>, changes: Option<ChangeSet>)
    requires
        files.len() == recorded.files@.len(),
        dirs.len() == recorded.dirs@.len(),
        forall|i: int| 0 <= i < files.len() ==> ((#[trigger] files[i]).computed matches Computed::Hash(h) && h@ == recorded.files@[i].content_hash@),
        forall|i: int| 0 <= i < dirs.len() ==> ((#[trigger] dirs[i]).computed matches Computed::Hash(h) && h@ == recorded.dirs@[i].listing_hash@),
    ensures
        no_issue(issues(recorded, files, dirs, changes)),
{
    let v = issues(recorded, files, dirs, changes);
    assert forall|j: int| 0 <= j < v.len() implies (#[trigger] v[j]).1 is None by {
        if j < files.len() {
            assert(files[j].computed is Hash);
        } else {
            assert(dirs[j - files.len()].computed is Hash);
        }
    }
}

/// A changed file is noticed: its hash differs, and neither the monitor nor its
/// time and size vouch for it.
pub proof fn law_change_noticed(recorded: RecordedReads, files: Seq<Check>, dirs: Seq<Check>, changes: Option<ChangeSet>, i: int)
    requires
        0 <= i < recorded.files@.len(),
        !file_settled(recorded.files@[i], files[i].stat, changes),
        files[i].computed matches Computed::Hash(h) && h@ != recorded.files@[i].content_hash@,
    ensures
        !no_issue(issues(recorded, files, dirs, changes)),
{
    assert(issues(recorded, files, dirs, changes)[i].1 is Some);
}

/// Of a listing the names that one of the globs matches count, all of them
/// where there are no globs, in the order they were found.
pub proof fn law_passing(names: Seq<Seq<char>>, filter: Seq<Seq<char>>)
    ensures
        passing(names, filter) == names.filter(|n: Seq<char>| filter.len() == 0 || exists|i: int| 0 <= i < filter.len() && glob_match(#[trigger] filter[i], n, true, false, false)),
    decreases names.len(),
{
    reveal(Seq::filter);
    if names.len() > 0 {
        law_passing(names.drop_last(), filter);
    }
}

/// Two listings have the same hash input only if the same names count.
pub proof fn law_listing_counts(a: Seq<Seq<char>>, b: Seq<Seq<char>>, filter: Seq<Seq<char>>)
    requires
        all_plain(a),
        all_plain(b),
        fields(sorted_strs(passing(a, filter))) == fields(sorted_strs(passing(b, filter))),
    ensures
        passing(a, filter).to_multiset() == passing(b, filter).to_multiset(),
{
    let x = passing(a, filter);
    let y = passing(b, filter);
    lemma_passing_plain(a, filter);
    lemma_passing_plain(b, filter);
    lemma_scope_sorted(x);
    lemma_scope_sorted(y);
    crate::readback::lemma_fields_read(sorted_strs(x), sorted_strs(y));
}

proof fn lemma_passing_plain(names: Seq<Seq<char>>, filter: Seq<Seq<char>>)
    requires
        all_plain(names),
    ensures
        all_plain(passing(names, filter)),
    decreases names.len(),
{
    if names.len() > 0 {
        let f = names.drop_last();
        assert forall|i: int| 0 <= i < f.len() implies is_plain(#[trigger] f[i]) by {
            assert(f[i] == names[i]);
        }
        lemma_passing_plain(f, filter);
        assert(is_plain(names[names.len() - 1]));
    }
}

/// Of a file that is read in part the lines count that start with one of the
/// patterns, and no others.
pub proof fn law_excerpt(lines: Seq<Seq<char>>, patterns: Seq<Seq<char>>)
    ensures
        excerpt(lines, patterns) == fields(lines.filter(|l: Seq<char>| exists|i: int| 0 <= i < patterns.len() && has_prefix(l, #[trigger] patterns[i]))),
    decreases lines.len(),
{
    reveal(Seq::filter);
    if lines.len() > 0 {
        law_excerpt(lines.drop_last(), patterns);
        let p = |l: Seq<char>| exists|i: int| 0 <= i < patterns.len() && has_prefix(l, #[trigger] patterns[i]);
        let front = lines.drop_last().filter(p);
        if p(lines.last()) {
            assert(front.push(lines.last()).drop_last() =~= front);
        }
    }
}

/// Every file that was found counts: what lies in the workspace and can be read
/// contributes its path there and its hash, and nothing else does.
pub proof fn law_all_hits(found: Seq<Option<Found>>, workspace: Seq<char>, x: (Seq<char>, Seq<u8>))
    ensures
        all_hits(found, workspace).contains(x) <==> exists|i: int|
            0 <= i < found.len() && ((#[trigger] found[i]) matches Some(f) && is_below(f.canonical@, workspace) && (f.hash matches Some(h) && x == (relative_to(f.canonical@, workspace), h@))),
    decreases found.len(),
{
    if found.len() > 0 {
        let front = found.drop_last();
        let rest = all_hits(front, workspace);
        law_all_hits(front, workspace, x);
        crate::order::lemma_push_contains(rest, contribution(found.last()->0, workspace), x);
        if rest.contains(x) {
            let i = choose|i: int|
                0 <= i < front.len() && ((#[trigger] front[i]) matches Some(f) && is_below(f.canonical@, workspace) && (f.hash matches Some(h) && x == (relative_to(f.canonical@, workspace), h@)));
            assert(found[i] == front[i]);
        }
        if all_hits(found, workspace).contains(x) && !rest.contains(x) {
            assert(found[found.len() - 1] == found.last());
        }
        if exists|i: int|
            0 <= i < found.len() && ((#[trigger] found[i]) matches Some(f) && is_below(f.canonical@, workspace) && (f.hash matches Some(h) && x == (relative_to(f.canonical@, workspace), h@))) {
            let i = choose|i: int|
                0 <= i < found.len() && ((#[trigger] found[i]) matches Some(f) && is_below(f.canonical@, workspace) && (f.hash matches Some(h) && x == (relative_to(f.canonical@, workspace), h@)));
            if i < front.len() {
                assert(front[i] == found[i]);
            }
        }
    }
}

/// Of the paths tried for one word the first that is a readable file in the
/// workspace counts.
pub proof fn law_first_hit(found: Seq<Option<Found>>, workspace: Seq<char>, i: int, f: Found, h: ContentHash)
    requires
        0 <= i < found.len(),
        found[i] == Some(f),
        is_below(f.canonical@, workspace),
        f.hash == Some(h),
        forall|j: int| 0 <= j < i ==> !((#[trigger] found[j]) matches Some(g) && is_below(g.canonical@, workspace) && g.hash is Some),
    ensures
        first_hit(found, workspace) == Some((relative_to(f.canonical@, workspace), h@)),
    decreases i,
{
    if i > 0 {
        assert(!counts(found[0], workspace));
        let rest = found.skip(1);
        assert forall|j: int| 0 <= j < i - 1 implies !((#[trigger] rest[j]) matches Some(g) && is_below(g.canonical@, workspace) && g.hash is Some) by {
            assert(rest[j] == found[j + 1]);
        }
        law_first_hit(rest, workspace, i - 1, f, h);
    }
}

/// Every word of a command that names a file of the workspace counts.
pub proof fn law_word_hit_counts(words: Seq<Vec<Option<Found>>>, workspace: Seq<char>, k: int, x: (Seq<char>, Seq<u8>))
    requires
        0 <= k < words.len(),
        first_hit(words[k]@, workspace) == Some(x),
    ensures
        hits(words, workspace).contains(x),
    decreases words.len(),
{
    let front = words.drop_last();
    let rest = hits(front, workspace);
    if k < front.len() {
        assert(front[k] == words[k]);
        law_word_hit_counts(front, workspace, k, x);
    }
    match first_hit(words.last()@, workspace) {
        Some(h) => {
            crate::order::lemma_push_contains(rest, h, x);
        },
        None => {},
    }
}

/// The paths to try for a word: an absolute path alone; otherwise the one below
/// the working directory first, and for a bare program name the one in each
/// directory of the search path behind it, in order.
pub proof fn law_candidates(tok: Seq<char>, cwd: Seq<char>, first: bool, search: Seq<Seq<char>>)
    ensures
        is_absolute(tok) ==> candidates(tok, cwd, first, search) == seq![tok],
        !is_absolute(tok) ==> candidates(tok, cwd, first, search).len() >= 1 && candidates(tok, cwd, first, search)[0] == joined(cwd, tok),
        !is_absolute(tok) && first && !tok.contains('/') ==> candidates(tok, cwd, first, search).len() == search.len() + 1 && forall|i: int|
            0 <= i < search.len() ==> #[trigger] candidates(tok, cwd, first, search)[i + 1] == joined(search[i], tok),
        !is_absolute(tok) && (!first || tok.contains('/')) ==> candidates(tok, cwd, first, search).len() == 1,
{
    reveal_strlit("/");
    if tok.contains('/') {
        let i = choose|i: int| 0 <= i < tok.len() && tok[i] == '/';
        assert(tok.subrange(i, i + 1) =~= "/"@);
        assert(crate::text::occurs_at(tok, "/"@, i));
    }
    if occurs_in(tok, "/"@) {
        let i = choose|i: int| crate::text::occurs_at(tok, "/"@, i);
        assert(tok.subrange(i, i + 1)[0] == tok[i]);
    }
}

/// Every word of a command that is no option is tried.
pub proof fn law_words_tried(words: Seq<Seq<char>>, cwd: Seq<char>, search: Seq<Seq<char>>, k: int)
    requires
        0 <= k < words.len(),
        words[k].len() == 0 || words[k][0] != '-',
    ensures
        word_candidates(words, cwd, search).contains(candidates(words[k], cwd, k == 0, search)),
    decreases words.len(),
{
    reveal_strlit("-");
    let front = words.drop_last();
    let rest = word_candidates(front, cwd, search);
    let c = candidates(words[k], cwd, k == 0, search);
    if k < front.len() {
        assert(front[k] == words[k]);
        law_words_tried(front, cwd, search, k);
    } else if has_prefix(words.last(), "-"@) {
        assert(words[k].take(1)[0] == words[k][0]);
    }
    crate::order::lemma_push_contains(rest, candidates(words.last(), cwd, words.len() == 1, search), c);
}

/// A discovery target that names further ones adds those that are new: every
/// label the graph lacks is added, none it has is, and none twice.
pub proof fn law_fresh_includes(ids: Seq<Seq<char>>, inc: Seq<TargetSpec>)
    ensures
        forall|i: int| 0 <= i < inc.len() && !ids.contains((#[trigger] inc[i]).id@) ==> spec_ids(fresh_includes(ids, inc)).contains(inc[i].id@),
        forall|k: int| 0 <= k < fresh_includes(ids, inc).len() ==> !ids.contains((#[trigger] fresh_includes(ids, inc)[k]).id@) && inc.contains(fresh_includes(ids, inc)[k]),
        spec_ids(fresh_includes(ids, inc)).no_duplicates(),
    decreases inc.len(),
{
    if inc.len() > 0 {
        let front = inc.drop_last();
        let rest = fresh_includes(ids, front);
        let all = fresh_includes(ids, inc);
        law_fresh_includes(ids, front);
        let last = inc.last();
        assert(spec_ids(rest.push(last)) =~= spec_ids(rest).push(last.id@));
        assert forall|i: int| 0 <= i < inc.len() && !ids.contains((#[trigger] inc[i]).id@) implies spec_ids(all).contains(inc[i].id@) by {
            crate::order::lemma_push_contains(spec_ids(rest), last.id@, inc[i].id@);
            if i < front.len() {
                assert(front[i] == inc[i]);
            }
        }
        assert forall|k: int| 0 <= k < all.len() implies !ids.contains((#[trigger] all[k]).id@) && inc.contains(all[k]) by {
            if k < rest.len() {
                assert(all[k] == rest[k]);
                assert(front.contains(rest[k]));
                let m = choose|m: int| 0 <= m < front.len() && front[m] == rest[k];
                assert(inc[m] == all[k]);
            } else {
                assert(inc[inc.len() - 1] == all[k]);
            }
        }
        let v = spec_ids(all);
        let r = spec_ids(rest);
        assert forall|i: int, j: int| 0 <= i < v.len() && 0 <= j < v.len() && i != j implies v[i] != v[j] by {
            if i < r.len() && j < r.len() {
                assert(v[i] == r[i] && v[j] == r[j]);
            } else if i < r.len() {
                assert(v[i] == r[i]);
                assert(r.contains(r[i]));
            } else if j < r.len() {
                assert(v[j] == r[j]);
                assert(r.contains(r[j]));
            }
        }
    }
}

/// A stale file is noticed: unless the monitor says that it did not change, or
/// its time and its size are both as recorded, a content that is not the
/// recorded one is an issue.
pub proof fn law_stale_file_noticed(recorded: RecordedReads, files: Seq<Check>, dirs: Seq<Check>, changes: Option<ChangeSet>, i: int)
    requires
        0 <= i < recorded.files@.len(),
        files.len() == recorded.files@.len(),
        changes matches Some(c) ==> c.file_changed(recorded.files@[i].path@),
        files[i].stat matches Some(s) ==> Some(s.size) != recorded.files@[i].size || recorded.files@[i].mtime_ns is None || s.mtime_ns != recorded.files@[i].mtime_ns,
        files[i].computed is Hash || files[i].computed is NotFound || files[i].computed is Failed,
        files[i].computed matches Computed::Hash(h) ==> h@ != recorded.files@[i].content_hash@,
    ensures
        !no_issue(issues(recorded, files, dirs, changes)),
{
    assert(issues(recorded, files, dirs, changes)[i].1 is Some);
}

/// A stale directory is noticed: unless the monitor says that nothing in it
/// changed, or its time is as recorded, a listing that is not the recorded one
/// is an issue.
pub proof fn law_stale_dir_noticed(recorded: RecordedReads, files: Seq<Check>, dirs: Seq<Check>, changes: Option<ChangeSet>, i: int)
    requires
        0 <= i < recorded.dirs@.len(),
        files.len() == recorded.files@.len(),
        dirs.len() == recorded.dirs@.len(),
        changes matches Some(c) ==> c.dir_changed(recorded.dirs@[i].path@),
        dirs[i].stat matches Some(s) ==> recorded.dirs@[i].mtime_ns is None || s.mtime_ns != recorded.dirs@[i].mtime_ns,
        dirs[i].computed is Hash || dirs[i].computed is NotFound || dirs[i].computed is Failed,
        dirs[i].computed matches Computed::Hash(h) ==> h@ != recorded.dirs@[i].listing_hash@,
    ensures
        !no_issue(issues(recorded, files, dirs, changes)),
{
    assert(issues(recorded, files, dirs, changes)[files.len() + i].1 is Some);
}

// The sidecar.

/// The version of the sidecar.
pub const SIDECAR_SCHEMA: u32 = 1;

/// A discovery output that is kept, and what was read to make it.
#[derive(Debug)]
pub struct DiscoverySidecar {
    pub schema: u32,
    pub cache_key: CacheKey,
    pub targets: Vec<TargetSpec>,
    pub include_targets: Vec<TargetSpec>,
    pub reads: RecordedReads,
}

impl DiscoverySidecar {
    pub fn new(cache_key: CacheKey, targets: Vec<TargetSpec>, include_targets: Vec<TargetSpec>, reads: RecordedReads) -> (r: DiscoverySidecar)
        ensures
            r.schema == SIDECAR_SCHEMA,
            r.cache_key == cache_key,
            r.targets == targets,
            r.include_targets == include_targets,
            r.reads == reads,
            r.usable(cache_key@),
    {
        DiscoverySidecar { schema: SIDECAR_SCHEMA, cache_key, targets, include_targets, reads }
    }

    /// The sidecar answers a lookup of the key.
    pub open spec fn usable(&self, key: Seq<u8>) -> bool {
        self.schema == SIDECAR_SCHEMA && self.cache_key@ == key
    }

    /// The sidecar if it answers a lookup of the key; one of another version or
    /// for another key is a miss.
    pub fn for_key(self, key: &CacheKey) -> (r: Option<DiscoverySidecar>)
        ensures
            r is Some <==> self.usable(key@),
            r matches Some(s) ==> s == self,
    {
        if self.schema != SIDECAR_SCHEMA || !self.cache_key.same(key) {
            None
        } else {
            Some(self)
        }
    }
}

/// Where the sidecar for a key is kept.
pub fn sidecar_path(state_dir: &str, key: &CacheKey) -> (r: String)
    ensures
        r@ == joined(joined(state_dir@, "discovery"@), hex_of(key@) + ".json"@),
{
    let dir = path_join(state_dir, "discovery");
    let hex = key.to_hex();
    let name = cat2(hex.as_str(), ".json");
    path_join(dir.as_str(), name.as_str())
}

/// The fragment that the discovery would have written again.
pub fn fragment_from_sidecar(sidecar: DiscoverySidecar) -> (r: DiscoveryFragment)
    ensures
        r.schema_version == SUPPORTED_SCHEMA,
        r.targets == sidecar.targets,
        r.include_targets == sidecar.include_targets,
        r.reads is Some,
        r.reads->0.file_entries() == sidecar.reads.file_entries(),
        r.reads->0.dir_entries() == sidecar.reads.dir_entries(),
{
    let reads = sidecar.reads.to_discovery_reads();
    DiscoveryFragment {
        schema_version: SUPPORTED_SCHEMA,
        targets: sidecar.targets,
        include_targets: sidecar.include_targets,
        reads: Some(reads),
    }
}

/// A target of a fragment whose label the graph has, or that an earlier one of the
/// fragment has, is noticed; the first one is reported.
pub proof fn law_clash_noticed(known: Seq<Seq<char>>, targets: Seq<TargetSpec>, i: int, j: int)
    requires
        0 <= j < targets.len(),
        known.contains(targets[j].id@) || (0 <= i < j && targets[i].id@ == targets[j].id@),
    ensures
        exists|k: int| k <= j && #[trigger] first_clash(known, targets, k),
    decreases j,
{
    if 0 <= i < j && targets[i].id@ == targets[j].id@ {
        assert(spec_ids(targets.take(j))[i] == targets[i].id@);
    }
    assert(clashes(known, targets, j));
    lemma_first_clash(known, targets, j);
}

proof fn lemma_first_clash(known: Seq<Seq<char>>, targets: Seq<TargetSpec>, j: int)
    requires
        0 <= j < targets.len(),
        clashes(known, targets, j),
    ensures
        exists|k: int| k <= j && #[trigger] first_clash(known, targets, k),
    decreases j,
{
    if exists|k: int| 0 <= k < j && #[trigger] clashes(known, targets, k) {
        let k = choose|k: int| 0 <= k < j && #[trigger] clashes(known, targets, k);
        lemma_first_clash(known, targets, k);
    } else {
        assert(first_clash(known, targets, j));
    }
}

/// Where no label is taken, none is reported.
pub proof fn law_no_clash(known: Seq<Seq<char>>, targets: Seq<TargetSpec>, k: int)
    requires
        0 <= k < targets.len(),
        !known.contains(targets[k].id@),
        forall|i: int| 0 <= i < k ==> (#[trigger] targets[i]).id@ != targets[k].id@,
    ensures
        !clashes(known, targets, k),
        !first_clash(known, targets, k),
{
    let v = spec_ids(targets.take(k));
    if v.contains(targets[k].id@) {
        let i = choose|i: int| 0 <= i < v.len() && v[i] == targets[k].id@;
        assert(targets[i].id@ == v[i]);
    }
}

/// The issue that is reported is the one with the least path, so that it does not
/// depend on the order in which the entries were looked at.
pub proof fn law_least_issue(v: Seq<(Seq<u8>, Option<(bool, Seq<char>)>)>, k: int, j: int)
    requires
        is_least_issue(v, k),
        0 <= j < v.len(),
        v[j].1 is Some,
    ensures
        v[k].1 is Some,
        !bytes_lt(v[j].0, v[k].0),
        is_least_issue(v, j) ==> j == k,
{
    if is_least_issue(v, j) && j != k {
        assert(v[k].1 is Some);
        assert(v[j].1 is Some);
    }
}

/// A recorded result answers a lookup of one key at the most.
pub proof fn law_sidecar_key(s: DiscoverySidecar, a: Seq<u8>, b: Seq<u8>)
    requires
        s.usable(a),
        s.usable(b),
    ensures
        a == b,
        a == s.cache_key@,
        s.schema == SIDECAR_SCHEMA,
{
}

/// What is recorded of a file or a directory is what was read of it: its path, what
/// was looked for in it, its hash, and when it was changed.
pub proof fn law_recorded(f: RecordedFile, e: ReadFileEntry, d: RecordedDir, g: ReadDirEntry, stat: Option<Stat>, hash: Seq<u8>)
    requires
        records_file(f, e, stat, hash),
        records_dir(d, g, stat, hash),
    ensures
        f.path@ == e.path@,
        d.path@ == g.path@,
        f.content_hash@ == hash,
        d.listing_hash@ == hash,
        stat matches Some(s) ==> f.mtime_ns == s.mtime_ns && f.size == Some(s.size) && d.mtime_ns == s.mtime_ns,
        stat is None ==> f.mtime_ns is None && f.size is None && d.mtime_ns is None,
{
}

/// Of a sorted list of contents each path is kept once: none is lost, and no two
/// that are left are the same path.
pub proof fn law_one_per_path(v: Seq<(Seq<char>, Seq<u8>)>, i: int, a: int, b: int)
    requires
        forall|x: int, y: int| 0 <= x < y < v.len() ==> !bytes_lt(path_rank((#[trigger] v[y]).0), path_rank((#[trigger] v[x]).0)),
    ensures
        0 <= i < v.len() ==> exists|k: int| 0 <= k < one_per_path(v).len() && path_rank((#[trigger] one_per_path(v)[k]).0) == path_rank(v[i].0),
        0 <= a < b < one_per_path(v).len() ==> path_rank(one_per_path(v)[a].0) != path_rank(one_per_path(v)[b].0),
        0 <= a < one_per_path(v).len() ==> v.contains(one_per_path(v)[a]),
{
    lemma_one_per_path(v);
    if 0 <= i < v.len() {
        assert(has_path(one_per_path(v), path_rank(v[i].0)));
    }
    if 0 <= a < b < one_per_path(v).len() {
        let x = path_rank(one_per_path(v)[a].0);
        assert(bytes_lt(x, path_rank(one_per_path(v)[b].0)));
        crate::text::lemma_bytes_lt_irreflexive(x);
    }
}

} // verus!

//! What a target produced: its outputs, their hash, and the cache entry.

use crate::digest::{hex_of, is_digest_hex, sha256, unhex};
use crate::key::{all_hashes, file_fields, seconds};
use crate::model::{CacheKey, ContentHash, TargetSpec};
use crate::order::{encoded, is_order, lemma_sorted_pairs_unique, names_of, positions, sorted_order, sorted_pairs};
use crate::paths::{components, is_component, named_components, path_components};
use crate::readback::{all_plain, is_plain, lemma_listing_read};
use crate::text::{cat3, join_with, owned, split_on, strs, utf8};
use crate::walk::{quoted, str_debug};
use vstd::prelude::*;
use vstd::string::*;

verus! {

/// One captured output file.
#[derive(Debug, PartialEq, Eq)]
pub struct OutputFile {
    pub rel_path: String,
    pub content_hash: ContentHash,
    pub size: u64,
    pub executable: bool,
    pub mode: String,
}

/// One output as a cache entry records it.
#[derive(Debug, PartialEq, Eq)]
pub struct OutputEntry {
    pub path: String,
    pub content_hash: String,
    pub size: u64,
    pub executable: bool,
    pub mode: String,
    pub symlink_target: Option<String>,
}

/// The version of the cache entry format.
pub const AC_SCHEMA: u32 = 1;

/// What the action cache keeps under a key.
#[derive(Debug, PartialEq, Eq)]
pub struct AcEntry {
    pub schema: u32,
    pub target_id: String,
    pub cache_key: String,
    pub command: String,
    pub cwd: String,
    pub outputs: Vec<OutputEntry>,
    pub outputs_content_hash: String,
    pub stdout_blob: Option<String>,
    pub stderr_blob: Option<String>,
    pub exit_code: i32,
    pub duration_ms: u64,
    pub built_at: String,
    pub built_by: Option<String>,
}

/// Path and hash of each output.
pub open spec fn output_views(v: Seq<OutputFile>) -> Seq<(Seq<char>, Seq<u8>)> {
    v.map_values(|o: OutputFile| (o.rel_path@, o.content_hash@))
}

/// The bytes whose hash stands for a set of outputs: path and content hash of
/// each, by path.
pub open spec fn outputs_bytes(v: Seq<(Seq<char>, Seq<u8>)>) -> Seq<u8> {
    file_fields(sorted_pairs(v))
}

/// The hash of a set of outputs does not depend on the order in which they
/// were captured.
pub proof fn law_outputs_order(a: Seq<(Seq<char>, Seq<u8>)>, b: Seq<(Seq<char>, Seq<u8>)>)
    requires
        names_of(a).no_duplicates(),
        names_of(b).no_duplicates(),
        forall|x: (Seq<char>, Seq<u8>)| a.contains(x) <==> b.contains(x),
    ensures
        outputs_bytes(a) == outputs_bytes(b),
{
    lemma_sorted_pairs_unique(a, b);
}

/// The outputs count: of the same paths, the bytes to hash are the same only if
/// every path has the same content.
pub proof fn law_output_contents_count(a: Seq<(Seq<char>, Seq<u8>)>, b: Seq<(Seq<char>, Seq<u8>)>)
    requires
        names_of(a).no_duplicates(),
        names_of(b).no_duplicates(),
        all_hashes(seconds(a)),
        all_hashes(seconds(b)),
        forall|n: Seq<char>| names_of(a).contains(n) <==> names_of(b).contains(n),
        outputs_bytes(a) == outputs_bytes(b),
    ensures
        forall|i: int, j: int| 0 <= i < a.len() && 0 <= j < b.len() && (#[trigger] a[i]).0 == (#[trigger] b[j]).0 ==> a[i].1 == b[j].1,
        forall|x: (Seq<char>, Seq<u8>)| a.contains(x) <==> b.contains(x),
{
    let sa = sorted_pairs(a);
    let sb = sorted_pairs(b);
    lemma_sorted_listing(a);
    lemma_sorted_listing(b);
    assert forall|n: Seq<char>| names_of(sa).contains(n) <==> names_of(sb).contains(n) by {
        assert(names_of(sa).contains(n) <==> names_of(a).contains(n));
        assert(names_of(sb).contains(n) <==> names_of(b).contains(n));
    }
    crate::order::lemma_ascending_unique(names_of(sa), names_of(sb));
    crate::key::lemma_file_fields_injective(sa, sb);
    lemma_same_members(a, b);
}

/// The outputs count, path by path: the bytes to hash are the same only if the
/// same paths were captured, each with the same content.
pub proof fn law_outputs_count(a: Seq<(Seq<char>, Seq<u8>)>, b: Seq<(Seq<char>, Seq<u8>)>)
    requires
        names_of(a).no_duplicates(),
        names_of(b).no_duplicates(),
        all_hashes(seconds(a)),
        all_hashes(seconds(b)),
        all_plain(names_of(a)),
        all_plain(names_of(b)),
        outputs_bytes(a) == outputs_bytes(b),
    ensures
        forall|x: (Seq<char>, Seq<u8>)| a.contains(x) <==> b.contains(x),
{
    lemma_sorted_listing(a);
    lemma_sorted_listing(b);
    lemma_listing_read(sorted_pairs(a), sorted_pairs(b));
    lemma_same_members(a, b);
}

/// Two captures of distinct paths have the same bytes to hash only if every
/// path of one is a path of the other, with the same content.
pub proof fn law_same_hash_same_outputs(a: Seq<OutputFile>, b: Seq<OutputFile>, i: int)
    requires
        forall|j: int, k: int| 0 <= j < k < a.len() ==> (#[trigger] a[j]).rel_path@ != (#[trigger] a[k]).rel_path@,
        forall|j: int, k: int| 0 <= j < k < b.len() ==> (#[trigger] b[j]).rel_path@ != (#[trigger] b[k]).rel_path@,
        forall|j: int| 0 <= j < a.len() ==> is_plain((#[trigger] a[j]).rel_path@),
        forall|j: int| 0 <= j < b.len() ==> is_plain((#[trigger] b[j]).rel_path@),
        outputs_bytes(output_views(a)) == outputs_bytes(output_views(b)),
        0 <= i < a.len(),
    ensures
        a.len() == b.len(),
        exists|j: int| 0 <= j < b.len() && (#[trigger] b[j]).rel_path@ == a[i].rel_path@ && b[j].content_hash@ == a[i].content_hash@,
{
    let va = output_views(a);
    let vb = output_views(b);
    lemma_views_listing(a);
    lemma_views_listing(b);
    law_outputs_count(va, vb);
    crate::order::lemma_arranged_members(va, encoded(names_of(va)), va[i]);
    crate::order::lemma_arranged_members(vb, encoded(names_of(vb)), va[i]);
    lemma_sorted_listing(va);
    lemma_sorted_listing(vb);
    lemma_listing_read(sorted_pairs(va), sorted_pairs(vb));
    assert(va[i] == (a[i].rel_path@, a[i].content_hash@));
    assert(va.contains(va[i]));
    assert(vb.contains(va[i]));
    let j = choose|j: int| 0 <= j < vb.len() && vb[j] == va[i];
    assert(vb[j] == (b[j].rel_path@, b[j].content_hash@));
    assert(b[j].rel_path@ == a[i].rel_path@);
}

proof fn lemma_views_listing(a: Seq<OutputFile>)
    requires
        forall|j: int, k: int| 0 <= j < k < a.len() ==> (#[trigger] a[j]).rel_path@ != (#[trigger] a[k]).rel_path@,
        forall|j: int| 0 <= j < a.len() ==> is_plain((#[trigger] a[j]).rel_path@),
    ensures
        names_of(output_views(a)).no_duplicates(),
        all_hashes(seconds(output_views(a))),
        all_plain(names_of(output_views(a))),
{
    let v = output_views(a);
    let n = names_of(v);
    assert forall|j: int, k: int| 0 <= j < n.len() && 0 <= k < n.len() && j != k implies n[j] != n[k] by {
        assert(n[j] == a[j].rel_path@ && n[k] == a[k].rel_path@);
    }
    assert forall|j: int| 0 <= j < n.len() implies is_plain(#[trigger] n[j]) by {
        assert(n[j] == a[j].rel_path@);
    }
    assert forall|j: int| 0 <= j < seconds(v).len() implies (#[trigger] seconds(v)[j]).len() == 32 by {
        a[j].content_hash.lemma_len();
    }
}

proof fn lemma_sorted_listing(a: Seq<(Seq<char>, Seq<u8>)>)
    requires
        names_of(a).no_duplicates(),
        all_hashes(seconds(a)),
    ensures
        crate::order::ascending(names_of(sorted_pairs(a))),
        all_hashes(seconds(sorted_pairs(a))),
        all_plain(names_of(a)) ==> all_plain(names_of(sorted_pairs(a))),
        forall|n: Seq<char>| #[trigger] names_of(sorted_pairs(a)).contains(n) <==> names_of(a).contains(n),
{
    let s = sorted_pairs(a);
    crate::order::lemma_sorted_pairs_ascending(a);
    assert forall|i: int| 0 <= i < s.len() implies (#[trigger] seconds(s)[i]).len() == 32 && a.contains(s[i]) && names_of(a).contains(names_of(s)[i]) by {
        assert(s.contains(s[i]));
        crate::order::lemma_arranged_members(a, encoded(names_of(a)), s[i]);
        let k = choose|k: int| 0 <= k < a.len() && a[k] == s[i];
        assert(seconds(a)[k] == a[k].1);
        assert(names_of(a)[k] == a[k].0);
        assert(names_of(s)[i] == s[i].0);
    }
    if all_plain(names_of(a)) {
        assert forall|i: int| 0 <= i < names_of(s).len() implies is_plain(#[trigger] names_of(s)[i]) by {
            assert(seconds(s)[i].len() == 32);
            let k = choose|k: int| 0 <= k < names_of(a).len() && names_of(a)[k] == names_of(s)[i];
            assert(is_plain(names_of(a)[k]));
        }
    }
    assert forall|n: Seq<char>| #[trigger] names_of(s).contains(n) <==> names_of(a).contains(n) by {
        if names_of(s).contains(n) {
            let i = choose|i: int| 0 <= i < names_of(s).len() && names_of(s)[i] == n;
            assert(seconds(s)[i].len() == 32);
        }
        if names_of(a).contains(n) {
            let k = choose|k: int| 0 <= k < names_of(a).len() && names_of(a)[k] == n;
            assert(a.contains(a[k]));
            crate::order::lemma_arranged_members(a, encoded(names_of(a)), a[k]);
            let i = choose|i: int| 0 <= i < s.len() && s[i] == a[k];
            assert(names_of(s)[i] == n);
        }
    }
}

proof fn lemma_same_members(a: Seq<(Seq<char>, Seq<u8>)>, b: Seq<(Seq<char>, Seq<u8>)>)
    requires
        names_of(a).no_duplicates(),
        names_of(b).no_duplicates(),
        sorted_pairs(a) == sorted_pairs(b),
    ensures
        forall|i: int, j: int| 0 <= i < a.len() && 0 <= j < b.len() && (#[trigger] a[i]).0 == (#[trigger] b[j]).0 ==> a[i].1 == b[j].1,
        forall|x: (Seq<char>, Seq<u8>)| a.contains(x) <==> b.contains(x),
{
    let s = sorted_pairs(a);
    assert forall|x: (Seq<char>, Seq<u8>)| a.contains(x) <==> b.contains(x) by {
        crate::order::lemma_arranged_members(a, encoded(names_of(a)), x);
        crate::order::lemma_arranged_members(b, encoded(names_of(b)), x);
    }
    assert forall|i: int, j: int| 0 <= i < a.len() && 0 <= j < b.len() && (#[trigger] a[i]).0 == (#[trigger] b[j]).0 implies a[i].1 == b[j].1 by {
        assert(b.contains(b[j]));
        assert(a.contains(b[j]));
        let k = choose|k: int| 0 <= k < a.len() && a[k] == b[j];
        assert(names_of(a)[k] == names_of(a)[i]);
    }
}

/// The hash over all outputs of a target.
pub fn compute_outputs_content_hash(outputs: &Vec<OutputFile>) -> (r: ContentHash)
    ensures
        r@ == sha256(outputs_bytes(output_views(outputs@))),
{
    let ghost ov = output_views(outputs@);
    let mut names: Vec<String> = Vec::new();
    let mut i: usize = 0;
    while i < outputs.len()
        invariant
            i <= outputs.len(),
            names.len() == i,
            forall|k: int| 0 <= k < i ==> (#[trigger] names@[k])@ == outputs@[k].rel_path@,
        decreases outputs.len() - i,
    {
        names.push(outputs[i].rel_path.clone());
        i = i + 1;
    }
    assert(strs(names@) == names_of(ov));
    let keys = crate::order::keys_of(&names);
    let order = sorted_order(&keys);
    let ghost kv = encoded(names_of(ov));
    let ghost pv = positions(order@);
    let ghost sv = sorted_pairs(ov);
    let mut h = ContentHash::hasher();
    let mut j: usize = 0;
    assert(h@ == file_fields(sv.take(0)));
    while j < order.len()
        invariant
            j <= order.len(),
            ov == output_views(outputs@),
            kv == encoded(names_of(ov)),
            pv == positions(order@),
            pv == crate::order::sort_order(kv),
            is_order(kv, pv),
            sv == sorted_pairs(ov),
            h@ == file_fields(sv.take(j as int)),
        decreases order.len() - j,
    {
        assert(pv[j as int] == order@[j as int]);
        assert(0 <= pv[j as int] < kv.len());
        let o = &outputs[order[j]];
        assert(sv[j as int] == ov[pv[j as int]]);
        assert(sv[j as int] == (o.rel_path@, o.content_hash@));
        assert(sv.take(j + 1).drop_last() == sv.take(j as int));
        crate::key::feed(&mut h, o.rel_path.as_str());
        crate::key::feed_hash(&mut h, &o.content_hash);
        assert(h@ == file_fields(sv.take(j + 1)));
        j = j + 1;
    }
    assert(sv.take(j as int) == sv);
    h.finalize()
}

impl OutputFile {
    /// `e` records this output.
    pub open spec fn recorded_as(&self, e: OutputEntry) -> bool {
        &&& e.path@ == self.rel_path@
        &&& e.content_hash@ == hex_of(self.content_hash@)
        &&& e.size == self.size
        &&& e.executable == self.executable
        &&& e.mode@ == self.mode@
        &&& e.symlink_target is None
    }

    pub fn to_entry(&self) -> (r: OutputEntry)
        ensures
            self.recorded_as(r),
    {
        OutputEntry {
            path: self.rel_path.clone(),
            content_hash: self.content_hash.to_hex(),
            size: self.size,
            executable: self.executable,
            mode: self.mode.clone(),
            symlink_target: None,
        }
    }
}

/// `e` records these outputs, in this order, and the hash over all of them.
pub open spec fn entry_records(e: AcEntry, outputs: Seq<OutputFile>) -> bool {
    &&& e.outputs@.len() == outputs.len()
    &&& forall|i: int| 0 <= i < outputs.len() ==> #[trigger] outputs[i].recorded_as(e.outputs@[i])
    &&& e.outputs_content_hash@ == hex_of(sha256(outputs_bytes(output_views(outputs))))
    &&& is_hash_text(e.outputs_content_hash@)
}

/// The cache entry for a target that was built.
pub fn ac_entry(
    spec: &TargetSpec,
    key: &CacheKey,
    outputs: &Vec<OutputFile>,
    stdout_blob: Option<String>,
    stderr_blob: Option<String>,
    duration_ms: u64,
    built_at: String,
) -> (r: AcEntry)
    ensures
        r.schema == AC_SCHEMA,
        r.target_id@ == spec.id@,
        r.cache_key@ == hex_of(key@),
        r.command@ == spec.command@,
        r.cwd@ == spec.cwd@,
        entry_records(r, outputs@),
        r.stdout_blob == stdout_blob,
        r.stderr_blob == stderr_blob,
        r.exit_code == 0,
        r.duration_ms == duration_ms,
        r.built_at == built_at,
        r.built_by is None,
{
    let mut entries: Vec<OutputEntry> = Vec::new();
    let mut i: usize = 0;
    while i < outputs.len()
        invariant
            i <= outputs.len(),
            entries.len() == i,
            forall|k: int| 0 <= k < i ==> #[trigger] outputs@[k].recorded_as(entries@[k]),
        decreases outputs.len() - i,
    {
        entries.push(outputs[i].to_entry());
        i = i + 1;
    }
    let whole = compute_outputs_content_hash(outputs);
    proof {
        crate::model::law_hex_round_trip(whole);
    }
    AcEntry {
        schema: AC_SCHEMA,
        target_id: owned(spec.id.as_str()),
        cache_key: key.to_hex(),
        command: spec.command.clone(),
        cwd: owned(spec.cwd.as_str()),
        outputs: entries,
        outputs_content_hash: whole.to_hex(),
        stdout_blob,
        stderr_blob,
        exit_code: 0,
        duration_ms,
        built_at,
        built_by: None,
    }
}

/// `s` is the hexadecimal form of a hash.
pub open spec fn is_hash_text(s: Seq<char>) -> bool {
    is_digest_hex(utf8(s))
}

/// A hit gives back what was built: the entry made from some outputs names,
/// output by output, the path, the content hash and the permissions that were
/// captured, and the hash over all of them.
pub proof fn law_entry_round_trip(e: AcEntry, outputs: Seq<OutputFile>)
    requires
        entry_records(e, outputs),
    ensures
        forall|i: int| 0 <= i < outputs.len() ==> is_hash_text((#[trigger] e.outputs@[i]).content_hash@),
        forall|i: int| 0 <= i < outputs.len() ==> unhex(utf8((#[trigger] e.outputs@[i]).content_hash@)) == outputs[i].content_hash@,
        forall|i: int| 0 <= i < outputs.len() ==> (#[trigger] e.outputs@[i]).path@ == outputs[i].rel_path@ && e.outputs@[i].executable == outputs[i].executable && e.outputs@[i].mode@ == outputs[i].mode@,
        is_hash_text(e.outputs_content_hash@),
        unhex(utf8(e.outputs_content_hash@)) == sha256(outputs_bytes(output_views(outputs))),
{
    assert forall|i: int| 0 <= i < outputs.len() implies is_hash_text((#[trigger] e.outputs@[i]).content_hash@) && unhex(utf8(e.outputs@[i].content_hash@)) == outputs[i].content_hash@ by {
        assert(outputs[i].recorded_as(e.outputs@[i]));
        crate::model::law_hex_round_trip(outputs[i].content_hash);
    }
    assert forall|i: int| 0 <= i < outputs.len() implies (#[trigger] e.outputs@[i]).path@ == outputs[i].rel_path@ && e.outputs@[i].executable == outputs[i].executable && e.outputs@[i].mode@ == outputs[i].mode@ by {
        assert(outputs[i].recorded_as(e.outputs@[i]));
    }
    crate::digest::lemma_unhex_hex(sha256(outputs_bytes(output_views(outputs))));
}

/// Whether `blob` is what `hash` names.
pub fn blob_matches(hash: &ContentHash, blob: &[u8]) -> (r: bool)
    ensures
        r == (sha256(blob@) == hash@),
{
    ContentHash::of_bytes(blob).same(hash)
}

/// The components before the first that is a pattern, and whether there is
/// such a one.
pub open spec fn literal_parts(parts: Seq<Seq<char>>) -> Seq<Seq<char>>
    decreases parts.len(),
{
    if parts.len() == 0 {
        parts
    } else {
        let rest = literal_parts(parts.drop_last());
        if rest.len() == parts.len() - 1 && !crate::key::has_metachars(parts.last()) {
            parts
        } else {
            rest
        }
    }
}

/// The components of a relative path that have a name of their own.
pub open spec fn normal_parts(s: Seq<char>) -> Seq<Seq<char>> {
    named_components(split_on(s, '/'))
}

/// The directory to create before a command runs: for a plain path its parent,
/// for a pattern the directories before the first component that is one.
pub open spec fn parent_to_create(s: Seq<char>) -> Option<Seq<char>> {
    let names = normal_parts(s);
    let lit = literal_parts(names);
    let all = components(s);
    let dirs = if lit.len() < names.len() {
        lit
    } else if all.len() == 0 {
        all
    } else {
        all.drop_last()
    };
    if dirs.len() == 0 {
        None
    } else {
        Some(join_with(dirs, "/"@))
    }
}

/// The directory to create for an output, if there is one below the workspace
/// root. The output is a path that stays below it.
pub fn output_parent_to_create(pattern: &str) -> (r: Option<String>)
    requires
        crate::paths::stays_below(pattern@),
    ensures
        r is Some <==> parent_to_create(pattern@) is Some,
        r matches Some(d) ==> Some(d@) == parent_to_create(pattern@),
{
    let parts = path_components(pattern);
    let ghost pv = strs(parts@);
    let n: usize = parts.len();
    proof {
        reveal_strlit(".");
        assert("."@ == seq!['.']);
        lemma_named(split_on(pattern@, '/'));
        if n > 0 {
            assert(pv[0] == parts@[0]@);
        }
    }
    let start: usize = if n > 0 && crate::text::str_eq(parts[0].as_str(), ".") { 1 } else { 0 };
    let ghost names = normal_parts(pattern@);
    assert(pv.skip(start as int) == names);
    let mut i: usize = start;
    let mut dirs: Vec<String> = Vec::new();
    let mut plain: bool = true;
    while i < n && plain
        invariant
            start <= i <= n,
            n == parts.len(),
            pv == strs(parts@),
            pv.skip(start as int) == names,
            plain ==> strs(dirs@) == names.take(i - start) && literal_parts(names.take(i - start)) == names.take(i - start),
            !plain ==> strs(dirs@) == literal_parts(names.take(i - start)) && dirs.len() < i - start,
        decreases n - i,
    {
        let ghost before = strs(dirs@);
        let ghost m = i - start;
        assert(names[m] == parts@[i as int]@);
        assert(names.take(m + 1).drop_last() == names.take(m));
        assert(names.take(m + 1).last() == names[m]);
        if crate::key::has_glob_metachars(parts[i].as_str()) {
            plain = false;
        } else {
            dirs.push(parts[i].clone());
            assert(strs(dirs@) == before.push(names[m]));
            assert(names.take(m + 1) == before.push(names[m]));
        }
        i = i + 1;
    }
    if plain {
        assert(names.take(n - start) == names);
        let mut all = parts;
        if n > 0 {
            all.pop();
            assert(strs(all@) == pv.drop_last());
        }
        if all.len() == 0 {
            None
        } else {
            Some(crate::text::join(&all, "/"))
        }
    } else {
        proof {
            lemma_literal_stops(names, i - start);
        }
        if dirs.len() == 0 {
            None
        } else {
            Some(crate::text::join(&dirs, "/"))
        }
    }
}

/// Named components are components.
proof fn lemma_named(pieces: Seq<Seq<char>>)
    ensures
        forall|i: int| 0 <= i < named_components(pieces).len() ==> is_component(#[trigger] named_components(pieces)[i]),
    decreases pieces.len(),
{
    if pieces.len() > 0 {
        lemma_named(pieces.drop_last());
        let front = named_components(pieces.drop_last());
        let all = named_components(pieces);
        assert forall|i: int| 0 <= i < all.len() implies is_component(#[trigger] all[i]) by {
            if i < front.len() {
                assert(all[i] == front[i]);
            }
        }
    }
}

proof fn lemma_literal_stops(parts: Seq<Seq<char>>, i: int)
    requires
        0 <= i <= parts.len(),
        literal_parts(parts.take(i)).len() < i,
    ensures
        literal_parts(parts) == literal_parts(parts.take(i)),
        literal_parts(parts).len() < parts.len(),
    decreases parts.len(),
{
    if i == parts.len() {
        assert(parts.take(i) == parts);
    } else {
        assert(parts.drop_last().take(i) == parts.take(i));
        lemma_literal_stops(parts.drop_last(), i);
    }
}

/// What stands at a path that an output pattern matched.
#[derive(Debug, Clone, Copy, PartialEq, Eq, Structural)]
pub enum EntryKind {
    File,
    Dir,
    Other,
}

/// The files among the entries, in order.
pub open spec fn files_among(entries: Seq<(String, EntryKind)>) -> Seq<Seq<char>>
    decreases entries.len(),
{
    if entries.len() == 0 {
        Seq::<Seq<char>>::empty()
    } else {
        let rest = files_among(entries.drop_last());
        if entries.last().1 is File {
            rest.push(entries.last().0@)
        } else {
            rest
        }
    }
}

/// Some entry is a directory.
pub open spec fn has_dir(entries: Seq<(String, EntryKind)>) -> bool {
    exists|i: int| 0 <= i < entries.len() && (#[trigger] entries[i]).1 is Dir
}

/// Why a pattern that matched no file fails the run.
pub open spec fn no_file_text(pattern: Seq<char>, dirs: bool) -> Seq<char> {
    if dirs {
        "output "@ + str_debug(pattern) + " matched only directories; directory outputs are not yet supported - declare files or a recursive glob like "@ + str_debug(crate::paths::joined(crate::paths::joined(pattern, "**"@), "*"@))
    } else {
        "output "@ + str_debug(pattern) + " matched no files after the command ran"@
    }
}

/// The files that an output pattern produced. A pattern that matched none is an
/// error, with a hint where it matched directories.
pub fn output_files(pattern: &str, entries: &Vec<(String, EntryKind)>) -> (r: Result<Vec<String>, String>)
    ensures
        r is Ok <==> files_among(entries@).len() > 0,
        r matches Ok(v) ==> strs(v@) == files_among(entries@),
        r matches Err(m) ==> m@ == no_file_text(pattern@, has_dir(entries@)),
{
    let mut files: Vec<String> = Vec::new();
    let mut dirs: bool = false;
    let mut i: usize = 0;
    while i < entries.len()
        invariant
            i <= entries.len(),
            strs(files@) == files_among(entries@.take(i as int)),
            dirs == has_dir(entries@.take(i as int)),
        decreases entries.len() - i,
    {
        let ghost before = strs(files@);
        let ghost e = entries@[i as int];
        assert(entries@.take(i + 1).drop_last() == entries@.take(i as int));
        assert(entries@.take(i + 1)[i as int] == e);
        let kind = entries[i].1;
        if kind == EntryKind::File {
            files.push(entries[i].0.clone());
            assert(strs(files@) == before.push(e.0@));
        } else if kind == EntryKind::Dir {
            dirs = true;
        }
        proof {
            let t = entries@.take(i + 1);
            let t0 = entries@.take(i as int);
            if has_dir(t0) {
                let k = choose|k: int| 0 <= k < t0.len() && (#[trigger] t0[k]).1 is Dir;
                assert(t[k].1 is Dir);
            }
            if has_dir(t) {
                let k = choose|k: int| 0 <= k < t.len() && (#[trigger] t[k]).1 is Dir;
                if k < i {
                    assert(t0[k].1 is Dir);
                }
            }
        }
        i = i + 1;
    }
    assert(entries@.take(i as int) == entries@);
    if files.len() > 0 {
        return Ok(files);
    }
    let q = quoted(pattern);
    if dirs {
        let deep = crate::paths::path_join(pattern, "**");
        let deep = crate::paths::path_join(deep.as_str(), "*");
        let d = quoted(deep.as_str());
        let mut m = cat3("output ", q.as_str(), " matched only directories; directory outputs are not yet supported - declare files or a recursive glob like ");
        m.append(d.as_str());
        Err(m)
    } else {
        Err(cat3("output ", q.as_str(), " matched no files after the command ran"))
    }
}

/// The octal digits of `n`.
pub open spec fn octal(n: nat) -> Seq<char>
    decreases n,
{
    if n < 8 {
        seq![crate::text::digit_char(n)]
    } else {
        octal(n / 8).push(crate::text::digit_char(n % 8))
    }
}

fn octal_text(n: u32) -> (r: String)
    ensures
        r@ == octal(n as nat),
    decreases n,
{
    if n < 8 {
        let d = crate::text::number(n as u128);
        assert(d@ == octal(n as nat));
        d
    } else {
        let mut s = octal_text(n / 8);
        let d = crate::text::number((n % 8) as u128);
        s.append(d.as_str());
        assert(s@ == octal(n as nat));
        s
    }
}

/// Whether a file mode lets anyone execute the file, and its permission bits in
/// octal.
pub fn file_perms(mode: u32) -> (r: (bool, String))
    ensures
        r.0 == (mode & 0o111 != 0),
        r.1@ == octal((mode & 0o7777) as nat),
{
    (mode & 0o111 != 0, octal_text(mode & 0o7777))
}

proof fn lemma_literal_parts(parts: Seq<Seq<char>>, k: int)
    requires
        0 <= k <= parts.len(),
        forall|i: int| 0 <= i < k ==> !crate::key::has_metachars(#[trigger] parts[i]),
        k < parts.len() ==> crate::key::has_metachars(parts[k]),
    ensures
        literal_parts(parts) == parts.take(k),
    decreases parts.len(),
{
    if parts.len() > 0 {
        let f = parts.drop_last();
        if k < parts.len() {
            assert forall|i: int| 0 <= i < k implies !crate::key::has_metachars(#[trigger] f[i]) by {
                assert(f[i] == parts[i]);
            }
            if k < f.len() {
                assert(f[k] == parts[k]);
            }
            lemma_literal_parts(f, k);
            assert(f.take(k) =~= parts.take(k));
        } else {
            assert forall|i: int| 0 <= i < k - 1 implies !crate::key::has_metachars(#[trigger] f[i]) by {
                assert(f[i] == parts[i]);
            }
            lemma_literal_parts(f, k - 1);
            assert(f.take(k - 1) =~= f);
            assert(!crate::key::has_metachars(parts[k - 1]));
            assert(parts.take(k) =~= parts);
        }
    } else {
        assert(parts.take(k) =~= parts);
    }
}

proof fn lemma_piece_of(s: Seq<char>, i: int, c: char)
    requires
        0 <= i < split_on(s, '/').len(),
        split_on(s, '/')[i].contains(c),
    ensures
        s.contains(c),
    decreases s.len(),
{
    if s.len() > 0 {
        let f = s.drop_last();
        let r = split_on(f, '/');
        let p = split_on(s, '/');
        crate::text::lemma_split_on(f, '/');
        let k = choose|k: int| 0 <= k < p[i].len() && p[i][k] == c;
        if i < r.len() && k < r[i].len() {
            assert(r[i][k] == c);
            assert(r[i].contains(c));
            lemma_piece_of(f, i, c);
            let m = choose|m: int| 0 <= m < f.len() && f[m] == c;
            assert(s[m] == c);
        } else {
            assert(s[s.len() - 1] == c);
        }
    }
}

/// The directory made for an output that is spelled out is the one it lies in;
/// an output at the root of the workspace needs none.
pub proof fn law_parent_of_plain(s: Seq<char>)
    requires
        crate::paths::stays_below(s),
        !s.contains('*') && !s.contains('?') && !s.contains('['),
    ensures
        parent_to_create(s) is Some <==> components(s).len() > 1,
        parent_to_create(s) matches Some(d) ==> components(d) == components(s).drop_last(),
{
    let pieces = split_on(s, '/');
    let names = normal_parts(s);
    crate::text::lemma_split_on(s, '/');
    crate::paths::lemma_named_members(pieces);
    assert forall|i: int| 0 <= i < names.len() implies !crate::key::has_metachars(#[trigger] names[i]) by {
        assert(pieces.contains(names[i]));
        let k = choose|k: int| 0 <= k < pieces.len() && pieces[k] == names[i];
        if pieces[k].contains('*') {
            lemma_piece_of(s, k, '*');
        }
        if pieces[k].contains('?') {
            lemma_piece_of(s, k, '?');
        }
        if pieces[k].contains('[') {
            lemma_piece_of(s, k, '[');
        }
    }
    lemma_literal_parts(names, names.len() as int);
    let all = components(s);
    let dirs = all.drop_last();
    if all.len() > 1 {
        lemma_relative_components(s);
        assert forall|i: int| 0 <= i < dirs.len() implies (#[trigger] dirs[i]).len() > 0 && !dirs[i].contains('/') by {
            assert(dirs[i] == all[i]);
        }
        crate::paths::law_path_of_names(dirs);
    }
}

proof fn lemma_relative_components(s: Seq<char>)
    requires
        crate::paths::stays_below(s),
    ensures
        forall|i: int| 0 <= i < components(s).len() ==> (#[trigger] components(s)[i]).len() > 0 && !components(s)[i].contains('/'),
        forall|i: int| 0 < i < components(s).len() ==> #[trigger] components(s)[i] != seq!['.'],
        components(s).len() > 0 && components(s)[0] != seq!['.'] ==> normal_parts(s) == components(s),
{
    crate::paths::law_components(s);
    let pieces = split_on(s, '/');
    let names = normal_parts(s);
    crate::text::lemma_split_on(s, '/');
    crate::paths::lemma_named_members(pieces);
    let c = components(s);
    if c.len() > 0 {
        if pieces[0] == seq!['.'] {
            assert(c[0] == seq!['.']);
            assert(!seq!['.'].contains('/')) by {
                assert(seq!['.'][0] == '.');
            }
        } else {
            assert(c =~= names);
            assert(pieces.contains(names[0]));
        }
    }
}

/// The directory made for an output pattern holds the components before the
/// first with a wildcard.
pub proof fn law_parent_of_pattern(s: Seq<char>, k: int)
    requires
        crate::paths::stays_below(s),
        0 <= k < components(s).len(),
        components(s)[0] != seq!['.'],
        forall|i: int| 0 <= i < k ==> !((#[trigger] components(s)[i]).contains('*') || components(s)[i].contains('?') || components(s)[i].contains('[')),
        components(s)[k].contains('*') || components(s)[k].contains('?') || components(s)[k].contains('['),
    ensures
        parent_to_create(s) is Some <==> k > 0,
        parent_to_create(s) matches Some(d) ==> components(d) == components(s).take(k),
{
    lemma_relative_components(s);
    let c = components(s);
    lemma_literal_parts(c, k);
    let dirs = c.take(k);
    if k > 0 {
        assert forall|i: int| 0 <= i < dirs.len() implies (#[trigger] dirs[i]).len() > 0 && !dirs[i].contains('/') by {
            assert(dirs[i] == c[i]);
        }
        assert forall|i: int| 0 < i < dirs.len() implies #[trigger] dirs[i] != seq!['.'] by {
            assert(dirs[i] == c[i]);
        }
        crate::paths::law_path_of_names(dirs);
    }
}

/// What an output pattern produced is the files it matched, in order; the
/// directories and whatever else it matched are left out.
pub proof fn law_files_among(entries: Seq<(String, EntryKind)>)
    ensures
        files_among(entries) == entries.filter(|e: (String, EntryKind)| e.1 is File).map_values(|e: (String, EntryKind)| e.0@),
    decreases entries.len(),
{
    reveal(Seq::filter);
    if entries.len() > 0 {
        law_files_among(entries.drop_last());
        let f = entries.drop_last().filter(|e: (String, EntryKind)| e.1 is File);
        assert(f.push(entries.last()).map_values(|e: (String, EntryKind)| e.0@) =~= f.map_values(|e: (String, EntryKind)| e.0@).push(entries.last().0@));
        assert(files_among(entries) =~= entries.filter(|e: (String, EntryKind)| e.1 is File).map_values(|e: (String, EntryKind)| e.0@));
    } else {
        assert(files_among(entries) =~= entries.filter(|e: (String, EntryKind)| e.1 is File).map_values(|e: (String, EntryKind)| e.0@));
    }
}

/// The number that octal digits stand for.
pub open spec fn octal_value(s: Seq<char>) -> int
    decreases s.len(),
{
    if s.len() == 0 {
        0
    } else {
        8 * octal_value(s.drop_last()) + (s.last() as int - '0' as int)
    }
}

/// The octal digits of a number stand for it.
pub proof fn law_octal(n: nat)
    ensures
        octal_value(octal(n)) == n,
        forall|i: int| 0 <= i < octal(n).len() ==> '0' <= #[trigger] octal(n)[i] <= '7',
        n > 0 ==> octal(n)[0] != '0',
        octal(n).len() > 0,
    decreases n,
{
    if n < 8 {
        assert(octal(n).drop_last() =~= Seq::<char>::empty());
        assert(octal_value(Seq::<char>::empty()) == 0);
    } else {
        law_octal(n / 8);
        assert(octal(n).drop_last() =~= octal(n / 8));
    }
}

} // verus!

//! The cache key of a target: a hash over its command, working directory,
//! environment, inputs and the outputs of its dependencies.

use crate::digest::sha256;
use crate::model::{
    globs_of, hash_views, rel_paths_of, CacheKey, ContentHash, Hasher, Input, TargetId, TargetSpec,
};
use crate::order::{
    arranged, encoded, is_order, key_views, lemma_sorted_bytes_unique, lemma_sorted_pairs_unique,
    names_of, positions, sort_order, sort_strings, sorted_bytes, sorted_order, sorted_pairs,
    sorted_strs,
};
use crate::rank::{keys_lt, law_ranked, law_ranked_ended, push_key, ranked};
use crate::readback::{
    all_plain, all_readings, is_environment, is_listing, is_plain, lemma_env_read, lemma_env_to_mark,
    lemma_field_head, lemma_listing_read, lemma_listing_to_mark, lemma_same_head,
    lemma_structurals_read, lemma_structurals_to_mark, lemma_utf8_concat, reads_no, same_structural,
    same_structurals,
};
use crate::text::{bytes_lt, copy_strs, owned, str_lt, strs, utf8};
use vstd::prelude::*;

verus! {

/// What the engine itself adds to every key.
#[derive(Debug)]
pub struct BuiltIn {
    pub target_triple: String,
    pub version: String,
}

/// One file input as it goes into the key.
#[derive(Debug, PartialEq, Eq)]
pub struct FileInputContribution {
    pub rel_path: String,
    pub content_hash: ContentHash,
    pub size: u64,
}

/// One fingerprint input as it goes into the key.
#[derive(Debug, PartialEq, Eq)]
pub struct StructuralContribution {
    pub files: Vec<String>,
    pub lines: Vec<String>,
    pub scope: Vec<String>,
    pub fingerprint: ContentHash,
}

/// A fingerprint input in canonical form: each of its lists sorted.
#[derive(Debug, PartialEq, Eq)]
pub struct StructuralSpec {
    pub files: Vec<String>,
    pub lines: Vec<String>,
    pub scope: Vec<String>,
}

/// What went into a target's key.
#[derive(Debug, PartialEq, Eq)]
pub struct CacheKeyBreakdown {
    pub schema: String,
    pub command: String,
    pub cwd: String,
    /// Sorted by name.
    pub user_env: Vec<(String, String)>,
    /// Sorted by name.
    pub built_in_env: Vec<(String, String)>,
    pub file_inputs: Vec<FileInputContribution>,
    pub structural_inputs: Vec<StructuralContribution>,
    /// The output hash of each dependency.
    pub dep_outputs: Vec<(TargetId, ContentHash)>,
}

/// A text and the zero byte that ends it.
pub open spec fn field(s: Seq<char>) -> Seq<u8> {
    utf8(s).push(0)
}

/// Several fields in a row.
pub open spec fn fields(v: Seq<Seq<char>>) -> Seq<u8>
    decreases v.len(),
{
    if v.len() == 0 {
        Seq::<u8>::empty()
    } else {
        fields(v.drop_last()) + field(v.last())
    }
}

/// Variables as texts.
pub open spec fn env_views(env: Seq<(String, String)>) -> Seq<(Seq<char>, Seq<char>)> {
    env.map_values(|p: (String, String)| (p.0@, p.1@))
}

/// `name=value` and a zero byte for each variable, in the given order.
pub open spec fn env_fields(env: Seq<(Seq<char>, Seq<char>)>) -> Seq<u8>
    decreases env.len(),
{
    if env.len() == 0 {
        Seq::<u8>::empty()
    } else {
        env_fields(env.drop_last()) + utf8(env.last().0) + utf8("="@) + field(env.last().1)
    }
}

/// The environment section: the variables by name, then what is built in.
pub open spec fn env_section(env: Seq<(Seq<char>, Seq<char>)>, triple: Seq<char>, version: Seq<char>) -> Seq<u8> {
    field("env"@) + env_fields(sorted_pairs(env)) + utf8("GIANT_TARGET_TRIPLE="@) + field(triple) + utf8("GIANT_VERSION="@) + field(version)
}

/// Path and content hash of a file input.
pub open spec fn file_views(v: Seq<FileInputContribution>) -> Seq<(Seq<char>, Seq<u8>)> {
    v.map_values(|f: FileInputContribution| (f.rel_path@, f.content_hash@))
}

/// Path, zero byte, hash, zero byte for each file, in the given order.
pub open spec fn file_fields(v: Seq<(Seq<char>, Seq<u8>)>) -> Seq<u8>
    decreases v.len(),
{
    if v.len() == 0 {
        Seq::<u8>::empty()
    } else {
        file_fields(v.drop_last()) + field(v.last().0) + v.last().1.push(0)
    }
}

/// The three lists of a fingerprint input, each ended by `|`, and the
/// fingerprint.
pub open spec fn structural_field(s: StructuralContribution) -> Seq<u8> {
    fields(strs(s.files@)) + field("|"@) + fields(strs(s.lines@)) + field("|"@) + fields(strs(s.scope@)) + field("|"@) + s.fingerprint@.push(0)
}

pub open spec fn structural_fields(v: Seq<StructuralContribution>) -> Seq<u8>
    decreases v.len(),
{
    if v.len() == 0 {
        Seq::<u8>::empty()
    } else {
        structural_fields(v.drop_last()) + structural_field(v.last())
    }
}

/// Each hash with a zero byte behind it.
pub open spec fn hash_fields(v: Seq<Seq<u8>>) -> Seq<u8>
    decreases v.len(),
{
    if v.len() == 0 {
        Seq::<u8>::empty()
    } else {
        hash_fields(v.drop_last()) + v.last().push(0)
    }
}

/// The bytes whose hash is a target's key.
pub open spec fn key_bytes(
    command: Seq<char>,
    cwd: Seq<char>,
    env: Seq<(Seq<char>, Seq<char>)>,
    triple: Seq<char>,
    version: Seq<char>,
    files: Seq<(Seq<char>, Seq<u8>)>,
    structurals: Seq<StructuralContribution>,
    dep_outputs: Seq<Seq<u8>>,
) -> Seq<u8> {
    field("v1"@) + (field("cmd"@) + field(command)) + (field("cwd"@) + field(cwd)) + env_section(env, triple, version) + (field("file_inputs"@) + file_fields(files)) + (field("structural_inputs"@) + structural_fields(structurals)) + (field("dep_outputs"@) + hash_fields(sorted_bytes(dep_outputs)))
}

/// The order in which the environment is declared does not change the key.
pub proof fn law_env_order(
    command: Seq<char>,
    cwd: Seq<char>,
    a: Seq<(Seq<char>, Seq<char>)>,
    b: Seq<(Seq<char>, Seq<char>)>,
    triple: Seq<char>,
    version: Seq<char>,
    files: Seq<(Seq<char>, Seq<u8>)>,
    structurals: Seq<StructuralContribution>,
    dep_outputs: Seq<Seq<u8>>,
)
    requires
        names_of(a).no_duplicates(),
        names_of(b).no_duplicates(),
        forall|x: (Seq<char>, Seq<char>)| a.contains(x) <==> b.contains(x),
    ensures
        key_bytes(command, cwd, a, triple, version, files, structurals, dep_outputs) == key_bytes(command, cwd, b, triple, version, files, structurals, dep_outputs),
{
    lemma_sorted_pairs_unique(a, b);
}

/// Early cutoff: of its dependencies a target's key sees the output hashes and
/// nothing else, in whatever order. A rebuild of a dependency that leaves its
/// outputs as they were leaves the key as it was.
pub proof fn law_early_cutoff(
    command: Seq<char>,
    cwd: Seq<char>,
    env: Seq<(Seq<char>, Seq<char>)>,
    triple: Seq<char>,
    version: Seq<char>,
    files: Seq<(Seq<char>, Seq<u8>)>,
    structurals: Seq<StructuralContribution>,
    a: Seq<Seq<u8>>,
    b: Seq<Seq<u8>>,
)
    requires
        a.to_multiset() == b.to_multiset(),
    ensures
        key_bytes(command, cwd, env, triple, version, files, structurals, a) == key_bytes(command, cwd, env, triple, version, files, structurals, b),
{
    lemma_sorted_bytes_unique(a, b);
}

/// What stands between the same two ends is the same.
pub proof fn lemma_between(front: Seq<u8>, a: Seq<u8>, b: Seq<u8>, back: Seq<u8>)
    requires
        front + a + back == front + b + back,
    ensures
        a == b,
{
    let x = front + a + back;
    let y = front + b + back;
    assert(x.len() == y.len());
    assert forall|i: int| 0 <= i < a.len() implies a[i] == b[i] by {
        assert(x[front.len() + i] == a[i]);
        assert(y[front.len() + i] == b[i]);
    }
    assert(a =~= b);
}

/// A text between the same two ends is the same.
pub proof fn lemma_field_between(front: Seq<u8>, a: Seq<char>, b: Seq<char>, back: Seq<u8>)
    requires
        front + field(a) + back == front + field(b) + back,
    ensures
        a == b,
{
    lemma_between(front, field(a), field(b), back);
    assert(utf8(a) =~= field(a).drop_last());
    assert(utf8(b) =~= field(b).drop_last());
    crate::text::lemma_utf8_injective(a, b);
}

/// A section with three behind it, seen from its text.
pub proof fn lemma_regroup(front: Seq<u8>, key: Seq<u8>, text: Seq<u8>, r: Seq<u8>, s: Seq<u8>, t: Seq<u8>)
    ensures
        front + (key + text) + r + s + t == (front + key) + text + (r + s + t),
{
    assert(front + (key + text) + r + s + t =~= (front + key) + text + (r + s + t));
}

/// One more section at the end.
pub proof fn lemma_regroup_end(front: Seq<u8>, text: Seq<u8>, back: Seq<u8>, t: Seq<u8>)
    ensures
        front + text + back + t == front + text + (back + t),
{
    assert(front + text + back + t =~= front + text + (back + t));
}

/// The command and the directory it runs in count: targets that are otherwise
/// the same have the same bytes to hash only if both are the same.
pub proof fn law_command_counts(
    command: Seq<char>,
    other_command: Seq<char>,
    cwd: Seq<char>,
    other_cwd: Seq<char>,
    env: Seq<(Seq<char>, Seq<char>)>,
    triple: Seq<char>,
    version: Seq<char>,
    files: Seq<(Seq<char>, Seq<u8>)>,
    structurals: Seq<StructuralContribution>,
    dep_outputs: Seq<Seq<u8>>,
)
    ensures
        key_bytes(command, cwd, env, triple, version, files, structurals, dep_outputs) == key_bytes(other_command, cwd, env, triple, version, files, structurals, dep_outputs) ==> command == other_command,
        key_bytes(command, cwd, env, triple, version, files, structurals, dep_outputs) == key_bytes(command, other_cwd, env, triple, version, files, structurals, dep_outputs) ==> cwd == other_cwd,
{
    let e = env_section(env, triple, version);
    let f = field("file_inputs"@) + file_fields(files);
    let g = field("structural_inputs"@) + structural_fields(structurals);
    let d = field("dep_outputs"@) + hash_fields(sorted_bytes(dep_outputs));
    if key_bytes(command, cwd, env, triple, version, files, structurals, dep_outputs) == key_bytes(other_command, cwd, env, triple, version, files, structurals, dep_outputs) {
        let w = field("cwd"@) + field(cwd);
        let front = field("v1"@) + field("cmd"@);
        lemma_command_first(field(command), w, e, f, g, d);
        lemma_command_first(field(other_command), w, e, f, g, d);
        lemma_field_between(front, command, other_command, w + e + f + g + d);
    }
    if key_bytes(command, cwd, env, triple, version, files, structurals, dep_outputs) == key_bytes(command, other_cwd, env, triple, version, files, structurals, dep_outputs) {
        let before = field("v1"@) + (field("cmd"@) + field(command));
        lemma_cwd_first(before, field(cwd), e, f, g, d);
        lemma_cwd_first(before, field(other_cwd), e, f, g, d);
        lemma_field_between(before + field("cwd"@), cwd, other_cwd, e + f + g + d);
    }
}

proof fn lemma_command_first(c: Seq<u8>, w: Seq<u8>, e: Seq<u8>, f: Seq<u8>, g: Seq<u8>, d: Seq<u8>)
    ensures
        field("v1"@) + (field("cmd"@) + c) + w + e + f + g + d == (field("v1"@) + field("cmd"@)) + c + (w + e + f + g + d),
{
    let front = field("v1"@) + field("cmd"@);
    lemma_regroup(field("v1"@), field("cmd"@), c, w, e, f);
    lemma_regroup_end(front, c, w + e + f, g);
    lemma_regroup_end(front, c, w + e + f + g, d);
}

proof fn lemma_cwd_first(before: Seq<u8>, c: Seq<u8>, e: Seq<u8>, f: Seq<u8>, g: Seq<u8>, d: Seq<u8>)
    ensures
        before + (field("cwd"@) + c) + e + f + g + d == (before + field("cwd"@)) + c + (e + f + g + d),
{
    lemma_regroup(before, field("cwd"@), c, e, f, g);
    lemma_regroup_end(before + field("cwd"@), c, e + f + g, d);
}

proof fn lemma_env_value(s: Seq<(Seq<char>, Seq<char>)>, j: int, v: Seq<char>)
    requires
        0 <= j < s.len(),
        env_fields(s) == env_fields(s.update(j, (s[j].0, v))),
    ensures
        s[j].1 == v,
    decreases s.len(),
{
    let t = s.update(j, (s[j].0, v));
    let x = s.drop_last();
    let none = Seq::<u8>::empty();
    if j == s.len() - 1 {
        assert(t.drop_last() =~= x);
        let front = env_fields(x) + utf8(s[j].0) + utf8("="@);
        assert(env_fields(s) =~= front + field(s[j].1) + none);
        assert(env_fields(t) =~= front + field(v) + none);
        lemma_field_between(front, s[j].1, v, none);
    } else {
        let y = x.update(j, (x[j].0, v));
        assert(t.drop_last() =~= y);
        assert(t.last() == s.last());
        let back = utf8(s.last().0) + utf8("="@) + field(s.last().1);
        assert(env_fields(s) =~= none + env_fields(x) + back);
        assert(env_fields(t) =~= none + env_fields(y) + back);
        lemma_between(none, env_fields(x), env_fields(y), back);
        lemma_env_value(x, j, v);
    }
}

/// The environment section shows the value of every variable.
pub proof fn lemma_env_section_value(a: Seq<(Seq<char>, Seq<char>)>, i: int, value: Seq<char>, triple: Seq<char>, version: Seq<char>)
    requires
        0 <= i < a.len(),
        env_section(a, triple, version) == env_section(a.update(i, (a[i].0, value)), triple, version),
    ensures
        a[i].1 == value,
{
    let b = a.update(i, (a[i].0, value));
    let keys = crate::order::encoded(names_of(a));
    assert(names_of(b) =~= names_of(a));
    crate::order::lemma_order_exists(keys);
    let p = crate::order::sort_order(keys);
    crate::order::lemma_order_covers(keys, p);
    assert(p.contains(i));
    let j = choose|j: int| 0 <= j < p.len() && p[j] == i;
    let sa = sorted_pairs(a);
    let sb = sorted_pairs(b);
    assert(sa[j] == a[i]);
    assert(sb =~= sa.update(j, (sa[j].0, value)));
    let head = field("env"@);
    let t1 = utf8("GIANT_TARGET_TRIPLE="@);
    let t2 = field(triple);
    let t3 = utf8("GIANT_VERSION="@);
    let t4 = field(version);
    lemma_env_tail(head, env_fields(sa), t1, t2, t3, t4);
    lemma_env_tail(head, env_fields(sb), t1, t2, t3, t4);
    lemma_between(head, env_fields(sa), env_fields(sb), t1 + t2 + t3 + t4);
    lemma_env_value(sa, j, value);
}

proof fn lemma_env_tail(head: Seq<u8>, x: Seq<u8>, t1: Seq<u8>, t2: Seq<u8>, t3: Seq<u8>, t4: Seq<u8>)
    ensures
        head + x + t1 + t2 + t3 + t4 == head + x + (t1 + t2 + t3 + t4),
{
    lemma_regroup_end(head, x, t1, t2);
    lemma_regroup_end(head, x, t1 + t2, t3);
    lemma_regroup_end(head, x, t1 + t2 + t3, t4);
}

/// The value of a variable counts: another value of one variable leaves the
/// bytes to hash the same only if it is the same value.
pub proof fn law_env_counts(
    command: Seq<char>,
    cwd: Seq<char>,
    env: Seq<(Seq<char>, Seq<char>)>,
    i: int,
    value: Seq<char>,
    triple: Seq<char>,
    version: Seq<char>,
    files: Seq<(Seq<char>, Seq<u8>)>,
    structurals: Seq<StructuralContribution>,
    dep_outputs: Seq<Seq<u8>>,
)
    requires
        0 <= i < env.len(),
        key_bytes(command, cwd, env, triple, version, files, structurals, dep_outputs) == key_bytes(command, cwd, env.update(i, (env[i].0, value)), triple, version, files, structurals, dep_outputs),
    ensures
        env[i].1 == value,
{
    let other = env.update(i, (env[i].0, value));
    let front = field("v1"@) + (field("cmd"@) + field(command)) + (field("cwd"@) + field(cwd));
    let f = field("file_inputs"@) + file_fields(files);
    let g = field("structural_inputs"@) + structural_fields(structurals);
    let d = field("dep_outputs"@) + hash_fields(sorted_bytes(dep_outputs));
    let x = env_section(env, triple, version);
    let y = env_section(other, triple, version);
    lemma_regroup_end(front, x, f, g);
    lemma_regroup_end(front, x, f + g, d);
    lemma_regroup_end(front, y, f, g);
    lemma_regroup_end(front, y, f + g, d);
    lemma_between(front, x, y, f + g + d);
    lemma_env_section_value(env, i, value, triple, version);
}

/// Every entry has the length of a hash.
pub open spec fn all_hashes(v: Seq<Seq<u8>>) -> bool {
    forall|i: int| 0 <= i < v.len() ==> (#[trigger] v[i]).len() == 32
}

/// The second halves of pairs.
pub open spec fn seconds(v: Seq<(Seq<char>, Seq<u8>)>) -> Seq<Seq<u8>> {
    v.map_values(|p: (Seq<char>, Seq<u8>)| p.1)
}

/// Of the same paths, a listing shows every content hash.
pub proof fn lemma_file_fields_injective(a: Seq<(Seq<char>, Seq<u8>)>, b: Seq<(Seq<char>, Seq<u8>)>)
    requires
        names_of(a) == names_of(b),
        all_hashes(seconds(a)),
        all_hashes(seconds(b)),
        file_fields(a) == file_fields(b),
    ensures
        a == b,
    decreases a.len(),
{
    assert(names_of(a).len() == a.len() && names_of(b).len() == b.len());
    if a.len() == 0 {
        assert(a =~= b);
    } else {
        let x = a.drop_last();
        let y = b.drop_last();
        let n = a.len() - 1;
        assert(names_of(a)[n] == a[n].0 && names_of(b)[n] == b[n].0);
        assert(seconds(a)[n] == a[n].1 && seconds(b)[n] == b[n].1);
        let fa = file_fields(a);
        let fb = file_fields(b);
        let mid = field(a.last().0);
        assert(fa == file_fields(x) + mid + a.last().1.push(0));
        assert(fb == file_fields(y) + mid + b.last().1.push(0));
        let k = file_fields(x).len() as int;
        assert(file_fields(y).len() == k);
        assert(file_fields(x) =~= fa.take(k));
        assert(file_fields(y) =~= fb.take(k));
        assert forall|i: int| 0 <= i < 32 implies a.last().1[i] == b.last().1[i] by {
            assert(fa[k + mid.len() + i] == a.last().1[i]);
            assert(fb[k + mid.len() + i] == b.last().1[i]);
        }
        assert(a.last().1 =~= b.last().1);
        assert(names_of(x) =~= names_of(a).drop_last());
        assert(names_of(y) =~= names_of(b).drop_last());
        assert(seconds(x) =~= seconds(a).drop_last());
        assert(seconds(y) =~= seconds(b).drop_last());
        lemma_file_fields_injective(x, y);
        assert(a =~= x.push(a.last()));
        assert(b =~= y.push(b.last()));
    }
}

/// The contents of the inputs count: where the same files are read, the bytes
/// to hash are the same only if each file has the same content hash.
pub proof fn law_contents_count(
    command: Seq<char>,
    cwd: Seq<char>,
    env: Seq<(Seq<char>, Seq<char>)>,
    triple: Seq<char>,
    version: Seq<char>,
    a: Seq<(Seq<char>, Seq<u8>)>,
    b: Seq<(Seq<char>, Seq<u8>)>,
    structurals: Seq<StructuralContribution>,
    dep_outputs: Seq<Seq<u8>>,
)
    requires
        names_of(a) == names_of(b),
        all_hashes(seconds(a)),
        all_hashes(seconds(b)),
        key_bytes(command, cwd, env, triple, version, a, structurals, dep_outputs) == key_bytes(command, cwd, env, triple, version, b, structurals, dep_outputs),
    ensures
        a == b,
{
    let front = field("v1"@) + (field("cmd"@) + field(command)) + (field("cwd"@) + field(cwd)) + env_section(env, triple, version) + field("file_inputs"@);
    let back = (field("structural_inputs"@) + structural_fields(structurals)) + (field("dep_outputs"@) + hash_fields(sorted_bytes(dep_outputs)));
    assert(key_bytes(command, cwd, env, triple, version, a, structurals, dep_outputs) =~= front + file_fields(a) + back);
    assert(key_bytes(command, cwd, env, triple, version, b, structurals, dep_outputs) =~= front + file_fields(b) + back);
    lemma_between(front, file_fields(a), file_fields(b), back);
    lemma_file_fields_injective(a, b);
}

proof fn lemma_structural_fields_injective(a: Seq<StructuralContribution>, b: Seq<StructuralContribution>)
    requires
        a.len() == b.len(),
        forall|i: int| 0 <= i < a.len() ==> same_reading(#[trigger] a[i], b[i]),
        structural_fields(a) == structural_fields(b),
    ensures
        forall|i: int| 0 <= i < a.len() ==> (#[trigger] a[i]).fingerprint@ == b[i].fingerprint@,
    decreases a.len(),
{
    if a.len() > 0 {
        let x = a.drop_last();
        let y = b.drop_last();
        let n = a.len() - 1;
        assert(same_reading(a[n], b[n]));
        a[n].fingerprint.lemma_len();
        b[n].fingerprint.lemma_len();
        let mid = fields(strs(a[n].files@)) + field("|"@) + fields(strs(a[n].lines@)) + field("|"@) + fields(strs(a[n].scope@)) + field("|"@);
        let fa = structural_fields(a);
        let fb = structural_fields(b);
        let k = structural_fields(x).len() as int;
        assert(fa == structural_fields(x) + (mid + a[n].fingerprint@.push(0)));
        assert(fb == structural_fields(y) + (mid + b[n].fingerprint@.push(0)));
        assert(structural_fields(y).len() == k);
        assert(structural_fields(x) =~= fa.take(k));
        assert(structural_fields(y) =~= fb.take(k));
        assert forall|i: int| 0 <= i < 32 implies a[n].fingerprint@[i] == b[n].fingerprint@[i] by {
            assert(fa[k + mid.len() + i] == a[n].fingerprint@[i]);
            assert(fb[k + mid.len() + i] == b[n].fingerprint@[i]);
        }
        assert(a[n].fingerprint@ =~= b[n].fingerprint@);
        assert forall|i: int| 0 <= i < x.len() implies same_reading(#[trigger] x[i], y[i]) by {
            assert(same_reading(a[i], b[i]));
        }
        lemma_structural_fields_injective(x, y);
        assert forall|i: int| 0 <= i < a.len() implies (#[trigger] a[i]).fingerprint@ == b[i].fingerprint@ by {
            if i < n {
                assert(x[i] == a[i] && y[i] == b[i]);
            }
        }
    }
}

/// Two fingerprint inputs read the same files, lines and scope.
pub open spec fn same_reading(a: StructuralContribution, b: StructuralContribution) -> bool {
    strs(a.files@) == strs(b.files@) && strs(a.lines@) == strs(b.lines@) && strs(a.scope@) == strs(b.scope@)
}

/// The fingerprints count: where the fingerprint inputs read the same, the bytes
/// to hash are the same only if each has the same fingerprint.
pub proof fn law_fingerprints_count(
    command: Seq<char>,
    cwd: Seq<char>,
    env: Seq<(Seq<char>, Seq<char>)>,
    triple: Seq<char>,
    version: Seq<char>,
    files: Seq<(Seq<char>, Seq<u8>)>,
    a: Seq<StructuralContribution>,
    b: Seq<StructuralContribution>,
    dep_outputs: Seq<Seq<u8>>,
)
    requires
        a.len() == b.len(),
        forall|i: int| 0 <= i < a.len() ==> same_reading(#[trigger] a[i], b[i]),
        key_bytes(command, cwd, env, triple, version, files, a, dep_outputs) == key_bytes(command, cwd, env, triple, version, files, b, dep_outputs),
    ensures
        forall|i: int| 0 <= i < a.len() ==> (#[trigger] a[i]).fingerprint@ == b[i].fingerprint@,
{
    let front = field("v1"@) + (field("cmd"@) + field(command)) + (field("cwd"@) + field(cwd)) + env_section(env, triple, version) + (field("file_inputs"@) + file_fields(files)) + field("structural_inputs"@);
    let back = field("dep_outputs"@) + hash_fields(sorted_bytes(dep_outputs));
    assert(key_bytes(command, cwd, env, triple, version, files, a, dep_outputs) =~= front + structural_fields(a) + back);
    assert(key_bytes(command, cwd, env, triple, version, files, b, dep_outputs) =~= front + structural_fields(b) + back);
    lemma_between(front, structural_fields(a), structural_fields(b), back);
    lemma_structural_fields_injective(a, b);
}

proof fn lemma_hash_fields_injective(a: Seq<Seq<u8>>, b: Seq<Seq<u8>>)
    requires
        all_hashes(a),
        all_hashes(b),
        hash_fields(a) == hash_fields(b),
    ensures
        a == b,
    decreases a.len(),
{
    if a.len() > 0 {
        assert(a[a.len() - 1].len() == 32);
        assert(hash_fields(a).len() == hash_fields(a.drop_last()).len() + 33);
    }
    if b.len() > 0 {
        assert(b[b.len() - 1].len() == 32);
        assert(hash_fields(b).len() == hash_fields(b.drop_last()).len() + 33);
    }
    if a.len() == 0 || b.len() == 0 {
        assert(a.len() == 0 && b.len() == 0);
        assert(a =~= b);
    } else {
        let x = a.drop_last();
        let y = b.drop_last();
        let fa = hash_fields(a);
        let fb = hash_fields(b);
        assert(fa == hash_fields(x) + a.last().push(0));
        assert(fb == hash_fields(y) + b.last().push(0));
        let k = hash_fields(x).len() as int;
        assert(hash_fields(y).len() == k);
        assert(hash_fields(x) =~= fa.take(k));
        assert(hash_fields(y) =~= fb.take(k));
        assert forall|i: int| 0 <= i < 32 implies a.last()[i] == b.last()[i] by {
            assert(fa[k + i] == a.last()[i]);
            assert(fb[k + i] == b.last()[i]);
        }
        assert(a.last() =~= b.last());
        assert forall|i: int| 0 <= i < x.len() implies (#[trigger] x[i]).len() == 32 by {
            assert(x[i] == a[i]);
        }
        assert forall|i: int| 0 <= i < y.len() implies (#[trigger] y[i]).len() == 32 by {
            assert(y[i] == b[i]);
        }
        lemma_hash_fields_injective(x, y);
        assert(a =~= x.push(a.last()));
        assert(b =~= y.push(b.last()));
    }
}

/// The outputs of the dependencies count: the bytes to hash are the same only
/// if the same output hashes occur, each as often.
pub proof fn law_dependencies_count(
    command: Seq<char>,
    cwd: Seq<char>,
    env: Seq<(Seq<char>, Seq<char>)>,
    triple: Seq<char>,
    version: Seq<char>,
    files: Seq<(Seq<char>, Seq<u8>)>,
    structurals: Seq<StructuralContribution>,
    a: Seq<Seq<u8>>,
    b: Seq<Seq<u8>>,
)
    requires
        all_hashes(a),
        all_hashes(b),
        key_bytes(command, cwd, env, triple, version, files, structurals, a) == key_bytes(command, cwd, env, triple, version, files, structurals, b),
    ensures
        a.to_multiset() == b.to_multiset(),
{
    let front = field("v1"@) + (field("cmd"@) + field(command)) + (field("cwd"@) + field(cwd)) + env_section(env, triple, version) + (field("file_inputs"@) + file_fields(files)) + (field("structural_inputs"@) + structural_fields(structurals)) + field("dep_outputs"@);
    let back = Seq::<u8>::empty();
    let x = sorted_bytes(a);
    let y = sorted_bytes(b);
    assert(key_bytes(command, cwd, env, triple, version, files, structurals, a) =~= front + hash_fields(x) + back);
    assert(key_bytes(command, cwd, env, triple, version, files, structurals, b) =~= front + hash_fields(y) + back);
    lemma_between(front, hash_fields(x), hash_fields(y), back);
    assert forall|i: int| 0 <= i < x.len() implies (#[trigger] x[i]).len() == 32 by {
        crate::order::lemma_arranged_members(a, a, x[i]);
        assert(x.contains(x[i]));
    }
    assert forall|i: int| 0 <= i < y.len() implies (#[trigger] y[i]).len() == 32 by {
        crate::order::lemma_arranged_members(b, b, y[i]);
        assert(y.contains(y[i]));
    }
    lemma_hash_fields_injective(x, y);
    crate::order::lemma_sorted_bytes_properties(a);
    crate::order::lemma_sorted_bytes_properties(b);
}

/// The input files count, path by path: the bytes to hash are the same only if
/// the same paths are read in the same order, each with the same content.
pub proof fn law_inputs_count(
    command: Seq<char>,
    cwd: Seq<char>,
    env: Seq<(Seq<char>, Seq<char>)>,
    triple: Seq<char>,
    version: Seq<char>,
    a: Seq<(Seq<char>, Seq<u8>)>,
    b: Seq<(Seq<char>, Seq<u8>)>,
    structurals: Seq<StructuralContribution>,
    dep_outputs: Seq<Seq<u8>>,
)
    requires
        all_plain(names_of(a)),
        all_plain(names_of(b)),
        all_hashes(seconds(a)),
        all_hashes(seconds(b)),
        key_bytes(command, cwd, env, triple, version, a, structurals, dep_outputs) == key_bytes(command, cwd, env, triple, version, b, structurals, dep_outputs),
    ensures
        names_of(a) == names_of(b),
        seconds(a) == seconds(b),
        a == b,
{
    let front = field("v1"@) + (field("cmd"@) + field(command)) + (field("cwd"@) + field(cwd)) + env_section(env, triple, version) + field("file_inputs"@);
    let back = (field("structural_inputs"@) + structural_fields(structurals)) + (field("dep_outputs"@) + hash_fields(sorted_bytes(dep_outputs)));
    assert(key_bytes(command, cwd, env, triple, version, a, structurals, dep_outputs) =~= front + file_fields(a) + back);
    assert(key_bytes(command, cwd, env, triple, version, b, structurals, dep_outputs) =~= front + file_fields(b) + back);
    lemma_between(front, file_fields(a), file_fields(b), back);
    lemma_listing_read(a, b);
}

/// The environment section shows every variable, by name and value.
pub proof fn lemma_env_section_read(a: Seq<(Seq<char>, Seq<char>)>, b: Seq<(Seq<char>, Seq<char>)>, triple: Seq<char>, version: Seq<char>)
    requires
        is_environment(a),
        is_environment(b),
        env_section(a, triple, version) == env_section(b, triple, version),
    ensures
        sorted_pairs(a) == sorted_pairs(b),
        forall|x: (Seq<char>, Seq<char>)| a.contains(x) <==> b.contains(x),
{
    let sa = sorted_pairs(a);
    let sb = sorted_pairs(b);
    let head = field("env"@);
    let t1 = utf8("GIANT_TARGET_TRIPLE="@);
    let t2 = field(triple);
    let t3 = utf8("GIANT_VERSION="@);
    let t4 = field(version);
    lemma_env_tail(head, env_fields(sa), t1, t2, t3, t4);
    lemma_env_tail(head, env_fields(sb), t1, t2, t3, t4);
    lemma_between(head, env_fields(sa), env_fields(sb), t1 + t2 + t3 + t4);
    lemma_sorted_environment(a);
    lemma_sorted_environment(b);
    lemma_env_read(sa, sb);
    assert forall|x: (Seq<char>, Seq<char>)| a.contains(x) <==> b.contains(x) by {
        assert(sa.contains(x) <==> a.contains(x));
        assert(sb.contains(x) <==> b.contains(x));
    }
}

proof fn lemma_sorted_environment(a: Seq<(Seq<char>, Seq<char>)>)
    ensures
        is_environment(a) ==> is_environment(sorted_pairs(a)),
        forall|x: (Seq<char>, Seq<char>)| #[trigger] sorted_pairs(a).contains(x) <==> a.contains(x),
{
    let s = sorted_pairs(a);
    assert forall|x: (Seq<char>, Seq<char>)| #[trigger] s.contains(x) <==> a.contains(x) by {
        crate::order::lemma_arranged_members(a, encoded(names_of(a)), x);
    }
    if is_environment(a) {
        assert forall|i: int| 0 <= i < s.len() implies is_plain((#[trigger] s[i]).0) && is_plain(s[i].1) && !s[i].0.contains('=') by {
            assert(s.contains(s[i]));
            let k = choose|k: int| 0 <= k < a.len() && a[k] == s[i];
            assert(is_plain(a[k].0));
        }
    }
}

/// The environment counts, name by name: the bytes to hash are the same only if
/// the same variables are set, each to the same value.
pub proof fn law_variables_count(
    command: Seq<char>,
    cwd: Seq<char>,
    a: Seq<(Seq<char>, Seq<char>)>,
    b: Seq<(Seq<char>, Seq<char>)>,
    triple: Seq<char>,
    version: Seq<char>,
    files: Seq<(Seq<char>, Seq<u8>)>,
    structurals: Seq<StructuralContribution>,
    dep_outputs: Seq<Seq<u8>>,
)
    requires
        is_environment(a),
        is_environment(b),
        key_bytes(command, cwd, a, triple, version, files, structurals, dep_outputs) == key_bytes(command, cwd, b, triple, version, files, structurals, dep_outputs),
    ensures
        forall|x: (Seq<char>, Seq<char>)| a.contains(x) <==> b.contains(x),
{
    let front = field("v1"@) + (field("cmd"@) + field(command)) + (field("cwd"@) + field(cwd));
    let f = field("file_inputs"@) + file_fields(files);
    let g = field("structural_inputs"@) + structural_fields(structurals);
    let d = field("dep_outputs"@) + hash_fields(sorted_bytes(dep_outputs));
    let x = env_section(a, triple, version);
    let y = env_section(b, triple, version);
    lemma_regroup_end(front, x, f, g);
    lemma_regroup_end(front, x, f + g, d);
    lemma_regroup_end(front, y, f, g);
    lemma_regroup_end(front, y, f + g, d);
    lemma_between(front, x, y, f + g + d);
    lemma_env_section_read(a, b, triple, version);
}

/// The fingerprint inputs count: the bytes to hash are the same only if the same
/// files, lines and scopes are read, with the same fingerprints.
pub proof fn law_readings_count(
    command: Seq<char>,
    cwd: Seq<char>,
    env: Seq<(Seq<char>, Seq<char>)>,
    triple: Seq<char>,
    version: Seq<char>,
    files: Seq<(Seq<char>, Seq<u8>)>,
    a: Seq<StructuralContribution>,
    b: Seq<StructuralContribution>,
    dep_outputs: Seq<Seq<u8>>,
)
    requires
        all_readings(a),
        all_readings(b),
        key_bytes(command, cwd, env, triple, version, files, a, dep_outputs) == key_bytes(command, cwd, env, triple, version, files, b, dep_outputs),
    ensures
        same_structurals(a, b),
{
    let front = field("v1"@) + (field("cmd"@) + field(command)) + (field("cwd"@) + field(cwd)) + env_section(env, triple, version) + (field("file_inputs"@) + file_fields(files)) + field("structural_inputs"@);
    let back = field("dep_outputs"@) + hash_fields(sorted_bytes(dep_outputs));
    assert(key_bytes(command, cwd, env, triple, version, files, a, dep_outputs) =~= front + structural_fields(a) + back);
    assert(key_bytes(command, cwd, env, triple, version, files, b, dep_outputs) =~= front + structural_fields(b) + back);
    lemma_between(front, structural_fields(a), structural_fields(b), back);
    lemma_structurals_read(a, b);
}

/// Everything that goes into a key.
pub ghost struct KeyParts {
    pub command: Seq<char>,
    pub cwd: Seq<char>,
    pub env: Seq<(Seq<char>, Seq<char>)>,
    pub triple: Seq<char>,
    pub version: Seq<char>,
    pub files: Seq<(Seq<char>, Seq<u8>)>,
    pub structurals: Seq<StructuralContribution>,
    pub dep_outputs: Seq<Seq<u8>>,
}

impl KeyParts {
    /// The bytes to hash.
    pub open spec fn bytes(self) -> Seq<u8> {
        key_bytes(self.command, self.cwd, self.env, self.triple, self.version, self.files, self.structurals, self.dep_outputs)
    }

    /// No text holds what ends a field, and no file has the name of a section.
    pub open spec fn is_plain(self) -> bool {
        &&& is_plain(self.command)
        &&& is_plain(self.cwd)
        &&& is_environment(self.env)
        &&& is_plain(self.triple)
        &&& is_plain(self.version)
        &&& is_listing(self.files)
        &&& !names_of(self.files).contains("structural_inputs"@)
        &&& all_readings(self.structurals)
        &&& reads_no(self.structurals, "dep_outputs"@)
        &&& all_hashes(self.dep_outputs)
    }

    spec fn variables(self) -> Seq<(Seq<char>, Seq<char>)> {
        all_variables(self.env, self.triple, self.version)
    }

    /// What stands behind the fingerprint inputs.
    spec fn after_structurals(self) -> Seq<u8> {
        hash_fields(sorted_bytes(self.dep_outputs))
    }

    spec fn after_files(self) -> Seq<u8> {
        structural_fields(self.structurals) + (field("dep_outputs"@) + self.after_structurals())
    }

    spec fn after_env(self) -> Seq<u8> {
        file_fields(self.files) + (field("structural_inputs"@) + self.after_files())
    }

    spec fn after_cwd(self) -> Seq<u8> {
        field("env"@) + (env_fields(self.variables()) + (field("file_inputs"@) + self.after_env()))
    }

    spec fn after_command(self) -> Seq<u8> {
        field("cwd"@) + (field(self.cwd) + self.after_cwd())
    }

    proof fn lemma_shape(self)
        ensures
            self.bytes() == field("v1"@) + (field("cmd"@) + (field(self.command) + self.after_command())),
    {
        lemma_env_section_shape(self.env, self.triple, self.version);
        let v = env_fields(self.variables());
        let f = file_fields(self.files);
        let s = structural_fields(self.structurals);
        let d = self.after_structurals();
        lemma_nested(field("v1"@), field("cmd"@), field(self.command), field("cwd"@), field(self.cwd), field("env"@), v, field("file_inputs"@), f, field("structural_inputs"@), s, field("dep_outputs"@), d);
    }
}

/// The variables by name, with what is built in behind.
pub open spec fn all_variables(env: Seq<(Seq<char>, Seq<char>)>, triple: Seq<char>, version: Seq<char>) -> Seq<(Seq<char>, Seq<char>)> {
    sorted_pairs(env).push(("GIANT_TARGET_TRIPLE"@, triple)).push(("GIANT_VERSION"@, version))
}

/// The environment section is a row of variables.
pub proof fn lemma_env_section_shape(env: Seq<(Seq<char>, Seq<char>)>, triple: Seq<char>, version: Seq<char>)
    ensures
        env_section(env, triple, version) == field("env"@) + env_fields(all_variables(env, triple, version)),
{
    let s = sorted_pairs(env);
    let t = s.push(("GIANT_TARGET_TRIPLE"@, triple));
    let v = all_variables(env, triple, version);
    assert(v.drop_last() =~= t && t.drop_last() =~= s);
    reveal_strlit("GIANT_TARGET_TRIPLE");
    reveal_strlit("GIANT_TARGET_TRIPLE=");
    reveal_strlit("GIANT_VERSION");
    reveal_strlit("GIANT_VERSION=");
    reveal_strlit("=");
    assert("GIANT_TARGET_TRIPLE="@ =~= "GIANT_TARGET_TRIPLE"@ + "="@);
    assert("GIANT_VERSION="@ =~= "GIANT_VERSION"@ + "="@);
    lemma_utf8_concat("GIANT_TARGET_TRIPLE"@, "="@);
    lemma_utf8_concat("GIANT_VERSION"@, "="@);
    assert(env_fields(v) == env_fields(t) + utf8("GIANT_VERSION"@) + utf8("="@) + field(version));
    assert(env_fields(t) == env_fields(s) + utf8("GIANT_TARGET_TRIPLE"@) + utf8("="@) + field(triple));
    assert(env_section(env, triple, version) =~= field("env"@) + env_fields(v));
}

proof fn lemma_all_variables(env: Seq<(Seq<char>, Seq<char>)>, triple: Seq<char>, version: Seq<char>)
    requires
        is_environment(env),
        is_plain(triple),
        is_plain(version),
    ensures
        is_environment(all_variables(env, triple, version)),
{
    lemma_sorted_environment(env);
    let s = sorted_pairs(env);
    let v = all_variables(env, triple, version);
    reveal_strlit("GIANT_TARGET_TRIPLE");
    reveal_strlit("GIANT_VERSION");
    assert forall|i: int| 0 <= i < v.len() implies is_plain((#[trigger] v[i]).0) && is_plain(v[i].1) && !v[i].0.contains('=') by {
        if i < s.len() {
            assert(v[i] == s[i]);
        }
    }
}

/// An environment section up to a mark that is no assignment can be read back.
pub proof fn lemma_env_section_to_mark(
    a: Seq<(Seq<char>, Seq<char>)>,
    a_triple: Seq<char>,
    a_version: Seq<char>,
    x: Seq<u8>,
    b: Seq<(Seq<char>, Seq<char>)>,
    b_triple: Seq<char>,
    b_version: Seq<char>,
    y: Seq<u8>,
    mark: Seq<char>,
)
    requires
        is_environment(a),
        is_environment(b),
        is_plain(a_triple) && is_plain(a_version),
        is_plain(b_triple) && is_plain(b_version),
        is_plain(mark),
        !mark.contains('='),
        env_fields(all_variables(a, a_triple, a_version)) + (field(mark) + x) == env_fields(all_variables(b, b_triple, b_version)) + (field(mark) + y),
    ensures
        forall|e: (Seq<char>, Seq<char>)| a.contains(e) <==> b.contains(e),
        a_triple == b_triple,
        a_version == b_version,
        x == y,
{
    let va = all_variables(a, a_triple, a_version);
    let vb = all_variables(b, b_triple, b_version);
    lemma_all_variables(a, a_triple, a_version);
    lemma_all_variables(b, b_triple, b_version);
    lemma_env_to_mark(va, x, vb, y, mark);
    let n = va.len() as int;
    let sa = sorted_pairs(a);
    let sb = sorted_pairs(b);
    assert(va[n - 1] == vb[n - 1] && va[n - 2] == vb[n - 2]);
    assert(sa =~= va.take(n - 2));
    assert(sb =~= vb.take(n - 2));
    lemma_sorted_environment(a);
    lemma_sorted_environment(b);
    assert forall|e: (Seq<char>, Seq<char>)| a.contains(e) <==> b.contains(e) by {
        assert(sa.contains(e) <==> a.contains(e));
        assert(sb.contains(e) <==> b.contains(e));
    }
}

proof fn lemma_nested(
    v1: Seq<u8>,
    cmd: Seq<u8>,
    command: Seq<u8>,
    cwd: Seq<u8>,
    dir: Seq<u8>,
    env: Seq<u8>,
    v: Seq<u8>,
    fi: Seq<u8>,
    f: Seq<u8>,
    si: Seq<u8>,
    s: Seq<u8>,
    o: Seq<u8>,
    d: Seq<u8>,
)
    ensures
        v1 + (cmd + command) + (cwd + dir) + (env + v) + (fi + f) + (si + s) + (o + d) == v1 + (cmd + (command + (cwd + (dir + (env + (v + (fi + (f + (si + (s + (o + d))))))))))),
{
    let a = s + (o + d);
    let b = f + (si + a);
    let c = v + (fi + b);
    let e = dir + (env + c);
    assert(fi + f + (si + s) + (o + d) =~= fi + b);
    assert(env + v + (fi + b) =~= env + c);
    assert(cwd + dir + (env + c) =~= cwd + e);
    assert(v1 + (cmd + command) + (cwd + e) =~= v1 + (cmd + (command + (cwd + e))));
    let front = v1 + (cmd + command);
    assert(front + (cwd + dir) + (env + v) + (fi + f) + (si + s) + (o + d) =~= front + ((cwd + dir) + ((env + v) + (fi + f + (si + s) + (o + d)))));
}

/// A key tells targets apart: the bytes to hash are the same only if the
/// command, the directory, the variables, what is built in, the input files,
/// the fingerprint inputs and the output hashes of the dependencies all are,
/// whatever else differs.
pub proof fn law_key_tells_all(a: KeyParts, b: KeyParts)
    requires
        a.is_plain(),
        b.is_plain(),
        a.bytes() == b.bytes(),
    ensures
        a.command == b.command,
        a.cwd == b.cwd,
        forall|x: (Seq<char>, Seq<char>)| a.env.contains(x) <==> b.env.contains(x),
        a.triple == b.triple,
        a.version == b.version,
        a.files == b.files,
        same_structurals(a.structurals, b.structurals),
        a.dep_outputs.to_multiset() == b.dep_outputs.to_multiset(),
{
    lemma_read_command(a, b);
    lemma_read_variables(a, b);
    lemma_read_files(a, b);
    lemma_read_dependencies(a, b);
}

proof fn lemma_read_command(a: KeyParts, b: KeyParts)
    requires
        a.is_plain(),
        b.is_plain(),
        a.bytes() == b.bytes(),
    ensures
        a.command == b.command,
        a.cwd == b.cwd,
        a.after_cwd() == b.after_cwd(),
{
    a.lemma_shape();
    b.lemma_shape();
    let x = field(a.command) + a.after_command();
    let y = field(b.command) + b.after_command();
    lemma_same_head(field("v1"@), field("cmd"@) + x, field("cmd"@) + y);
    lemma_same_head(field("cmd"@), x, y);
    lemma_field_head(a.command, a.after_command(), b.command, b.after_command());
    lemma_same_head(field("cwd"@), field(a.cwd) + a.after_cwd(), field(b.cwd) + b.after_cwd());
    lemma_field_head(a.cwd, a.after_cwd(), b.cwd, b.after_cwd());
}

proof fn lemma_read_variables(a: KeyParts, b: KeyParts)
    requires
        a.is_plain(),
        b.is_plain(),
        a.after_cwd() == b.after_cwd(),
    ensures
        forall|x: (Seq<char>, Seq<char>)| a.env.contains(x) <==> b.env.contains(x),
        a.triple == b.triple,
        a.version == b.version,
        a.after_env() == b.after_env(),
{
    let va = a.variables();
    let vb = b.variables();
    lemma_same_head(field("env"@), env_fields(va) + (field("file_inputs"@) + a.after_env()), env_fields(vb) + (field("file_inputs"@) + b.after_env()));
    assert(is_plain("file_inputs"@) && !"file_inputs"@.contains('=')) by {
        reveal_strlit("file_inputs");
    }
    lemma_env_section_to_mark(a.env, a.triple, a.version, a.after_env(), b.env, b.triple, b.version, b.after_env(), "file_inputs"@);
}

proof fn lemma_read_files(a: KeyParts, b: KeyParts)
    requires
        a.is_plain(),
        b.is_plain(),
        a.after_env() == b.after_env(),
    ensures
        a.files == b.files,
        same_structurals(a.structurals, b.structurals),
        a.after_structurals() == b.after_structurals(),
{
    assert(is_plain("structural_inputs"@)) by {
        reveal_strlit("structural_inputs");
    }
    lemma_listing_to_mark(a.files, a.after_files(), b.files, b.after_files(), "structural_inputs"@);
    assert(is_plain("dep_outputs"@) && "dep_outputs"@ != "|"@) by {
        reveal_strlit("dep_outputs");
        reveal_strlit("|");
        assert("dep_outputs"@.len() != "|"@.len());
    }
    lemma_structurals_to_mark(a.structurals, a.after_structurals(), b.structurals, b.after_structurals(), "dep_outputs"@);
}

proof fn lemma_read_dependencies(a: KeyParts, b: KeyParts)
    requires
        a.is_plain(),
        b.is_plain(),
        a.after_structurals() == b.after_structurals(),
    ensures
        a.dep_outputs.to_multiset() == b.dep_outputs.to_multiset(),
{
    lemma_sorted_hashes(a.dep_outputs);
    lemma_sorted_hashes(b.dep_outputs);
    lemma_hash_fields_injective(sorted_bytes(a.dep_outputs), sorted_bytes(b.dep_outputs));
    crate::order::lemma_sorted_bytes_properties(a.dep_outputs);
    crate::order::lemma_sorted_bytes_properties(b.dep_outputs);
}

proof fn lemma_sorted_hashes(v: Seq<Seq<u8>>)
    requires
        all_hashes(v),
    ensures
        all_hashes(sorted_bytes(v)),
{
    let x = sorted_bytes(v);
    assert forall|i: int| 0 <= i < x.len() implies (#[trigger] x[i]).len() == 32 by {
        crate::order::lemma_arranged_members(v, v, x[i]);
        assert(x.contains(x[i]));
    }
}

/// The bytes whose hash is the key of a target.
pub open spec fn target_bytes(
    spec: TargetSpec,
    built_in: BuiltIn,
    files: Seq<FileInputContribution>,
    structurals: Seq<StructuralContribution>,
    dep_outputs: Seq<ContentHash>,
) -> Seq<u8> {
    key_bytes(
        spec.command@,
        spec.cwd@,
        env_views(spec.env@),
        built_in.target_triple@,
        built_in.version@,
        file_views(files),
        structurals,
        hash_views(dep_outputs),
    )
}

/// No text of a target holds a zero character, no name of a variable an equals
/// sign, and no file it reads has the name of a section of the key.
pub open spec fn plain_target(
    spec: TargetSpec,
    built_in: BuiltIn,
    files: Seq<FileInputContribution>,
    structurals: Seq<StructuralContribution>,
) -> bool {
    &&& is_plain(spec.command@) && is_plain(spec.cwd@)
    &&& is_plain(built_in.target_triple@) && is_plain(built_in.version@)
    &&& forall|i: int| 0 <= i < spec.env@.len() ==> is_plain((#[trigger] spec.env@[i]).0@) && is_plain(spec.env@[i].1@) && !spec.env@[i].0@.contains('=')
    &&& forall|i: int| 0 <= i < files.len() ==> is_plain((#[trigger] files[i]).rel_path@) && files[i].rel_path@ != "structural_inputs"@
    &&& all_readings(structurals)
    &&& reads_no(structurals, "dep_outputs"@)
}

/// The target sets that variable to that value.
pub open spec fn sets(spec: TargetSpec, name: Seq<char>, value: Seq<char>) -> bool {
    exists|j: int| 0 <= j < spec.env@.len() && (#[trigger] spec.env@[j]).0@ == name && spec.env@[j].1@ == value
}

/// Every variable of `a` is set to the same value in `b`.
pub open spec fn sets_all(a: TargetSpec, b: TargetSpec) -> bool {
    forall|i: int| 0 <= i < a.env@.len() ==> sets(b, (#[trigger] a.env@[i]).0@, a.env@[i].1@)
}

/// Where the variables of `a` are among those of `b`, `b` sets them all.
pub proof fn lemma_sets_all(a: TargetSpec, b: TargetSpec)
    requires
        forall|x: (Seq<char>, Seq<char>)| env_views(a.env@).contains(x) ==> env_views(b.env@).contains(x),
    ensures
        sets_all(a, b),
{
    let va = env_views(a.env@);
    let vb = env_views(b.env@);
    assert forall|i: int| 0 <= i < a.env@.len() implies sets(b, (#[trigger] a.env@[i]).0@, a.env@[i].1@) by {
        assert(va[i] == (a.env@[i].0@, a.env@[i].1@));
        assert(va.contains(va[i]));
        assert(vb.contains(va[i]));
        let j = choose|j: int| 0 <= j < vb.len() && vb[j] == va[i];
        assert(vb[j] == (b.env@[j].0@, b.env@[j].1@));
        assert(b.env@[j].0@ == a.env@[i].0@);
    }
}

/// Two targets have the same bytes to hash only if they run the same command in
/// the same directory under the same variables, were resolved by the same
/// engine for the same platform, read the same files with the same contents and
/// the same fingerprints, and depend on the same outputs.
pub proof fn law_same_key_same_target(
    spec: TargetSpec,
    built_in: BuiltIn,
    files: Seq<FileInputContribution>,
    structurals: Seq<StructuralContribution>,
    dep_outputs: Seq<ContentHash>,
    other_spec: TargetSpec,
    other_built_in: BuiltIn,
    other_files: Seq<FileInputContribution>,
    other_structurals: Seq<StructuralContribution>,
    other_dep_outputs: Seq<ContentHash>,
)
    requires
        plain_target(spec, built_in, files, structurals),
        plain_target(other_spec, other_built_in, other_files, other_structurals),
        target_bytes(spec, built_in, files, structurals, dep_outputs) == target_bytes(other_spec, other_built_in, other_files, other_structurals, other_dep_outputs),
    ensures
        spec.command@ == other_spec.command@,
        spec.cwd@ == other_spec.cwd@,
        sets_all(spec, other_spec),
        sets_all(other_spec, spec),
        built_in.target_triple@ == other_built_in.target_triple@,
        built_in.version@ == other_built_in.version@,
        files.len() == other_files.len(),
        forall|i: int| 0 <= i < files.len() ==> (#[trigger] files[i]).rel_path@ == other_files[i].rel_path@ && files[i].content_hash@ == other_files[i].content_hash@,
        structurals.len() == other_structurals.len(),
        forall|i: int| 0 <= i < structurals.len() ==> same_structural(#[trigger] structurals[i], other_structurals[i]),
        dep_outputs.map_values(|h: ContentHash| h@).to_multiset() == other_dep_outputs.map_values(|h: ContentHash| h@).to_multiset(),
{
    let a = KeyParts {
        command: spec.command@,
        cwd: spec.cwd@,
        env: env_views(spec.env@),
        triple: built_in.target_triple@,
        version: built_in.version@,
        files: file_views(files),
        structurals,
        dep_outputs: hash_views(dep_outputs),
    };
    let b = KeyParts {
        command: other_spec.command@,
        cwd: other_spec.cwd@,
        env: env_views(other_spec.env@),
        triple: other_built_in.target_triple@,
        version: other_built_in.version@,
        files: file_views(other_files),
        structurals: other_structurals,
        dep_outputs: hash_views(other_dep_outputs),
    };
    lemma_plain_parts(spec, built_in, files, structurals, dep_outputs);
    lemma_plain_parts(other_spec, other_built_in, other_files, other_structurals, other_dep_outputs);
    law_key_tells_all(a, b);
    lemma_sets_all(spec, other_spec);
    lemma_sets_all(other_spec, spec);
    assert(files.len() == a.files.len() && other_files.len() == b.files.len());
    assert forall|i: int| 0 <= i < files.len() implies (#[trigger] files[i]).rel_path@ == other_files[i].rel_path@ && files[i].content_hash@ == other_files[i].content_hash@ by {
        assert(a.files[i] == (files[i].rel_path@, files[i].content_hash@));
        assert(b.files[i] == (other_files[i].rel_path@, other_files[i].content_hash@));
    }
    assert(dep_outputs.map_values(|h: ContentHash| h@) =~= hash_views(dep_outputs));
    assert(other_dep_outputs.map_values(|h: ContentHash| h@) =~= hash_views(other_dep_outputs));
}

proof fn lemma_plain_parts(
    spec: TargetSpec,
    built_in: BuiltIn,
    files: Seq<FileInputContribution>,
    structurals: Seq<StructuralContribution>,
    dep_outputs: Seq<ContentHash>,
)
    requires
        plain_target(spec, built_in, files, structurals),
    ensures
        is_environment(env_views(spec.env@)),
        is_listing(file_views(files)),
        !names_of(file_views(files)).contains("structural_inputs"@),
        all_hashes(hash_views(dep_outputs)),
{
    let ev = env_views(spec.env@);
    assert forall|i: int| 0 <= i < ev.len() implies is_plain((#[trigger] ev[i]).0) && is_plain(ev[i].1) && !ev[i].0.contains('=') by {
        assert(is_plain(spec.env@[i].0@));
    }
    let fv = file_views(files);
    assert forall|i: int| 0 <= i < names_of(fv).len() implies is_plain(#[trigger] names_of(fv)[i]) && names_of(fv)[i] != "structural_inputs"@ by {
        assert(is_plain(files[i].rel_path@));
    }
    assert forall|i: int| 0 <= i < seconds(fv).len() implies (#[trigger] seconds(fv)[i]).len() == 32 by {
        files[i].content_hash.lemma_len();
    }
    assert forall|i: int| 0 <= i < hash_views(dep_outputs).len() implies (#[trigger] hash_views(dep_outputs)[i]).len() == 32 by {
        dep_outputs[i].lemma_len();
    }
}

/// Feeds `s` and a zero byte.
pub fn feed(h: &mut Hasher, s: &str)
    ensures
        final(h)@ == old(h)@ + field(s@),
{
    h.update_str(s);
    h.update_byte(0);
    assert(h@ == old(h)@ + field(s@));
}

/// Feeds a hash and a zero byte.
pub fn feed_hash(h: &mut Hasher, c: &ContentHash)
    ensures
        final(h)@ == old(h)@ + c@.push(0),
{
    h.update(c.as_bytes().as_slice());
    h.update_byte(0);
    assert(h@ == old(h)@ + c@.push(0));
}

/// Feeds each of `v` and a zero byte.
pub fn feed_all(h: &mut Hasher, v: &Vec<String>)
    ensures
        final(h)@ == old(h)@ + fields(strs(v@)),
{
    let ghost vv = strs(v@);
    let mut i: usize = 0;
    assert(h@ == old(h)@ + fields(vv.take(0)));
    while i < v.len()
        invariant
            i <= v.len(),
            vv == strs(v@),
            h@ == old(h)@ + fields(vv.take(i as int)),
        decreases v.len() - i,
    {
        assert(vv[i as int] == v@[i as int]@);
        assert(vv.take(i + 1).drop_last() == vv.take(i as int));
        feed(h, v[i].as_str());
        assert(h@ == old(h)@ + fields(vv.take(i + 1)));
        i = i + 1;
    }
    assert(vv.take(i as int) == vv);
}

/// The names of `env`.
fn env_keys(env: &Vec<(String, String)>) -> (r: Vec<String>)
    ensures
        strs(r@) == names_of(env_views(env@)),
{
    let mut out: Vec<String> = Vec::new();
    let mut i: usize = 0;
    while i < env.len()
        invariant
            i <= env.len(),
            out.len() == i,
            forall|k: int| 0 <= k < i ==> (#[trigger] out@[k])@ == env@[k].0@,
        decreases env.len() - i,
    {
        out.push(env[i].0.clone());
        i = i + 1;
    }
    assert(strs(out@) == names_of(env_views(env@)));
    out
}

/// The variables sorted by name.
pub fn sort_env(env: &Vec<(String, String)>) -> (r: Vec<(String, String)>)
    ensures
        env_views(r@) == sorted_pairs(env_views(env@)),
{
    let names = env_keys(env);
    let keys = crate::order::keys_of(&names);
    let order = sorted_order(&keys);
    let ghost ev = env_views(env@);
    let ghost kv = encoded(names_of(ev));
    let ghost pv = positions(order@);
    let mut out: Vec<(String, String)> = Vec::new();
    let mut i: usize = 0;
    while i < order.len()
        invariant
            i <= order.len(),
            pv == positions(order@),
            is_order(kv, pv),
            kv.len() == env.len(),
            out.len() == i,
            forall|k: int| 0 <= k < i ==> (#[trigger] out@[k]).0@ == env@[pv[k]].0@ && out@[k].1@ == env@[pv[k]].1@,
        decreases order.len() - i,
    {
        assert(pv[i as int] == order@[i as int]);
        assert(0 <= pv[i as int] < kv.len());
        let j: usize = order[i];
        out.push((env[j].0.clone(), env[j].1.clone()));
        i = i + 1;
    }
    proof {
        let s = sorted_pairs(ev);
        assert(env_views(out@).len() == s.len());
        assert forall|k: int| 0 <= k < s.len() implies env_views(out@)[k] == s[k] by {
            assert(s[k] == ev[pv[k]]);
            assert(0 <= pv[k] < kv.len());
            assert(out@[k].0@ == env@[pv[k]].0@);
        }
        assert(env_views(out@) == s);
    }
    out
}

/// Feeds the environment section.
pub fn feed_env(h: &mut Hasher, env: &Vec<(String, String)>, built_in: &BuiltIn)
    ensures
        final(h)@ == old(h)@ + env_section(env_views(env@), built_in.target_triple@, built_in.version@),
{
    feed(h, "env");
    let sorted = sort_env(env);
    let ghost sv = env_views(sorted@);
    let ghost base = old(h)@ + field("env"@);
    let mut i: usize = 0;
    assert(h@ == base + env_fields(sv.take(0)));
    while i < sorted.len()
        invariant
            i <= sorted.len(),
            sv == env_views(sorted@),
            h@ == base + env_fields(sv.take(i as int)),
        decreases sorted.len() - i,
    {
        assert(sv[i as int] == (sorted@[i as int].0@, sorted@[i as int].1@));
        assert(sv.take(i + 1).drop_last() == sv.take(i as int));
        h.update_str(sorted[i].0.as_str());
        h.update_str("=");
        feed(h, sorted[i].1.as_str());
        assert(h@ == base + env_fields(sv.take(i + 1)));
        i = i + 1;
    }
    assert(sv.take(i as int) == sv);
    h.update_str("GIANT_TARGET_TRIPLE=");
    feed(h, built_in.target_triple.as_str());
    h.update_str("GIANT_VERSION=");
    feed(h, built_in.version.as_str());
    assert(h@ == old(h)@ + env_section(env_views(env@), built_in.target_triple@, built_in.version@));
}

/// The hash of everything that feeds a target: its own declaration, what is
/// built in, the files and fingerprints its inputs resolve to, in order, and
/// the output hashes of its dependencies.
pub fn compose_cache_key(
    spec: &TargetSpec,
    built_in: &BuiltIn,
    files: &Vec<FileInputContribution>,
    structurals: &Vec<StructuralContribution>,
    dep_outputs: &Vec<ContentHash>,
) -> (r: ContentHash)
    ensures
        r@ == sha256(key_bytes(
            spec.command@,
            spec.cwd@,
            env_views(spec.env@),
            built_in.target_triple@,
            built_in.version@,
            file_views(files@),
            structurals@,
            hash_views(dep_outputs@),
        )),
        r@ == sha256(target_bytes(*spec, *built_in, files@, structurals@, dep_outputs@)),
{
    let mut h = ContentHash::hasher();
    feed(&mut h, "v1");
    feed(&mut h, "cmd");
    feed(&mut h, spec.command.as_str());
    feed(&mut h, "cwd");
    feed(&mut h, spec.cwd.as_str());
    let ghost part1 = field("v1"@) + (field("cmd"@) + field(spec.command@)) + (field("cwd"@) + field(spec.cwd@));
    assert(h@ == part1);
    feed_env(&mut h, &spec.env, built_in);
    feed(&mut h, "file_inputs");
    let ghost part2 = part1 + env_section(env_views(spec.env@), built_in.target_triple@, built_in.version@);
    feed_files(&mut h, files);
    let ghost part3 = part2 + (field("file_inputs"@) + file_fields(file_views(files@)));
    assert(h@ == part3);
    feed(&mut h, "structural_inputs");
    feed_structurals(&mut h, structurals);
    let ghost part4 = part3 + (field("structural_inputs"@) + structural_fields(structurals@));
    assert(h@ == part4);
    feed(&mut h, "dep_outputs");
    feed_dep_outputs(&mut h, dep_outputs);
    assert(h@ == part4 + (field("dep_outputs"@) + hash_fields(sorted_bytes(hash_views(dep_outputs@)))));
    h.finalize()
}

fn feed_files(h: &mut Hasher, files: &Vec<FileInputContribution>)
    ensures
        final(h)@ == old(h)@ + file_fields(file_views(files@)),
{
    let ghost fv = file_views(files@);
    let mut i: usize = 0;
    assert(h@ == old(h)@ + file_fields(fv.take(0)));
    while i < files.len()
        invariant
            i <= files.len(),
            fv == file_views(files@),
            h@ == old(h)@ + file_fields(fv.take(i as int)),
        decreases files.len() - i,
    {
        assert(fv[i as int] == (files@[i as int].rel_path@, files@[i as int].content_hash@));
        assert(fv.take(i + 1).drop_last() == fv.take(i as int));
        feed(h, files[i].rel_path.as_str());
        feed_hash(h, &files[i].content_hash);
        assert(h@ == old(h)@ + file_fields(fv.take(i + 1)));
        i = i + 1;
    }
    assert(fv.take(i as int) == fv);
}

fn feed_structurals(h: &mut Hasher, v: &Vec<StructuralContribution>)
    ensures
        final(h)@ == old(h)@ + structural_fields(v@),
{
    let mut i: usize = 0;
    assert(h@ == old(h)@ + structural_fields(v@.take(0)));
    while i < v.len()
        invariant
            i <= v.len(),
            h@ == old(h)@ + structural_fields(v@.take(i as int)),
        decreases v.len() - i,
    {
        assert(v@.take(i + 1).drop_last() == v@.take(i as int));
        let ghost before = h@;
        feed_all(h, &v[i].files);
        feed(h, "|");
        feed_all(h, &v[i].lines);
        feed(h, "|");
        feed_all(h, &v[i].scope);
        feed(h, "|");
        feed_hash(h, &v[i].fingerprint);
        assert(h@ == before + structural_field(v@[i as int]));
        assert(h@ == old(h)@ + structural_fields(v@.take(i + 1)));
        i = i + 1;
    }
    assert(v@.take(i as int) == v@);
}

fn feed_dep_outputs(h: &mut Hasher, v: &Vec<ContentHash>)
    ensures
        final(h)@ == old(h)@ + hash_fields(sorted_bytes(hash_views(v@))),
{
    let ghost hv = hash_views(v@);
    let mut keys: Vec<Vec<u8>> = Vec::new();
    let mut i: usize = 0;
    while i < v.len()
        invariant
            i <= v.len(),
            keys.len() == i,
            forall|k: int| 0 <= k < i ==> (#[trigger] keys@[k])@ == v@[k]@,
        decreases v.len() - i,
    {
        keys.push(vstd::slice::slice_to_vec(v[i].as_bytes().as_slice()));
        i = i + 1;
    }
    assert(key_views(keys@) == hv);
    let order = sorted_order(&keys);
    let ghost pv = positions(order@);
    let ghost sv = sorted_bytes(hv);
    let mut j: usize = 0;
    assert(h@ == old(h)@ + hash_fields(sv.take(0)));
    while j < order.len()
        invariant
            j <= order.len(),
            pv == positions(order@),
            pv == sort_order(hv),
            is_order(hv, pv),
            hv == hash_views(v@),
            sv == sorted_bytes(hv),
            h@ == old(h)@ + hash_fields(sv.take(j as int)),
        decreases order.len() - j,
    {
        assert(pv[j as int] == order@[j as int]);
        assert(0 <= pv[j as int] < hv.len());
        assert(sv[j as int] == hv[pv[j as int]]);
        assert(sv.take(j + 1).drop_last() == sv.take(j as int));
        feed_hash(h, &v[order[j]]);
        assert(h@ == old(h)@ + hash_fields(sv.take(j + 1)));
        j = j + 1;
    }
    assert(sv.take(j as int) == sv);
}

/// The key of a target.
pub fn compute_cache_key(
    spec: &TargetSpec,
    built_in: &BuiltIn,
    files: &Vec<FileInputContribution>,
    structurals: &Vec<StructuralContribution>,
    dep_outputs: &Vec<ContentHash>,
) -> (r: CacheKey)
    ensures
        r@ == sha256(key_bytes(
            spec.command@,
            spec.cwd@,
            env_views(spec.env@),
            built_in.target_triple@,
            built_in.version@,
            file_views(files@),
            structurals@,
            hash_views(dep_outputs@),
        )),
        r@ == sha256(target_bytes(*spec, *built_in, files@, structurals@, dep_outputs@)),
{
    CacheKey::new(compose_cache_key(spec, built_in, files, structurals, dep_outputs))
}

/// The hashes of a list of dependencies.
pub open spec fn dep_views(v: Seq<(TargetId, ContentHash)>) -> Seq<Seq<u8>> {
    v.map_values(|p: (TargetId, ContentHash)| p.1@)
}

/// The breakdown before the inputs are resolved.
pub fn empty_breakdown(spec: &TargetSpec, built_in: &BuiltIn) -> (r: CacheKeyBreakdown)
    ensures
        r.schema@ == "v1"@,
        r.command@ == spec.command@,
        r.cwd@ == spec.cwd@,
        env_views(r.user_env@) == sorted_pairs(env_views(spec.env@)),
        env_views(r.built_in_env@) == seq![("GIANT_TARGET_TRIPLE"@, built_in.target_triple@), ("GIANT_VERSION"@, built_in.version@)],
        r.file_inputs@.len() == 0,
        r.structural_inputs@.len() == 0,
        r.dep_outputs@.len() == 0,
{
    let mut env: Vec<(String, String)> = Vec::new();
    env.push((owned("GIANT_TARGET_TRIPLE"), built_in.target_triple.clone()));
    env.push((owned("GIANT_VERSION"), built_in.version.clone()));
    assert(env_views(env@) == seq![("GIANT_TARGET_TRIPLE"@, built_in.target_triple@), ("GIANT_VERSION"@, built_in.version@)]);
    CacheKeyBreakdown {
        schema: owned("v1"),
        command: spec.command.clone(),
        cwd: owned(spec.cwd.as_str()),
        user_env: sort_env(&spec.env),
        built_in_env: env,
        file_inputs: Vec::new(),
        structural_inputs: Vec::new(),
        dep_outputs: Vec::new(),
    }
}

/// The key of a target, and what went into it.
pub fn compute_cache_key_with_breakdown(
    spec: &TargetSpec,
    built_in: &BuiltIn,
    files: Vec<FileInputContribution>,
    structurals: Vec<StructuralContribution>,
    dep_outputs: Vec<(TargetId, ContentHash)>,
) -> (r: (CacheKey, CacheKeyBreakdown))
    ensures
        r.0@ == sha256(key_bytes(
            spec.command@,
            spec.cwd@,
            env_views(spec.env@),
            built_in.target_triple@,
            built_in.version@,
            file_views(files@),
            structurals@,
            dep_views(dep_outputs@),
        )),
        r.0@ == sha256(target_bytes(*spec, *built_in, files@, structurals@, dep_outputs@.map_values(|p: (TargetId, ContentHash)| p.1))),
        r.1.schema@ == "v1"@,
        r.1.command@ == spec.command@,
        r.1.cwd@ == spec.cwd@,
        env_views(r.1.user_env@) == sorted_pairs(env_views(spec.env@)),
        env_views(r.1.built_in_env@) == seq![("GIANT_TARGET_TRIPLE"@, built_in.target_triple@), ("GIANT_VERSION"@, built_in.version@)],
        r.1.file_inputs == files,
        r.1.structural_inputs == structurals,
        r.1.dep_outputs == dep_outputs,
{
    let mut hashes: Vec<ContentHash> = Vec::new();
    let mut i: usize = 0;
    while i < dep_outputs.len()
        invariant
            i <= dep_outputs.len(),
            hashes.len() == i,
            forall|k: int| 0 <= k < i ==> #[trigger] hashes@[k] == dep_outputs@[k].1,
        decreases dep_outputs.len() - i,
    {
        hashes.push(dep_outputs[i].1);
        i = i + 1;
    }
    assert(hash_views(hashes@) == dep_views(dep_outputs@));
    assert(hashes@ == dep_outputs@.map_values(|p: (TargetId, ContentHash)| p.1));
    let key = compute_cache_key(spec, built_in, &files, &structurals, &hashes);
    let bd = empty_breakdown(spec, built_in);
    let bd = CacheKeyBreakdown { file_inputs: files, structural_inputs: structurals, dep_outputs, ..bd };
    (key, bd)
}

/// The patterns of the file inputs, in order.
pub open spec fn file_globs_of(inputs: Seq<Input>) -> Seq<Seq<char>>
    decreases inputs.len(),
{
    if inputs.len() == 0 {
        Seq::<Seq<char>>::empty()
    } else {
        let rest = file_globs_of(inputs.drop_last());
        match inputs.last() {
            Input::File { glob } => rest.push(glob@),
            Input::Fingerprint { .. } => rest,
        }
    }
}

/// The patterns of the file inputs.
pub fn file_globs(inputs: &Vec<Input>) -> (r: Vec<String>)
    ensures
        strs(r@) == file_globs_of(inputs@),
{
    let mut out: Vec<String> = Vec::new();
    let mut i: usize = 0;
    while i < inputs.len()
        invariant
            i <= inputs.len(),
            strs(out@) == file_globs_of(inputs@.take(i as int)),
        decreases inputs.len() - i,
    {
        let ghost before = strs(out@);
        assert(inputs@.take(i + 1).drop_last() == inputs@.take(i as int));
        match &inputs[i] {
            Input::File { glob } => {
                out.push(owned(glob.as_str()));
                assert(strs(out@) == before.push(glob@));
            },
            Input::Fingerprint { .. } => {},
        }
        i = i + 1;
    }
    assert(inputs@.take(i as int) == inputs@);
    out
}

/// Strings as bytes that rank as the list does.
pub open spec fn list_rank(v: Seq<Seq<char>>) -> Seq<u8> {
    ranked(encoded(v))
}

/// Lexicographic order on lists of strings: a proper prefix comes first.
pub open spec fn list_lt(a: Seq<Seq<char>>, b: Seq<Seq<char>>) -> bool
    decreases a.len(),
{
    if b.len() == 0 {
        false
    } else if a.len() == 0 {
        true
    } else if a[0] != b[0] {
        str_lt(a[0], b[0])
    } else {
        list_lt(a.drop_first(), b.drop_first())
    }
}

proof fn lemma_encoded_lt(a: Seq<Seq<char>>, b: Seq<Seq<char>>)
    ensures
        keys_lt(encoded(a), encoded(b)) == list_lt(a, b),
    decreases a.len(),
{
    if a.len() > 0 && b.len() > 0 {
        assert(encoded(a)[0] == utf8(a[0]) && encoded(b)[0] == utf8(b[0]));
        assert(encoded(a).drop_first() =~= encoded(a.drop_first()));
        assert(encoded(b).drop_first() =~= encoded(b.drop_first()));
        if utf8(a[0]) == utf8(b[0]) {
            crate::text::lemma_utf8_injective(a[0], b[0]);
        }
        lemma_encoded_lt(a.drop_first(), b.drop_first());
    }
}

proof fn lemma_encoded_injective(a: Seq<Seq<char>>, b: Seq<Seq<char>>)
    ensures
        encoded(a) == encoded(b) <==> a == b,
{
    if encoded(a) == encoded(b) {
        assert(encoded(a).len() == a.len() && encoded(b).len() == b.len());
        assert forall|i: int| 0 <= i < a.len() implies a[i] == b[i] by {
            assert(encoded(a)[i] == utf8(a[i]) && encoded(b)[i] == utf8(b[i]));
            crate::text::lemma_utf8_injective(a[i], b[i]);
        }
        assert(a =~= b);
    }
}

/// The bytes of two lists of strings rank as the lists do, and are the same only
/// for the same list.
pub proof fn law_list_rank(a: Seq<Seq<char>>, b: Seq<Seq<char>>)
    ensures
        bytes_lt(list_rank(a), list_rank(b)) == list_lt(a, b),
        list_rank(a) == list_rank(b) <==> a == b,
{
    law_ranked(encoded(a), encoded(b));
    lemma_encoded_lt(a, b);
    lemma_encoded_injective(a, b);
}

/// The views of a canonical fingerprint input.
pub open spec fn structural_view(s: StructuralSpec) -> (Seq<Seq<char>>, Seq<Seq<char>>, Seq<Seq<char>>) {
    (strs(s.files@), strs(s.lines@), strs(s.scope@))
}

pub open spec fn structural_views(v: Seq<StructuralSpec>) -> Seq<(Seq<Seq<char>>, Seq<Seq<char>>, Seq<Seq<char>>)> {
    v.map_values(|s: StructuralSpec| structural_view(s))
}

/// The rank of a fingerprint input: by its files, then its lines, then its
/// scope.
pub open spec fn structural_rank(s: (Seq<Seq<char>>, Seq<Seq<char>>, Seq<Seq<char>>)) -> Seq<u8> {
    list_rank(s.0).push(0) + list_rank(s.1).push(0) + list_rank(s.2)
}

/// Fingerprint inputs in order: by their files, then their lines, then their
/// scope.
pub open spec fn structural_lt(a: (Seq<Seq<char>>, Seq<Seq<char>>, Seq<Seq<char>>), b: (Seq<Seq<char>>, Seq<Seq<char>>, Seq<Seq<char>>)) -> bool {
    list_lt(a.0, b.0) || a.0 == b.0 && (list_lt(a.1, b.1) || a.1 == b.1 && list_lt(a.2, b.2))
}

/// The bytes of two fingerprint inputs rank as the inputs do.
pub proof fn law_structural_rank(a: (Seq<Seq<char>>, Seq<Seq<char>>, Seq<Seq<char>>), b: (Seq<Seq<char>>, Seq<Seq<char>>, Seq<Seq<char>>))
    ensures
        bytes_lt(structural_rank(a), structural_rank(b)) == structural_lt(a, b),
{
    let ra = list_rank(a.1).push(0) + list_rank(a.2);
    let rb = list_rank(b.1).push(0) + list_rank(b.2);
    assert(structural_rank(a) =~= list_rank(a.0).push(0) + ra);
    assert(structural_rank(b) =~= list_rank(b.0).push(0) + rb);
    law_ranked_ended(encoded(a.0), encoded(b.0), ra, rb);
    law_ranked_ended(encoded(a.1), encoded(b.1), list_rank(a.2), list_rank(b.2));
    law_list_rank(a.2, b.2);
    lemma_encoded_lt(a.0, b.0);
    lemma_encoded_lt(a.1, b.1);
    lemma_encoded_injective(a.0, b.0);
    lemma_encoded_injective(a.1, b.1);
}

pub open spec fn structural_ranks(v: Seq<(Seq<Seq<char>>, Seq<Seq<char>>, Seq<Seq<char>>)>) -> Seq<Seq<u8>> {
    v.map_values(|s: (Seq<Seq<char>>, Seq<Seq<char>>, Seq<Seq<char>>)| structural_rank(s))
}

/// The fingerprint inputs, each with its lists sorted, in order of declaration.
pub open spec fn structurals_of(inputs: Seq<Input>) -> Seq<(Seq<Seq<char>>, Seq<Seq<char>>, Seq<Seq<char>>)>
    decreases inputs.len(),
{
    if inputs.len() == 0 {
        Seq::empty()
    } else {
        let rest = structurals_of(inputs.drop_last());
        match inputs.last() {
            Input::File { .. } => rest,
            Input::Fingerprint { files, lines, scope } => rest.push(
                (sorted_strs(globs_of(files@)), sorted_strs(strs(lines@)), sorted_strs(rel_paths_of(scope@))),
            ),
        }
    }
}

fn push_list_rank(out: &mut Vec<u8>, v: &Vec<String>)
    ensures
        final(out)@ == old(out)@ + list_rank(strs(v@)),
{
    let ghost vv = strs(v@);
    let mut i: usize = 0;
    assert(out@ == old(out)@ + list_rank(vv.take(0)));
    while i < v.len()
        invariant
            i <= v.len(),
            vv == strs(v@),
            out@ == old(out)@ + list_rank(vv.take(i as int)),
        decreases v.len() - i,
    {
        assert(vv[i as int] == v@[i as int]@);
        assert(encoded(vv.take(i + 1)).drop_last() == encoded(vv.take(i as int)));
        assert(encoded(vv.take(i + 1)).last() == utf8(vv[i as int]));
        push_key(out, v[i].as_str().as_bytes());
        assert(out@ == old(out)@ + list_rank(vv.take(i + 1)));
        i = i + 1;
    }
    assert(vv.take(i as int) == vv);
}

/// The texts of a list of patterns.
pub fn glob_texts(v: &Vec<crate::pattern::GlobPattern>) -> (r: Vec<String>)
    ensures
        strs(r@) == globs_of(v@),
{
    let mut out: Vec<String> = Vec::new();
    let mut i: usize = 0;
    while i < v.len()
        invariant
            i <= v.len(),
            out.len() == i,
            forall|k: int| 0 <= k < i ==> (#[trigger] out@[k])@ == v@[k]@,
        decreases v.len() - i,
    {
        out.push(owned(v[i].as_str()));
        i = i + 1;
    }
    assert(strs(out@) == globs_of(v@));
    out
}

/// The texts of a list of paths.
pub fn path_texts(v: &Vec<crate::paths::WsRelPath>) -> (r: Vec<String>)
    ensures
        strs(r@) == rel_paths_of(v@),
{
    let mut out: Vec<String> = Vec::new();
    let mut i: usize = 0;
    while i < v.len()
        invariant
            i <= v.len(),
            out.len() == i,
            forall|k: int| 0 <= k < i ==> (#[trigger] out@[k])@ == v@[k]@,
        decreases v.len() - i,
    {
        out.push(owned(v[i].as_str()));
        i = i + 1;
    }
    assert(strs(out@) == rel_paths_of(v@));
    out
}

/// The fingerprint inputs in canonical form and canonical order.
pub fn structural_specs(inputs: &Vec<Input>) -> (r: Vec<StructuralSpec>)
    ensures
        structural_views(r@) == arranged(structurals_of(inputs@), structural_ranks(structurals_of(inputs@))),
{
    let mut found: Vec<StructuralSpec> = Vec::new();
    let mut keys: Vec<Vec<u8>> = Vec::new();
    let mut i: usize = 0;
    while i < inputs.len()
        invariant
            i <= inputs.len(),
            keys.len() == found.len(),
            structural_views(found@) == structurals_of(inputs@.take(i as int)),
            forall|k: int| 0 <= k < keys.len() ==> (#[trigger] keys@[k])@ == structural_rank(structural_view(found@[k])),
        decreases inputs.len() - i,
    {
        let ghost before = structural_views(found@);
        let ghost found0 = found@;
        assert(inputs@.take(i + 1).drop_last() == inputs@.take(i as int));
        match &inputs[i] {
            Input::File { .. } => {},
            Input::Fingerprint { files, lines, scope } => {
                let f = glob_texts(files);
                let s = path_texts(scope);
                let one = StructuralSpec { files: sort_strings(&f), lines: sort_strings(lines), scope: sort_strings(&s) };
                let mut key: Vec<u8> = Vec::new();
                push_list_rank(&mut key, &one.files);
                key.push(0);
                push_list_rank(&mut key, &one.lines);
                key.push(0);
                push_list_rank(&mut key, &one.scope);
                assert(key@ == structural_rank(structural_view(one)));
                found.push(one);
                keys.push(key);
                assert(structural_views(found@) == before.push(structural_view(found@.last())));
            },
        }
        i = i + 1;
    }
    assert(inputs@.take(i as int) == inputs@);
    let ghost fv = structural_views(found@);
    let ghost kv = structural_ranks(fv);
    assert(key_views(keys@) == kv);
    let order = sorted_order(&keys);
    let ghost pv = positions(order@);
    let mut out: Vec<StructuralSpec> = Vec::new();
    let mut j: usize = 0;
    while j < order.len()
        invariant
            j <= order.len(),
            pv == positions(order@),
            is_order(kv, pv),
            kv.len() == found.len(),
            out.len() == j,
            forall|k: int| 0 <= k < j ==> structural_view(#[trigger] out@[k]) == structural_view(found@[pv[k]]),
        decreases order.len() - j,
    {
        assert(pv[j as int] == order@[j as int]);
        assert(0 <= pv[j as int] < kv.len());
        let s = &found[order[j]];
        out.push(StructuralSpec { files: copy_strs(&s.files), lines: copy_strs(&s.lines), scope: copy_strs(&s.scope) });
        j = j + 1;
    }
    proof {
        let a = arranged(fv, kv);
        assert forall|k: int| 0 <= k < a.len() implies structural_views(out@)[k] == a[k] by {
            assert(0 <= pv[k] < kv.len());
            assert(a[k] == fv[pv[k]]);
        }
        assert(structural_views(out@) == a);
    }
    out
}

/// `s` holds one of the characters that make it a pattern.
pub open spec fn has_metachars(s: Seq<char>) -> bool {
    s.contains('*') || s.contains('?') || s.contains('[')
}

/// Whether `s` holds `*`, `?` or `[`.
pub fn has_glob_metachars(s: &str) -> (r: bool)
    ensures
        r == has_metachars(s@),
{
    let v = crate::text::chars_of(s);
    let mut i: usize = 0;
    while i < v.len()
        invariant
            i <= v.len(),
            v@ == s@,
            forall|k: int| 0 <= k < i ==> s@[k] != '*' && s@[k] != '?' && s@[k] != '[',
        decreases v.len() - i,
    {
        let c = v[i];
        assert(s@[i as int] == c);
        if c == '*' || c == '?' || c == '[' {
            return true;
        }
        i = i + 1;
    }
    false
}

/// How an input pattern is resolved.
#[derive(Debug, Clone, Copy, PartialEq, Eq, Structural)]
pub enum GlobKind {
    /// No pattern at all: one file.
    Literal,
    /// Reads only the directories it names.
    Shallow,
    /// Crosses directories; matched against one walk of the workspace.
    Recursive,
}

pub open spec fn glob_kind_of(s: Seq<char>) -> GlobKind {
    if crate::text::occurs_in(s, "**"@) {
        GlobKind::Recursive
    } else if has_metachars(s) {
        GlobKind::Shallow
    } else {
        GlobKind::Literal
    }
}

/// How the pattern `s` is resolved.
pub fn glob_kind(s: &str) -> (r: GlobKind)
    ensures
        r == glob_kind_of(s@),
{
    if crate::text::contains(s, "**") {
        GlobKind::Recursive
    } else if has_glob_metachars(s) {
        GlobKind::Shallow
    } else {
        GlobKind::Literal
    }
}

/// Every file input counts: the patterns that are resolved for a target are
/// those of its file inputs, in order, and no others.
pub proof fn law_file_globs(inputs: Seq<Input>)
    ensures
        file_globs_of(inputs) == inputs.filter(|i: Input| i is File).map_values(|i: Input| i->glob@),
    decreases inputs.len(),
{
    reveal(Seq::filter);
    if inputs.len() > 0 {
        law_file_globs(inputs.drop_last());
        let f = inputs.drop_last().filter(|i: Input| i is File);
        assert(f.push(inputs.last()).map_values(|i: Input| i->glob@) =~= f.map_values(|i: Input| i->glob@).push(inputs.last()->glob@));
    } else {
        assert(file_globs_of(inputs) =~= inputs.filter(|i: Input| i is File).map_values(|i: Input| i->glob@));
    }
}

/// Every fingerprint input counts: the canonical list holds its files, lines and
/// scope, each sorted, and holds nothing else.
pub proof fn law_structurals(inputs: Seq<Input>, x: (Seq<Seq<char>>, Seq<Seq<char>>, Seq<Seq<char>>))
    ensures
        arranged(structurals_of(inputs), structural_ranks(structurals_of(inputs))).contains(x) <==> exists|i: int|
            0 <= i < inputs.len() && (#[trigger] inputs[i] matches Input::Fingerprint { files, lines, scope } && x == (sorted_strs(globs_of(files@)), sorted_strs(strs(lines@)), sorted_strs(rel_paths_of(scope@)))),
        arranged(structurals_of(inputs), structural_ranks(structurals_of(inputs))).len() == inputs.filter(|i: Input| i is Fingerprint).len(),
{
    let v = structurals_of(inputs);
    crate::order::lemma_arranged_members(v, structural_ranks(v), x);
    lemma_structurals_members(inputs, x);
}

proof fn lemma_structurals_members(inputs: Seq<Input>, x: (Seq<Seq<char>>, Seq<Seq<char>>, Seq<Seq<char>>))
    ensures
        structurals_of(inputs).contains(x) <==> exists|i: int|
            0 <= i < inputs.len() && (#[trigger] inputs[i] matches Input::Fingerprint { files, lines, scope } && x == (sorted_strs(globs_of(files@)), sorted_strs(strs(lines@)), sorted_strs(rel_paths_of(scope@)))),
        structurals_of(inputs).len() == inputs.filter(|i: Input| i is Fingerprint).len(),
    decreases inputs.len(),
{
    reveal(Seq::filter);
    if inputs.len() > 0 {
        let front = inputs.drop_last();
        let n = inputs.len() - 1;
        lemma_structurals_members(front, x);
        let rest = structurals_of(front);
        if inputs.last() is Fingerprint {
            crate::order::lemma_push_contains(rest, structurals_of(inputs).last(), x);
            assert(structurals_of(inputs) =~= rest.push(structurals_of(inputs).last()));
        }
        if rest.contains(x) {
            let i = choose|i: int|
                0 <= i < front.len() && (#[trigger] front[i] matches Input::Fingerprint { files, lines, scope } && x == (sorted_strs(globs_of(files@)), sorted_strs(strs(lines@)), sorted_strs(rel_paths_of(scope@))));
            assert(inputs[i] == front[i]);
        }
        if structurals_of(inputs).contains(x) && !rest.contains(x) {
            assert(inputs[n] is Fingerprint);
        }
        if exists|i: int|
            0 <= i < inputs.len() && (#[trigger] inputs[i] matches Input::Fingerprint { files, lines, scope } && x == (sorted_strs(globs_of(files@)), sorted_strs(strs(lines@)), sorted_strs(rel_paths_of(scope@)))) {
            let i = choose|i: int|
                0 <= i < inputs.len() && (#[trigger] inputs[i] matches Input::Fingerprint { files, lines, scope } && x == (sorted_strs(globs_of(files@)), sorted_strs(strs(lines@)), sorted_strs(rel_paths_of(scope@))));
            if i < n {
                assert(front[i] == inputs[i]);
            }
        }
    }
}

} // verus!

//! Core types: `TargetId`, `ContentHash`, `CacheKey`, `TargetSpec`.

use crate::digest::{
    fed_bytes, hex_decode, hex_encode, hex_of, hex_value, is_digest_hex, lemma_digest_hex, lemma_unhex_hex, sha256, sha256_digest,
    stream_finalize, stream_new, stream_update, unhex, StreamHasher,
};
use crate::paths::{OutputPath, WsRelPath};
use crate::pattern::GlobPattern;
use crate::text::{cat4, has_prefix, owned, str_eq, strip_prefix, strs, utf8};
use vstd::prelude::*;
use vstd::string::*;

verus! {

/// A SHA-256 content hash.
#[derive(Debug, Clone, Copy, PartialEq, Eq, Hash)]
pub struct ContentHash {
    bytes: [u8; 32],
}

impl View for ContentHash {
    type V = Seq<u8>;

    closed spec fn view(&self) -> Seq<u8> {
        self.bytes@
    }
}

/// The views of a sequence of hashes.
pub open spec fn hash_views(v: Seq<ContentHash>) -> Seq<Seq<u8>> {
    v.map_values(|h: ContentHash| h@)
}

impl ContentHash {
    /// A hash is thirty-two bytes.
    pub proof fn lemma_len(self)
        ensures
            self@.len() == 32,
    {
    }

    /// The hash of `data`.
    pub fn of_bytes(data: &[u8]) -> (r: ContentHash)
        ensures
            r@ == sha256(data@),
    {
        ContentHash { bytes: sha256_digest(data) }
    }

    /// Sixty-four lowercase hexadecimal digits.
    pub fn to_hex(&self) -> (r: String)
        ensures
            r@ == hex_of(self@),
    {
        hex_encode(self.bytes.as_slice())
    }

    pub fn as_bytes(&self) -> (r: &[u8; 32])
        ensures
            r@ == self@,
    {
        &self.bytes
    }

    pub fn from_raw(bytes: [u8; 32]) -> (r: ContentHash)
        ensures
            r@ == bytes@,
    {
        ContentHash { bytes }
    }

    /// Parses sixty-four hexadecimal digits of either case, and nothing else.
    pub fn from_hex(s: &str) -> (r: Option<ContentHash>)
        ensures
            r is Some <==> utf8(s@).len() == 64 && forall|i: int| 0 <= i < 64 ==> hex_value(#[trigger] utf8(s@)[i]) is Some,
            r matches Some(h) ==> h@ == unhex(utf8(s@)),
    {
        if s.as_bytes().len() != 64 {
            return None;
        }
        proof {
            lemma_digest_hex(utf8(s@));
        }
        match hex_decode(s) {
            None => None,
            Some(v) => ContentHash::of_raw(&v),
        }
    }

    /// The hash that `bytes` are, if there are thirty-two of them.
    pub fn of_raw(bytes: &Vec<u8>) -> (r: Option<ContentHash>)
        ensures
            r is Some <==> bytes@.len() == 32,
            r matches Some(h) ==> h@ == bytes@,
    {
        if bytes.len() != 32 {
            return None;
        }
        let mut out: [u8; 32] = [0; 32];
        let mut i: usize = 0;
        while i < 32
            invariant
                i <= 32,
                bytes@.len() == 32,
                out@.len() == 32,
                forall|k: int| 0 <= k < i ==> out@[k] == bytes@[k],
            decreases 32 - i,
        {
            out[i] = bytes[i];
            i = i + 1;
        }
        assert(out@ == bytes@);
        Some(ContentHash { bytes: out })
    }

    /// Whether two hashes are the same.
    pub fn same(&self, other: &ContentHash) -> (r: bool)
        ensures
            r == (self@ == other@),
    {
        let mut i: usize = 0;
        while i < 32
            invariant
                i <= 32,
                forall|k: int| 0 <= k < i ==> self@[k] == other@[k],
            decreases 32 - i,
        {
            if self.bytes[i] != other.bytes[i] {
                assert(self@[i as int] != other@[i as int]);
                return false;
            }
            assert(self@[i as int] == other@[i as int]);
            i = i + 1;
        }
        assert(self@ == other@);
        true
    }

    /// A hasher that takes its input piece by piece.
    pub fn hasher() -> (r: Hasher)
        ensures
            r@ == Seq::<u8>::empty(),
    {
        Hasher { state: stream_new() }
    }
}

/// The hexadecimal form of a hash is sixty-four digits, and the hash read back
/// from it is the same hash.
pub proof fn law_hex_round_trip(h: ContentHash)
    ensures
        hex_of(h@).len() == 64,
        is_digest_hex(utf8(hex_of(h@))),
        unhex(utf8(hex_of(h@))) == h@,
        forall|g: ContentHash| #[trigger] g@ == h@ ==> g == h,
{
    assert forall|g: ContentHash| #[trigger] g@ == h@ implies g == h by {
        assert(g.bytes@ == h.bytes@);
        assert(g.bytes =~= h.bytes);
    }
    lemma_unhex_hex(h@);
    h.lemma_len();
    lemma_digest_hex(utf8(hex_of(h@)));
}

/// Hashes what it is fed: `update` as often as needed, then `finalize`.
pub struct Hasher {
    state: StreamHasher,
}

impl View for Hasher {
    type V = Seq<u8>;

    closed spec fn view(&self) -> Seq<u8> {
        fed_bytes(self.state)
    }
}

impl Hasher {
    pub fn update(&mut self, bytes: &[u8])
        ensures
            final(self)@ == old(self)@ + bytes@,
    {
        stream_update(&mut self.state, bytes);
    }

    /// Feeds the UTF-8 bytes of `s`.
    pub fn update_str(&mut self, s: &str)
        ensures
            final(self)@ == old(self)@ + utf8(s@),
    {
        self.update(s.as_bytes());
    }

    /// Feeds one byte.
    pub fn update_byte(&mut self, b: u8)
        ensures
            final(self)@ == old(self)@.push(b),
    {
        let one: [u8; 1] = [b];
        self.update(one.as_slice());
        assert(self@ == old(self)@.push(b));
    }

    pub fn finalize(self) -> (r: ContentHash)
        ensures
            r@ == sha256(self@),
    {
        ContentHash { bytes: stream_finalize(self.state) }
    }
}

/// The identity of a build: a content hash over everything that feeds it.
#[derive(Debug, Clone, Copy, PartialEq, Eq, Hash)]
pub struct CacheKey {
    hash: ContentHash,
}

impl View for CacheKey {
    type V = Seq<u8>;

    closed spec fn view(&self) -> Seq<u8> {
        self.hash@
    }
}

impl CacheKey {
    pub fn new(hash: ContentHash) -> (r: CacheKey)
        ensures
            r@ == hash@,
    {
        CacheKey { hash }
    }

    pub fn to_hex(&self) -> (r: String)
        ensures
            r@ == hex_of(self@),
    {
        self.hash.to_hex()
    }

    pub fn as_bytes(&self) -> (r: &[u8; 32])
        ensures
            r@ == self@,
    {
        self.hash.as_bytes()
    }

    pub fn as_content_hash(&self) -> (r: ContentHash)
        ensures
            r@ == self@,
    {
        self.hash
    }

    /// Whether two keys are the same.
    pub fn same(&self, other: &CacheKey) -> (r: bool)
        ensures
            r == (self@ == other@),
    {
        self.hash.same(&other.hash)
    }
}

/// The label of a target: `//<package>:<name>`, with an empty package for the
/// workspace root. Past its construction the engine treats it as opaque.
#[derive(Debug, PartialEq, Eq, PartialOrd, Ord, Hash)]
pub struct TargetId {
    text: String,
}

impl View for TargetId {
    type V = Seq<char>;

    closed spec fn view(&self) -> Seq<char> {
        self.text@
    }
}

impl Clone for TargetId {
    fn clone(&self) -> (r: Self)
        ensures
            r == *self,
    {
        TargetId { text: self.text.clone() }
    }
}

impl Default for TargetId {
    fn default() -> (r: Self)
        ensures
            r@ == Seq::<char>::empty(),
    {
        TargetId { text: String::new() }
    }
}

impl From<String> for TargetId {
    fn from(s: String) -> (r: Self) {
        TargetId { text: s }
    }
}

impl vstd::std_specs::convert::FromSpecImpl<String> for TargetId {
    open spec fn obeys_from_spec() -> bool {
        true
    }

    closed spec fn from_spec(s: String) -> TargetId {
        TargetId { text: s }
    }
}

/// The views of a sequence of ids.
pub open spec fn ids_of(v: Seq<TargetId>) -> Seq<Seq<char>> {
    v.map_values(|t: TargetId| t@)
}

/// The label `//<package>:<name>`.
pub open spec fn label_text(package: Seq<char>, name: Seq<char>) -> Seq<char> {
    "//"@ + package + ":"@ + name
}

/// The position of the last `c` in `s`, or -1.
pub open spec fn last_index(s: Seq<char>, c: char) -> int
    decreases s.len(),
{
    if s.len() == 0 {
        -1
    } else if s.last() == c {
        s.len() - 1
    } else {
        last_index(s.drop_last(), c)
    }
}

/// `s` without a leading `//`.
pub open spec fn label_body(s: Seq<char>) -> Seq<char> {
    if has_prefix(s, "//"@) {
        s.skip(2)
    } else {
        s
    }
}

/// The package and the name in a label: what stands before and behind the last
/// colon of its body. Without a colon the whole body is the package.
pub open spec fn split_label(s: Seq<char>) -> (Seq<char>, Seq<char>) {
    let body = label_body(s);
    let k = last_index(body, ':');
    if k >= 0 {
        (body.take(k), body.skip(k + 1))
    } else {
        (body, Seq::<char>::empty())
    }
}

pub proof fn lemma_last_index(s: Seq<char>, c: char)
    ensures
        -1 <= last_index(s, c) < s.len(),
        last_index(s, c) >= 0 ==> s[last_index(s, c)] == c,
        forall|i: int| last_index(s, c) < i < s.len() ==> s[i] != c,
    decreases s.len(),
{
    if s.len() > 0 && s.last() != c {
        lemma_last_index(s.drop_last(), c);
        assert forall|i: int| last_index(s, c) < i < s.len() implies s[i] != c by {
            if i < s.len() - 1 {
                assert(s.drop_last()[i] == s[i]);
            }
        }
    }
}

/// Splitting a label that was made from a package and a name without a colon
/// gives both back.
pub proof fn law_split_label(package: Seq<char>, name: Seq<char>)
    requires
        !name.contains(':'),
    ensures
        split_label(label_text(package, name)) == (package, name),
{
    reveal_strlit("//");
    reveal_strlit(":");
    let s = label_text(package, name);
    assert(s.take(2) == "//"@);
    let body = label_body(s);
    assert(body == package + seq![':'] + name);
    lemma_last_index(body, ':');
    let k = last_index(body, ':');
    assert(body[package.len() as int] == ':');
    if k > package.len() {
        assert(name[k - package.len() - 1] == ':');
    }
    assert(body.take(k) == package);
    assert(body.skip(k + 1) == name);
}

/// A label in canonical form is what its own parts make.
pub proof fn law_label_of_split(s: Seq<char>)
    requires
        has_prefix(s, "//"@),
        s.skip(2).contains(':'),
    ensures
        label_text(split_label(s).0, split_label(s).1) == s,
{
    reveal_strlit("//");
    reveal_strlit(":");
    let body = s.skip(2);
    lemma_last_index(body, ':');
    let k = last_index(body, ':');
    let i = choose|i: int| 0 <= i < body.len() && body[i] == ':';
    assert(k >= i);
    assert(s.take(2) + body == s);
    assert(body.take(k) + seq![':'] + body.skip(k + 1) == body);
    assert(label_text(body.take(k), body.skip(k + 1)) == s);
}

impl TargetId {
    pub fn new(id: &str) -> (r: TargetId)
        ensures
            r@ == id@,
    {
        TargetId { text: owned(id) }
    }

    /// The label for `name` in `package`.
    pub fn label(package: &str, name: &str) -> (r: TargetId)
        ensures
            r@ == label_text(package@, name@),
    {
        TargetId { text: cat4("//", package, ":", name) }
    }

    /// The package and the name of the label.
    pub fn split(&self) -> (r: (&str, &str))
        ensures
            (r.0@, r.1@) == split_label(self@),
    {
        proof {
            reveal_strlit("//");
        }
        let all = self.text.as_str();
        let body = match strip_prefix(all, "//") {
            Some(b) => b,
            None => all,
        };
        let v = crate::text::chars_of(body);
        let n: usize = v.len();
        let mut i: usize = n;
        assert(body@.take(n as int) == body@);
        while i > 0
            invariant
                i <= n,
                n == v.len(),
                v@ == body@,
                body@ == label_body(self@),
                last_index(body@, ':') == last_index(body@.take(i as int), ':'),
            decreases i,
        {
            assert(body@.take(i as int).drop_last() == body@.take(i - 1));
            if v[i - 1] == ':' {
                let package = body.substring_char(0, i - 1);
                let name = body.substring_char(i, n);
                assert(package@ == body@.take(i - 1));
                assert(name@ == body@.skip(i as int));
                return (package, name);
            }
            i = i - 1;
        }
        (body, body.substring_char(n, n))
    }

    pub fn as_str(&self) -> (r: &str)
        ensures
            r@ == self@,
    {
        self.text.as_str()
    }

    pub fn as_ref(&self) -> (r: &str)
        ensures
            r@ == self@,
    {
        self.text.as_str()
    }

    /// Whether two labels are the same.
    pub fn same(&self, other: &TargetId) -> (r: bool)
        ensures
            r == (self@ == other@),
    {
        str_eq(self.text.as_str(), other.text.as_str())
    }
}

/// One declared input of a target.
#[derive(Debug, Clone, PartialEq, Eq)]
pub enum Input {
    /// Every file that the pattern matches, by content.
    File { glob: GlobPattern },
    /// A fingerprint over the lines with one of the prefixes `lines`, in the
    /// files that `files` match below the directories `scope`.
    Fingerprint { files: Vec<GlobPattern>, lines: Vec<String>, scope: Vec<WsRelPath> },
}

/// The strings of a list of patterns.
pub open spec fn globs_of(v: Seq<GlobPattern>) -> Seq<Seq<char>> {
    v.map_values(|g: GlobPattern| g@)
}

/// The strings of a list of paths.
pub open spec fn rel_paths_of(v: Seq<WsRelPath>) -> Seq<Seq<char>> {
    v.map_values(|p: WsRelPath| p@)
}

/// The strings of a list of outputs.
pub open spec fn out_paths_of(v: Seq<OutputPath>) -> Seq<Seq<char>> {
    v.map_values(|p: OutputPath| p@)
}

/// A target as it is written in a package file.
#[derive(Debug)]
pub struct WireTarget {
    pub name: String,
    pub inputs: Vec<Input>,
    pub outputs: Vec<String>,
    pub deps: Vec<String>,
    pub command: String,
    pub cwd: Option<String>,
    pub env: Vec<(String, String)>,
    pub cache: Option<bool>,
    pub remote_cache: bool,
    pub network: bool,
    pub sandbox: bool,
    pub exists: Option<String>,
    pub timeout_secs: Option<u64>,
    pub test: bool,
    pub tags: Vec<String>,
    pub label: Option<String>,
    pub scope: Vec<WsRelPath>,
}

/// A target: the unit of work, in the form the engine uses.
///
/// It is made from a `WireTarget`; the loader then fills in `id` and resolves
/// the package-relative paths into `outputs` and `cwd`.
#[derive(Debug, Clone)]
pub struct TargetSpec {
    /// Local name, unique within the package.
    pub name: String,
    /// The label, filled in by the loader.
    pub id: TargetId,
    pub inputs: Vec<Input>,
    /// Outputs as written, until the loader resolves them.
    pub outputs_raw: Vec<String>,
    /// Workspace-relative outputs.
    pub outputs: Vec<OutputPath>,
    pub deps: Vec<TargetId>,
    pub command: String,
    /// Working directory as written; `None` is the package directory.
    pub cwd_raw: Option<String>,
    /// Workspace-relative working directory.
    pub cwd: WsRelPath,
    /// Environment variables, no name twice.
    pub env: Vec<(String, String)>,
    pub cache: Option<bool>,
    pub remote_cache: bool,
    /// Network allowed when sandboxed.
    pub network: bool,
    /// Whether the target may be sandboxed.
    pub sandbox: bool,
    pub exists: Option<String>,
    pub timeout_secs: Option<u64>,
    pub test: bool,
    pub tags: Vec<String>,
    pub label: Option<String>,
    /// Directories that a discovery target looks at.
    pub scope: Vec<WsRelPath>,
    /// Dependencies found from outputs that match input globs.
    pub inferred_deps: Vec<TargetId>,
    /// Directories of nested packages that the globs do not enter.
    pub prune_dirs: Vec<WsRelPath>,
}

/// The labels as texts.
pub fn id_texts(v: &Vec<TargetId>) -> (r: Vec<String>)
    ensures
        strs(r@) == ids_of(v@),
{
    let mut out: Vec<String> = Vec::new();
    let mut i: usize = 0;
    while i < v.len()
        invariant
            i <= v.len(),
            out.len() == i,
            forall|k: int| 0 <= k < i ==> (#[trigger] out@[k])@ == v@[k]@,
        decreases v.len() - i,
    {
        out.push(owned(v[i].as_str()));
        i = i + 1;
    }
    assert(strs(out@) == ids_of(v@));
    out
}

/// A copy of a list of labels.
pub fn copy_ids(v: &Vec<TargetId>) -> (r: Vec<TargetId>)
    ensures
        ids_of(r@) == ids_of(v@),
{
    let mut out: Vec<TargetId> = Vec::new();
    let mut i: usize = 0;
    while i < v.len()
        invariant
            i <= v.len(),
            ids_of(out@) == ids_of(v@).take(i as int),
        decreases v.len() - i,
    {
        let ghost before = ids_of(out@);
        out.push(v[i].clone());
        assert(ids_of(out@) == before.push(v@[i as int]@));
        assert(ids_of(v@).take(i + 1) == before.push(ids_of(v@)[i as int]));
        i = i + 1;
    }
    assert(ids_of(v@).take(i as int) == ids_of(v@));
    out
}

/// The entries of `v` that are in `keep`, in order.
pub open spec fn retained(v: Seq<Seq<char>>, keep: Seq<Seq<char>>) -> Seq<Seq<char>>
    decreases v.len(),
{
    if v.len() == 0 {
        v
    } else {
        let rest = retained(v.drop_last(), keep);
        if keep.contains(v.last()) {
            rest.push(v.last())
        } else {
            rest
        }
    }
}

/// Whether `id` is one of `v`.
pub fn has_id(v: &Vec<TargetId>, id: &TargetId) -> (r: bool)
    ensures
        r == ids_of(v@).contains(id@),
{
    let mut i: usize = 0;
    while i < v.len()
        invariant
            i <= v.len(),
            forall|k: int| 0 <= k < i ==> #[trigger] ids_of(v@)[k] != id@,
        decreases v.len() - i,
    {
        assert(ids_of(v@)[i as int] == v@[i as int]@);
        if v[i].same(id) {
            return true;
        }
        i = i + 1;
    }
    false
}

/// The labels of `v` that are in `keep`, in order.
pub fn retain_ids(v: &Vec<TargetId>, keep: &Vec<TargetId>) -> (r: Vec<TargetId>)
    ensures
        ids_of(r@) == retained(ids_of(v@), ids_of(keep@)),
{
    let ghost iv = ids_of(v@);
    let mut out: Vec<TargetId> = Vec::new();
    let mut i: usize = 0;
    assert(ids_of(out@) == iv.take(0));
    while i < v.len()
        invariant
            i <= v.len(),
            iv == ids_of(v@),
            ids_of(out@) == retained(iv.take(i as int), ids_of(keep@)),
        decreases v.len() - i,
    {
        let ghost before = ids_of(out@);
        assert(iv.take(i + 1).drop_last() == iv.take(i as int));
        assert(iv.take(i + 1).last() == v@[i as int]@);
        if has_id(keep, &v[i]) {
            out.push(v[i].clone());
            assert(ids_of(out@) == before.push(v@[i as int]@));
        }
        i = i + 1;
    }
    assert(iv.take(i as int) == iv);
    out
}

/// The texts of a list of outputs.
pub fn output_texts(v: &Vec<OutputPath>) -> (r: Vec<String>)
    ensures
        crate::text::strs(r@) == out_paths_of(v@),
{
    let mut out: Vec<String> = Vec::new();
    let mut i: usize = 0;
    while i < v.len()
        invariant
            i <= v.len(),
            crate::text::strs(out@) == out_paths_of(v@).take(i as int),
        decreases v.len() - i,
    {
        let ghost before = crate::text::strs(out@);
        out.push(crate::text::owned(v[i].as_str()));
        assert(crate::text::strs(out@) == before.push(v@[i as int]@));
        assert(out_paths_of(v@).take(i + 1) == before.push(out_paths_of(v@)[i as int]));
        i = i + 1;
    }
    assert(out_paths_of(v@).take(i as int) == out_paths_of(v@));
    out
}

impl TargetSpec {
    /// The target as written, with path resolution left to the loader.
    pub fn from(w: WireTarget) -> (r: TargetSpec)
        ensures
            r.name@ == w.name@,
            r.id@ == Seq::<char>::empty(),
            r.inputs == w.inputs,
            r.outputs_raw == w.outputs,
            r.outputs@.len() == 0,
            ids_of(r.deps@) == crate::text::strs(w.deps@),
            r.command == w.command,
            r.cwd_raw == w.cwd,
            r.cwd@ == Seq::<char>::empty(),
            r.env == w.env,
            r.cache == w.cache,
            r.remote_cache == w.remote_cache,
            r.network == w.network,
            r.sandbox == w.sandbox,
            r.exists == w.exists,
            r.timeout_secs == w.timeout_secs,
            r.test == w.test,
            r.tags == w.tags,
            r.label == w.label,
            r.scope == w.scope,
            r.inferred_deps@.len() == 0,
            r.prune_dirs@.len() == 0,
    {
        let mut deps: Vec<TargetId> = Vec::new();
        let mut i: usize = 0;
        while i < w.deps.len()
            invariant
                i <= w.deps.len(),
                ids_of(deps@) == crate::text::strs(w.deps@).take(i as int),
            decreases w.deps.len() - i,
        {
            let ghost before = ids_of(deps@);
            deps.push(TargetId::new(w.deps[i].as_str()));
            assert(ids_of(deps@) == before.push(w.deps@[i as int]@));
            i = i + 1;
        }
        assert(crate::text::strs(w.deps@).take(i as int) == crate::text::strs(w.deps@));
        TargetSpec {
            name: w.name,
            id: TargetId::default(),
            inputs: w.inputs,
            outputs_raw: w.outputs,
            outputs: Vec::new(),
            deps,
            command: w.command,
            cwd_raw: w.cwd,
            cwd: WsRelPath::default(),
            env: w.env,
            cache: w.cache,
            remote_cache: w.remote_cache,
            network: w.network,
            sandbox: w.sandbox,
            exists: w.exists,
            timeout_secs: w.timeout_secs,
            test: w.test,
            tags: w.tags,
            label: w.label,
            scope: w.scope,
            inferred_deps: Vec::new(),
            prune_dirs: Vec::new(),
        }
    }

    /// Whether the target takes part in the cache. A build target does unless
    /// it says otherwise, a test does not unless it says so.
    pub open spec fn cacheable(&self) -> bool {
        match self.cache {
            Some(b) => b,
            None => !self.test,
        }
    }

    pub fn is_cacheable(&self) -> (r: bool)
        ensures
            r == self.cacheable(),
    {
        match self.cache {
            Some(b) => b,
            None => !self.test,
        }
    }
}

/// What is retained is what is kept, in the order it was in.
pub proof fn law_retained(v: Seq<Seq<char>>, keep: Seq<Seq<char>>)
    ensures
        retained(v, keep) == v.filter(|x: Seq<char>| keep.contains(x)),
    decreases v.len(),
{
    reveal(Seq::filter);
    if v.len() > 0 {
        law_retained(v.drop_last(), keep);
    }
}

/// A target takes part in the cache where it says so; where it says nothing, a
/// build target does and a test does not.
pub proof fn law_cacheable(t: TargetSpec)
    ensures
        t.cache == Some(true) ==> t.cacheable(),
        t.cache == Some(false) ==> !t.cacheable(),
        t.cache is None ==> (t.cacheable() <==> !t.test),
{
}

} // verus!

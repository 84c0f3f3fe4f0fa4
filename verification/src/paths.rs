//! Slash-separated paths as text.
//!
//! A path is compared component by component: empty components and `.` behind
//! the first do not count, and a leading `/` is a component of its own.

use crate::rank::{keys_lt, law_ranked, push_key, ranked};
use crate::text::{
    bytes_lt, cat2, cat3, ends_with, join, join_with, lemma_split_concat, lemma_split_on, owned, split, split_on, starts_with, str_eq, str_lt, strs, utf8,
};
use vstd::prelude::*;

verus! {

/// `s` starts at the root of the file system.
pub open spec fn is_absolute(s: Seq<char>) -> bool {
    s.len() > 0 && s[0] == '/'
}

/// A piece between slashes that is a component: not empty and not `.`.
pub open spec fn is_component(p: Seq<char>) -> bool {
    p.len() > 0 && p != seq!['.']
}

/// The pieces that are components, in order.
pub open spec fn named_components(pieces: Seq<Seq<char>>) -> Seq<Seq<char>>
    decreases pieces.len(),
{
    if pieces.len() == 0 {
        Seq::<Seq<char>>::empty()
    } else {
        let rest = named_components(pieces.drop_last());
        if is_component(pieces.last()) {
            rest.push(pieces.last())
        } else {
            rest
        }
    }
}

/// The components of a path: `/` for an absolute one, `.` where the path
/// starts with it, and the named components.
pub open spec fn components(s: Seq<char>) -> Seq<Seq<char>> {
    let pieces = split_on(s, '/');
    let head = if is_absolute(s) {
        seq![seq!['/']]
    } else if pieces[0] == seq!['.'] {
        seq![seq!['.']]
    } else {
        Seq::<Seq<char>>::empty()
    };
    head + named_components(pieces)
}

fn is_dot(s: &str) -> (r: bool)
    ensures
        r == (s@ == seq!['.']),
{
    proof {
        reveal_strlit(".");
        assert("."@ == seq!['.']);
    }
    str_eq(s, ".")
}

/// The components of `s`.
pub fn path_components(s: &str) -> (r: Vec<String>)
    ensures
        strs(r@) == components(s@),
{
    let pieces = split(s, '/');
    proof {
        lemma_split_on(s@, '/');
    }
    let ghost pv = strs(pieces@);
    let mut out: Vec<String> = Vec::new();
    proof {
        reveal_strlit("/");
        assert("/"@ == seq!['/']);
        reveal_strlit(".");
        assert("."@ == seq!['.']);
    }
    assert(pieces@[0]@ == pv[0]);
    if absolute(s) {
        out.push(owned("/"));
    } else if is_dot(pieces[0].as_str()) {
        out.push(owned("."));
    }
    let ghost head = strs(out@);
    let mut i: usize = 0;
    assert(head + named_components(pv.take(0)) == head);
    while i < pieces.len()
        invariant
            i <= pieces.len(),
            pv == strs(pieces@),
            strs(out@) == head + named_components(pv.take(i as int)),
        decreases pieces.len() - i,
    {
        assert(pv.take(i + 1).drop_last() == pv.take(i as int));
        assert(pv[i as int] == pieces@[i as int]@);
        let ghost before = strs(out@);
        if !pieces[i].as_str().is_empty() && !is_dot(pieces[i].as_str()) {
            out.push(pieces[i].clone());
            assert(strs(out@) == before.push(pv[i as int]));
        }
        i = i + 1;
    }
    assert(pv.take(i as int) == pv);
    assert(strs(out@) == components(s@));
    out
}

/// Whether `s` starts at the root.
pub fn absolute(s: &str) -> (r: bool)
    ensures
        r == is_absolute(s@),
{
    proof {
        reveal_strlit("/");
        assert("/"@ == seq!['/']);
    }
    let r = starts_with(s, "/");
    assert(r == is_absolute(s@)) by {
        if s@.len() > 0 {
            assert(s@.take(1) == seq![s@[0]]);
            if s@[0] == '/' {
                assert(s@.take(1) == "/"@);
            } else {
                assert(s@.take(1)[0] != "/"@[0]);
            }
        }
    }
    r
}

/// The path `base` with `rest` behind it; an absolute `rest` stands alone.
pub open spec fn joined(base: Seq<char>, rest: Seq<char>) -> Seq<char> {
    if is_absolute(rest) || base.len() == 0 {
        rest
    } else if base.last() == '/' {
        base + rest
    } else {
        base + "/"@ + rest
    }
}

/// Appends `rest` to `base`.
pub fn path_join(base: &str, rest: &str) -> (r: String)
    ensures
        r@ == joined(base@, rest@),
{
    if absolute(rest) || base.is_empty() {
        owned(rest)
    } else {
        proof {
            reveal_strlit("/");
            assert("/"@ == seq!['/']);
            assert(base@.skip(base@.len() - 1) == seq![base@.last()]);
            assert("/"@[0] == '/');
            assert(seq![base@.last()][0] == base@.last());
        }
        if ends_with(base, "/") {
            cat2(base, rest)
        } else {
            cat3(base, "/", rest)
        }
    }
}

/// A path that stays below the directory it is resolved against: relative, and
/// with no `..` component.
pub open spec fn stays_below(s: Seq<char>) -> bool {
    !is_absolute(s) && !split_on(s, '/').contains(seq!['.', '.'])
}

/// Whether `s` stays below the directory it is resolved against.
pub fn path_stays_below(s: &str) -> (r: bool)
    ensures
        r == stays_below(s@),
{
    proof {
        reveal_strlit("..");
        assert(".."@ == seq!['.', '.']);
    }
    if absolute(s) {
        return false;
    }
    let pieces = split(s, '/');
    !crate::text::member(&pieces, "..")
}

/// A path relative to the workspace root.
#[derive(Debug, PartialEq, Eq, PartialOrd, Ord, Hash)]
pub struct WsRelPath {
    text: String,
}

impl View for WsRelPath {
    type V = Seq<char>;

    closed spec fn view(&self) -> Seq<char> {
        self.text@
    }
}

impl Clone for WsRelPath {
    fn clone(&self) -> (r: Self)
        ensures
            r == *self,
    {
        proof {
            use_type_invariant(self);
        }
        WsRelPath { text: self.text.clone() }
    }
}

impl Default for WsRelPath {
    fn default() -> (r: Self)
        ensures
            r@ == Seq::<char>::empty(),
    {
        let text = String::new();
        assert(split_on(text@, '/') == seq![Seq::<char>::empty()]);
        assert(!is_absolute(text@));
        assert(stays_below(text@)) by {
            let p = split_on(text@, '/');
            if p.contains(seq!['.', '.']) {
                let i = choose|i: int| 0 <= i < p.len() && p[i] == seq!['.', '.'];
                assert(p[i].len() == 0);
            }
        }
        WsRelPath { text }
    }
}

/// Why a path was not taken.
pub open spec fn path_error_text(s: Seq<char>) -> Seq<char> {
    "path must stay inside the workspace: "@ + s
}

impl WsRelPath {
    #[verifier::type_invariant]
    spec fn inside(&self) -> bool {
        stays_below(self.text@)
    }

    pub fn new(s: &str) -> (r: Result<WsRelPath, String>)
        ensures
            r is Ok <==> stays_below(s@),
            r matches Ok(p) ==> p@ == s@,
            r matches Err(e) ==> e@ == path_error_text(s@),
    {
        if path_stays_below(s) {
            Ok(WsRelPath { text: owned(s) })
        } else {
            Err(cat2("path must stay inside the workspace: ", s))
        }
    }

    /// The text; it never leads out of the workspace.
    pub fn as_str(&self) -> (r: &str)
        ensures
            r@ == self@,
            stays_below(self@),
    {
        proof {
            use_type_invariant(self);
        }
        self.text.as_str()
    }
}

/// A workspace-relative path that a target produces.
#[derive(Debug, PartialEq, Eq, PartialOrd, Ord, Hash)]
pub struct OutputPath {
    text: String,
}

impl View for OutputPath {
    type V = Seq<char>;

    closed spec fn view(&self) -> Seq<char> {
        self.text@
    }
}

impl Clone for OutputPath {
    fn clone(&self) -> (r: Self)
        ensures
            r == *self,
    {
        proof {
            use_type_invariant(self);
        }
        OutputPath { text: self.text.clone() }
    }
}

impl OutputPath {
    #[verifier::type_invariant]
    spec fn inside(&self) -> bool {
        stays_below(self.text@)
    }

    pub fn new(s: &str) -> (r: Result<OutputPath, String>)
        ensures
            r is Ok <==> stays_below(s@),
            r matches Ok(p) ==> p@ == s@,
            r matches Err(e) ==> e@ == path_error_text(s@),
    {
        if path_stays_below(s) {
            Ok(OutputPath { text: owned(s) })
        } else {
            Err(cat2("path must stay inside the workspace: ", s))
        }
    }

    /// The text; it never leads out of the workspace.
    pub fn as_str(&self) -> (r: &str)
        ensures
            r@ == self@,
            stays_below(self@),
    {
        proof {
            use_type_invariant(self);
        }
        self.text.as_str()
    }
}

/// What kind of component it is: the root comes first, then the current
/// directory, then the one above, then a name.
pub open spec fn part_kind(c: Seq<char>) -> u8 {
    if c == seq!['/'] {
        1
    } else if c == seq!['.'] {
        2
    } else if c == seq!['.', '.'] {
        3
    } else {
        4
    }
}

/// Components rank by kind, then by text.
pub open spec fn part_lt(a: Seq<char>, b: Seq<char>) -> bool {
    part_kind(a) < part_kind(b) || part_kind(a) == part_kind(b) && str_lt(a, b)
}

/// Lexicographic order on components: a proper prefix comes first.
pub open spec fn parts_lt(a: Seq<Seq<char>>, b: Seq<Seq<char>>) -> bool
    decreases a.len(),
{
    if b.len() == 0 {
        false
    } else if a.len() == 0 {
        true
    } else if a[0] != b[0] {
        part_lt(a[0], b[0])
    } else {
        parts_lt(a.drop_first(), b.drop_first())
    }
}

/// A component as bytes that rank as it does.
pub open spec fn part_key(c: Seq<char>) -> Seq<u8> {
    seq![part_kind(c)] + utf8(c)
}

pub open spec fn part_keys(v: Seq<Seq<char>>) -> Seq<Seq<u8>> {
    v.map_values(|c: Seq<char>| part_key(c))
}

/// The rank of a path: paths are ordered component by component.
pub open spec fn path_rank(s: Seq<char>) -> Seq<u8> {
    ranked(part_keys(components(s)))
}

proof fn lemma_part_key(a: Seq<char>, b: Seq<char>)
    ensures
        bytes_lt(part_key(a), part_key(b)) == part_lt(a, b),
        part_key(a) == part_key(b) <==> a == b,
{
    assert(part_key(a).drop_first() =~= utf8(a));
    assert(part_key(b).drop_first() =~= utf8(b));
    if part_key(a) == part_key(b) {
        crate::text::lemma_utf8_injective(a, b);
    }
}

proof fn lemma_part_keys(a: Seq<Seq<char>>, b: Seq<Seq<char>>)
    ensures
        keys_lt(part_keys(a), part_keys(b)) == parts_lt(a, b),
        part_keys(a) == part_keys(b) <==> a == b,
    decreases a.len(),
{
    assert(part_keys(a).len() == a.len() && part_keys(b).len() == b.len());
    if a.len() > 0 && b.len() > 0 {
        assert(part_keys(a)[0] == part_key(a[0]) && part_keys(b)[0] == part_key(b[0]));
        assert(part_keys(a).drop_first() =~= part_keys(a.drop_first()));
        assert(part_keys(b).drop_first() =~= part_keys(b.drop_first()));
        lemma_part_key(a[0], b[0]);
        lemma_part_keys(a.drop_first(), b.drop_first());
        assert(a =~= seq![a[0]] + a.drop_first());
        assert(b =~= seq![b[0]] + b.drop_first());
    } else if a.len() == 0 && b.len() == 0 {
        assert(a =~= b);
    }
}

/// The bytes of two paths rank as the paths do, component by component, and are
/// the same only for the same components.
pub proof fn law_path_rank(a: Seq<char>, b: Seq<char>)
    ensures
        bytes_lt(path_rank(a), path_rank(b)) == parts_lt(components(a), components(b)),
        path_rank(a) == path_rank(b) <==> components(a) == components(b),
{
    law_ranked(part_keys(components(a)), part_keys(components(b)));
    lemma_part_keys(components(a), components(b));
}

/// The ranks of a list of paths.
pub open spec fn path_ranks(v: Seq<Seq<char>>) -> Seq<Seq<u8>> {
    v.map_values(|s: Seq<char>| path_rank(s))
}

/// Appends the bytes of `s` to `out`.
pub fn push_utf8(out: &mut Vec<u8>, s: &str)
    ensures
        final(out)@ == old(out)@ + utf8(s@),
{
    let b = s.as_bytes();
    let mut i: usize = 0;
    assert(out@ == old(out)@ + b@.take(0));
    while i < b.len()
        invariant
            i <= b.len(),
            out@ == old(out)@ + b@.take(i as int),
        decreases b.len() - i,
    {
        out.push(b[i]);
        assert(b@.take(i + 1) == b@.take(i as int).push(b@[i as int]));
        assert(out@ == old(out)@ + b@.take(i + 1));
        i = i + 1;
    }
    assert(b@.take(i as int) == b@);
}

fn kind_of(c: &str) -> (r: u8)
    ensures
        r == part_kind(c@),
{
    proof {
        reveal_strlit("/");
        assert("/"@ == seq!['/']);
        reveal_strlit(".");
        assert("."@ == seq!['.']);
        reveal_strlit("..");
        assert(".."@ == seq!['.', '.']);
    }
    if str_eq(c, "/") {
        1
    } else if str_eq(c, ".") {
        2
    } else if str_eq(c, "..") {
        3
    } else {
        4
    }
}

/// The rank of the path `s`.
pub fn rank(s: &str) -> (r: Vec<u8>)
    ensures
        r@ == path_rank(s@),
{
    let parts = path_components(s);
    let ghost pv = strs(parts@);
    let mut out: Vec<u8> = Vec::new();
    let mut i: usize = 0;
    while i < parts.len()
        invariant
            i <= parts.len(),
            pv == strs(parts@),
            out@ == ranked(part_keys(pv.take(i as int))),
        decreases parts.len() - i,
    {
        assert(pv[i as int] == parts@[i as int]@);
        let mut key: Vec<u8> = Vec::new();
        key.push(kind_of(parts[i].as_str()));
        push_utf8(&mut key, parts[i].as_str());
        assert(key@ == part_key(pv[i as int]));
        push_key(&mut out, key.as_slice());
        assert(part_keys(pv.take(i + 1)).drop_last() == part_keys(pv.take(i as int)));
        assert(part_keys(pv.take(i + 1)).last() == part_key(pv[i as int]));
        i = i + 1;
    }
    assert(pv.take(i as int) == pv);
    out
}

/// The ranks of the paths in `v`.
pub fn ranks(v: &Vec<String>) -> (r: Vec<Vec<u8>>)
    ensures
        crate::order::key_views(r@) == path_ranks(strs(v@)),
{
    let mut out: Vec<Vec<u8>> = Vec::new();
    let mut i: usize = 0;
    while i < v.len()
        invariant
            i <= v.len(),
            out.len() == i,
            forall|k: int| 0 <= k < i ==> (#[trigger] out@[k])@ == path_rank(v@[k]@),
        decreases v.len() - i,
    {
        out.push(rank(v[i].as_str()));
        i = i + 1;
    }
    assert(crate::order::key_views(out@) == path_ranks(strs(v@)));
    out
}

/// The list without entries that have the same components as the one before.
pub open spec fn without_repeats(v: Seq<Seq<char>>) -> Seq<Seq<char>>
    decreases v.len(),
{
    if v.len() == 0 {
        v
    } else {
        let front = without_repeats(v.drop_last());
        if front.len() > 0 && path_rank(front.last()) == path_rank(v.last()) {
            front
        } else {
            front.push(v.last())
        }
    }
}

/// Paths in order, each once.
pub open spec fn path_set(v: Seq<Seq<char>>) -> Seq<Seq<char>> {
    without_repeats(crate::order::arranged(v, path_ranks(v)))
}

/// Some path of the list has the components of `p`.
pub open spec fn holds_path(v: Seq<Seq<char>>, p: Seq<char>) -> bool {
    exists|k: int| 0 <= k < v.len() && components(#[trigger] v[k]) == components(p)
}

proof fn lemma_without_repeats(v: Seq<Seq<char>>)
    ensures
        forall|i: int| 0 <= i < v.len() ==> holds_path(without_repeats(v), #[trigger] v[i]),
        forall|k: int| 0 <= k < without_repeats(v).len() ==> v.contains(#[trigger] without_repeats(v)[k]),
        v.len() > 0 ==> without_repeats(v).len() > 0 && components(without_repeats(v).last()) == components(v.last()),
    decreases v.len(),
{
    if v.len() > 0 {
        let f = v.drop_last();
        let w = without_repeats(v);
        let g = without_repeats(f);
        lemma_without_repeats(f);
        if g.len() > 0 {
            law_path_rank(g.last(), v.last());
        }
        assert(w.last() == g.last() || w.last() == v.last());
        assert forall|k: int| 0 <= k < w.len() implies v.contains(#[trigger] w[k]) by {
            if k < g.len() {
                assert(w[k] == g[k]);
                assert(f.contains(g[k]));
                let m = choose|m: int| 0 <= m < f.len() && f[m] == g[k];
                assert(v[m] == w[k]);
            } else {
                assert(v[v.len() - 1] == w[k]);
            }
        }
        assert forall|i: int| 0 <= i < v.len() implies holds_path(w, #[trigger] v[i]) by {
            if i < f.len() {
                assert(f[i] == v[i]);
                assert(holds_path(g, f[i]));
                let k = choose|k: int| 0 <= k < g.len() && components(#[trigger] g[k]) == components(f[i]);
                assert(w[k] == g[k]);
            } else {
                assert(components(w[w.len() - 1]) == components(v[i]));
            }
        }
    }
}

proof fn lemma_without_repeats_rises(v: Seq<Seq<char>>)
    requires
        forall|i: int, j: int| 0 <= i < j < v.len() ==> #[trigger] bytes_lt(path_rank(v[i]), path_rank(v[j])) || path_rank(v[i]) == path_rank(v[j]),
    ensures
        forall|i: int, j: int| 0 <= i < j < without_repeats(v).len() ==> #[trigger] bytes_lt(path_rank(without_repeats(v)[i]), path_rank(without_repeats(v)[j])),
    decreases v.len(),
{
    if v.len() > 0 {
        let f = v.drop_last();
        let w = without_repeats(v);
        let g = without_repeats(f);
        assert forall|i: int, j: int| 0 <= i < j < f.len() implies #[trigger] bytes_lt(path_rank(f[i]), path_rank(f[j])) || path_rank(f[i]) == path_rank(f[j]) by {
            assert(bytes_lt(path_rank(v[i]), path_rank(v[j])) || path_rank(v[i]) == path_rank(v[j]));
        }
        lemma_without_repeats_rises(f);
        lemma_without_repeats(f);
        assert forall|i: int, j: int| 0 <= i < j < w.len() implies #[trigger] bytes_lt(path_rank(w[i]), path_rank(w[j])) by {
            if j < g.len() {
                assert(bytes_lt(path_rank(g[i]), path_rank(g[j])));
            } else {
                let last = g[g.len() - 1];
                assert(f.contains(last));
                let m = choose|m: int| 0 <= m < f.len() && f[m] == last;
                assert(bytes_lt(path_rank(v[m]), path_rank(v[v.len() - 1])) || path_rank(v[m]) == path_rank(v[v.len() - 1]));
                if i < g.len() - 1 {
                    assert(bytes_lt(path_rank(g[i]), path_rank(last)));
                    crate::text::lemma_bytes_lt_transitive(path_rank(g[i]), path_rank(last), path_rank(v.last()));
                }
            }
        }
    }
}

/// Sorting paths loses none and adds none: every path of the list is there, and
/// what is there was in the list; each stands once, in the order of its
/// components.
pub proof fn law_path_set(v: Seq<Seq<char>>)
    ensures
        forall|i: int| 0 <= i < v.len() ==> holds_path(path_set(v), #[trigger] v[i]),
        forall|k: int| 0 <= k < path_set(v).len() ==> v.contains(#[trigger] path_set(v)[k]),
        forall|i: int, j: int| 0 <= i < j < path_set(v).len() ==> #[trigger] parts_lt(components(path_set(v)[i]), components(path_set(v)[j])),
{
    let keys = path_ranks(v);
    let s = crate::order::arranged(v, keys);
    let p = crate::order::sort_order(keys);
    crate::order::lemma_order_exists(keys);
    crate::order::lemma_order_covers(keys, p);
    lemma_without_repeats(s);
    assert forall|i: int| 0 <= i < v.len() implies holds_path(path_set(v), #[trigger] v[i]) by {
        crate::order::lemma_arranged_members(v, keys, v[i]);
        assert(v.contains(v[i]));
        let m = choose|m: int| 0 <= m < s.len() && s[m] == v[i];
        assert(holds_path(path_set(v), s[m]));
    }
    assert forall|k: int| 0 <= k < path_set(v).len() implies v.contains(#[trigger] path_set(v)[k]) by {
        crate::order::lemma_arranged_members(v, keys, path_set(v)[k]);
    }
    assert forall|i: int, j: int| 0 <= i < j < s.len() implies #[trigger] bytes_lt(path_rank(s[i]), path_rank(s[j])) || path_rank(s[i]) == path_rank(s[j]) by {
        assert(crate::order::comes_first(keys, p[i], p[j]));
        assert(keys[p[i]] == path_rank(v[p[i]]) && keys[p[j]] == path_rank(v[p[j]]));
    }
    lemma_without_repeats_rises(s);
    assert forall|i: int, j: int| 0 <= i < j < path_set(v).len() implies #[trigger] parts_lt(components(path_set(v)[i]), components(path_set(v)[j])) by {
        law_path_rank(path_set(v)[i], path_set(v)[j]);
        assert(bytes_lt(path_rank(path_set(v)[i]), path_rank(path_set(v)[j])));
    }
}

/// Whether two byte strings are the same.
pub fn bytes_eq(a: &Vec<u8>, b: &Vec<u8>) -> (r: bool)
    ensures
        r == (a@ == b@),
{
    if a.len() != b.len() {
        return false;
    }
    let mut i: usize = 0;
    while i < a.len()
        invariant
            i <= a.len(),
            a.len() == b.len(),
            forall|k: int| 0 <= k < i ==> a@[k] == b@[k],
        decreases a.len() - i,
    {
        if a[i] != b[i] {
            return false;
        }
        i = i + 1;
    }
    assert(a@ == b@);
    true
}

/// The paths of `v` in order, each once.
pub fn sort_paths(v: &Vec<String>) -> (r: Vec<String>)
    ensures
        strs(r@) == path_set(strs(v@)),
{
    let keys = ranks(v);
    let order = crate::order::sorted_order(&keys);
    let ghost vv = strs(v@);
    let ghost kv = path_ranks(vv);
    let ghost sv = crate::order::arranged(vv, kv);
    let ghost pv = crate::order::positions(order@);
    let mut out: Vec<String> = Vec::new();
    let mut last: Vec<u8> = Vec::new();
    let mut i: usize = 0;
    while i < order.len()
        invariant
            i <= order.len(),
            pv == crate::order::positions(order@),
            pv == crate::order::sort_order(kv),
            crate::order::is_order(kv, pv),
            vv == strs(v@),
            kv == path_ranks(vv),
            crate::order::key_views(keys@) == kv,
            sv == crate::order::arranged(vv, kv),
            strs(out@) == without_repeats(sv.take(i as int)),
            out.len() > 0 ==> last@ == path_rank(strs(out@).last()),
        decreases order.len() - i,
    {
        assert(pv[i as int] == order@[i as int]);
        assert(0 <= pv[i as int] < kv.len());
        assert(sv[i as int] == vv[pv[i as int]]);
        assert(sv.take(i + 1).drop_last() == sv.take(i as int));
        let j: usize = order[i];
        assert(vv[j as int] == v@[j as int]@);
        assert(keys@[j as int]@ == kv[j as int]);
        let ghost before = strs(out@);
        if out.len() == 0 || !bytes_eq(&last, &keys[j]) {
            last = keys[j].clone();
            out.push(v[j].clone());
            assert(last@ == keys@[j as int]@);
            assert(strs(out@) == before.push(vv[j as int]));
        }
        i = i + 1;
    }
    assert(sv.take(i as int) == sv);
    out
}

/// `base` is `path` or one of the directories above it.
pub open spec fn is_below(path: Seq<char>, base: Seq<char>) -> bool {
    let p = components(path);
    let b = components(base);
    b.len() <= p.len() && p.take(b.len() as int) == b
}

/// Whether `path` is `base` or below it.
pub fn path_is_below(path: &str, base: &str) -> (r: bool)
    ensures
        r == is_below(path@, base@),
{
    let p = path_components(path);
    let b = path_components(base);
    if b.len() > p.len() {
        return false;
    }
    let ghost pv = strs(p@);
    let ghost bv = strs(b@);
    let mut i: usize = 0;
    while i < b.len()
        invariant
            i <= b.len() <= p.len(),
            pv == strs(p@),
            bv == strs(b@),
            pv == components(path@),
            bv == components(base@),
            pv.take(i as int) == bv.take(i as int),
        decreases b.len() - i,
    {
        assert(pv[i as int] == p@[i as int]@ && bv[i as int] == b@[i as int]@);
        if !str_eq(p[i].as_str(), b[i].as_str()) {
            assert(pv.take(bv.len() as int)[i as int] != bv[i as int]);
            return false;
        }
        assert(pv.take(i + 1) == pv.take(i as int).push(pv[i as int]));
        assert(bv.take(i + 1) == bv.take(i as int).push(bv[i as int]));
        i = i + 1;
    }
    assert(bv.take(i as int) == bv);
    true
}

/// Whether two paths have the same components.
pub fn same_path(a: &str, b: &str) -> (r: bool)
    ensures
        r == (components(a@) == components(b@)),
{
    let x = path_components(a);
    let y = path_components(b);
    let ghost xv = strs(x@);
    let ghost yv = strs(y@);
    if x.len() != y.len() {
        assert(xv.len() != yv.len());
        return false;
    }
    let mut i: usize = 0;
    while i < x.len()
        invariant
            i <= x.len(),
            x.len() == y.len(),
            xv == strs(x@),
            yv == strs(y@),
            xv == components(a@),
            yv == components(b@),
            forall|k: int| 0 <= k < i ==> xv[k] == yv[k],
        decreases x.len() - i,
    {
        assert(xv[i as int] == x@[i as int]@ && yv[i as int] == y@[i as int]@);
        if !str_eq(x[i].as_str(), y[i].as_str()) {
            assert(xv[i as int] != yv[i as int]);
            return false;
        }
        i = i + 1;
    }
    assert(xv == yv);
    true
}

/// Some directory of `bases` holds `path`.
pub open spec fn below_any(path: Seq<char>, bases: Seq<Seq<char>>) -> bool {
    exists|i: int| 0 <= i < bases.len() && is_below(path, #[trigger] bases[i])
}

/// Whether `path` is one of `bases` or below one.
pub fn path_below_any(path: &str, bases: &Vec<String>) -> (r: bool)
    ensures
        r == below_any(path@, strs(bases@)),
{
    let mut i: usize = 0;
    while i < bases.len()
        invariant
            i <= bases.len(),
            forall|k: int| 0 <= k < i ==> !is_below(path@, #[trigger] strs(bases@)[k]),
        decreases bases.len() - i,
    {
        assert(strs(bases@)[i as int] == bases@[i as int]@);
        if path_is_below(path, bases[i].as_str()) {
            return true;
        }
        i = i + 1;
    }
    false
}

/// The pieces behind the first `n` components, from the next component on.
pub open spec fn pieces_behind(pieces: Seq<Seq<char>>, n: nat) -> Seq<Seq<char>>
    decreases pieces.len(),
{
    if pieces.len() == 0 {
        pieces
    } else if !is_component(pieces[0]) {
        pieces_behind(pieces.skip(1), n)
    } else if n == 0 {
        pieces
    } else {
        pieces_behind(pieces.skip(1), (n - 1) as nat)
    }
}

/// The pieces up to the last component.
pub open spec fn without_tail(pieces: Seq<Seq<char>>) -> Seq<Seq<char>>
    decreases pieces.len(),
{
    if pieces.len() == 0 || is_component(pieces.last()) {
        pieces
    } else {
        without_tail(pieces.drop_last())
    }
}

/// `path` as seen from `base`: the text behind the components that `base` has;
/// the path itself if it is not below.
pub open spec fn relative_to(path: Seq<char>, base: Seq<char>) -> Seq<char> {
    let m = components(base).len();
    let head = components(path).len() - named_components(split_on(path, '/')).len();
    if !is_below(path, base) || m < head {
        path
    } else {
        join_with(without_tail(pieces_behind(split_on(path, '/'), (m - head) as nat)), "/"@)
    }
}

/// The path `path` as seen from `base`.
pub fn path_relative(path: &str, base: &str) -> (r: String)
    ensures
        r@ == relative_to(path@, base@),
{
    if !path_is_below(path, base) {
        return owned(path);
    }
    let b = path_components(base);
    let m: usize = b.len();
    assert(strs(b@).len() == m);
    let pieces = split(path, '/');
    proof {
        lemma_split_on(path@, '/');
    }
    let ghost pv = strs(pieces@);
    assert(pieces@[0]@ == pv[0]);
    let head: usize = if absolute(path) || is_dot(pieces[0].as_str()) {
        1
    } else {
        0
    };
    if m < head {
        return owned(path);
    }
    let mut left: usize = m - head;
    let mut i: usize = 0;
    let ghost target = pieces_behind(pv, left as nat);
    assert(pv.skip(0) == pv);
    while i < pieces.len() && (left > 0 || pieces[i].as_str().is_empty() || is_dot(pieces[i].as_str()))
        invariant
            i <= pieces.len(),
            pv == strs(pieces@),
            target == pieces_behind(pv.skip(i as int), left as nat),
        decreases pieces.len() - i,
    {
        assert(pv.skip(i as int)[0] == pieces@[i as int]@);
        assert(pv.skip(i as int).skip(1) == pv.skip(i + 1));
        if !pieces[i].as_str().is_empty() && !is_dot(pieces[i].as_str()) {
            left = left - 1;
        }
        i = i + 1;
    }
    proof {
        let rest = pv.skip(i as int);
        if i < pieces.len() {
            assert(rest[0] == pieces@[i as int]@);
            assert(is_component(rest[0]));
            assert(left == 0);
        }
        assert(target == rest);
    }
    let mut end: usize = pieces.len();
    assert(pv.subrange(i as int, end as int) == target);
    while end > i && (pieces[end - 1].as_str().is_empty() || is_dot(pieces[end - 1].as_str()))
        invariant
            i <= end <= pieces.len(),
            pv == strs(pieces@),
            without_tail(target) == without_tail(pv.subrange(i as int, end as int)),
        decreases end,
    {
        assert(pv.subrange(i as int, end as int).last() == pieces@[end - 1]@);
        assert(pv.subrange(i as int, end as int).drop_last() == pv.subrange(i as int, end - 1));
        end = end - 1;
    }
    proof {
        if end > i {
            assert(pv.subrange(i as int, end as int).last() == pieces@[end - 1]@);
        }
    }
    let mut kept: Vec<String> = Vec::new();
    let mut j: usize = i;
    assert(strs(kept@) == pv.subrange(i as int, i as int));
    while j < end
        invariant
            i <= j <= end <= pieces.len(),
            pv == strs(pieces@),
            strs(kept@) == pv.subrange(i as int, j as int),
        decreases end - j,
    {
        let ghost before = strs(kept@);
        kept.push(pieces[j].clone());
        assert(strs(kept@) == before.push(pv[j as int]));
        assert(pv.subrange(i as int, j + 1) == before.push(pv[j as int]));
        j = j + 1;
    }
    join(&kept, "/")
}

proof fn lemma_named_concat(a: Seq<Seq<char>>, b: Seq<Seq<char>>)
    ensures
        named_components(a + b) == named_components(a) + named_components(b),
    decreases b.len(),
{
    if b.len() == 0 {
        assert(a + b =~= a);
        assert(named_components(a) + named_components(b) =~= named_components(a));
    } else {
        let f = b.drop_last();
        lemma_named_concat(a, f);
        assert((a + b).drop_last() =~= a + f);
        assert((a + b).last() == b.last());
        assert((named_components(a) + named_components(f)).push(b.last()) =~= named_components(a) + named_components(f).push(b.last()));
    }
}

/// What leads the components of a path that is not made of names.
spec fn head_of(s: Seq<char>) -> Seq<Seq<char>> {
    if is_absolute(s) {
        seq![seq!['/']]
    } else if split_on(s, '/')[0] == seq!['.'] {
        seq![seq!['.']]
    } else {
        Seq::<Seq<char>>::empty()
    }
}

/// Components are the pieces between slashes: none is empty or holds a slash,
/// but for the root of an absolute path, and a dot can only stand first.
pub proof fn law_components(s: Seq<char>)
    ensures
        is_absolute(s) <==> components(s).len() > 0 && components(s)[0] == seq!['/'],
        forall|i: int| 0 <= i < components(s).len() ==> (#[trigger] components(s)[i]).len() > 0,
        forall|i: int| 0 < i < components(s).len() ==> !(#[trigger] components(s)[i]).contains('/') && components(s)[i] != seq!['.'],
        forall|p: Seq<char>| #[trigger] split_on(s, '/').contains(p) && p.len() > 0 && p != seq!['.'] ==> components(s).contains(p),
{
    let pieces = split_on(s, '/');
    lemma_split_on(s, '/');
    lemma_named_members(pieces);
    let n = named_components(pieces);
    let h = head_of(s);
    assert(components(s) =~= h + n);
    assert forall|i: int| 0 <= i < components(s).len() implies (#[trigger] components(s)[i]).len() > 0 by {
        if i >= h.len() {
            assert(components(s)[i] == n[i - h.len()]);
        }
    }
    assert forall|i: int| 0 < i < components(s).len() implies !(#[trigger] components(s)[i]).contains('/') && components(s)[i] != seq!['.'] by {
        assert(components(s)[i] == n[i - h.len()]);
        let k = choose|k: int| 0 <= k < pieces.len() && pieces[k] == n[i - h.len()];
        assert(!pieces[k].contains('/'));
    }
    if !is_absolute(s) && components(s).len() > 0 && components(s)[0] == seq!['/'] {
        assert(seq!['/'].contains('/')) by {
            assert(seq!['/'][0] == '/');
        }
        if h.len() == 0 {
            assert(components(s)[0] == n[0]);
            let k = choose|k: int| 0 <= k < pieces.len() && pieces[k] == n[0];
            assert(!pieces[k].contains('/'));
        } else {
            assert(seq!['.'][0] == seq!['/'][0]);
        }
    }
    assert forall|p: Seq<char>| #[trigger] pieces.contains(p) && p.len() > 0 && p != seq!['.'] implies components(s).contains(p) by {
        let i = choose|i: int| 0 <= i < n.len() && n[i] == p;
        assert(components(s)[h.len() + i] == p);
    }
}

/// The named components are the pieces that are components.
pub proof fn lemma_named_members(pieces: Seq<Seq<char>>)
    ensures
        forall|i: int| 0 <= i < named_components(pieces).len() ==> is_component(#[trigger] named_components(pieces)[i]) && pieces.contains(named_components(pieces)[i]),
        forall|p: Seq<char>| #[trigger] pieces.contains(p) && is_component(p) ==> named_components(pieces).contains(p),
    decreases pieces.len(),
{
    if pieces.len() > 0 {
        let f = pieces.drop_last();
        let r = named_components(f);
        let n = named_components(pieces);
        lemma_named_members(f);
        assert(pieces =~= f.push(pieces.last()));
        assert forall|i: int| 0 <= i < n.len() implies is_component(#[trigger] n[i]) && pieces.contains(n[i]) by {
            crate::order::lemma_push_contains(f, pieces.last(), n[i]);
            if i < r.len() {
                assert(n[i] == r[i]);
            }
        }
        assert forall|p: Seq<char>| #[trigger] pieces.contains(p) && is_component(p) implies n.contains(p) by {
            crate::order::lemma_push_contains(f, pieces.last(), p);
            crate::order::lemma_push_contains(r, pieces.last(), p);
        }
    }
}

/// A path joined to a base lies below it: it has the components of the base and
/// then its own. An absolute path stands alone, and so does a path joined to
/// nothing.
pub proof fn law_joined(base: Seq<char>, rest: Seq<char>)
    ensures
        is_absolute(rest) || base.len() == 0 ==> joined(base, rest) == rest,
        base.len() > 0 && !is_absolute(rest) && (components(rest).len() == 0 || components(rest)[0] != seq!['.']) ==> components(joined(base, rest)) == components(base) + components(rest) && is_below(joined(base, rest), base),
{
    if base.len() > 0 && !is_absolute(rest) && (components(rest).len() == 0 || components(rest)[0] != seq!['.']) {
        reveal_strlit("/");
        let j = joined(base, rest);
        let pr = split_on(rest, '/');
        if head_of(rest).len() > 0 {
            assert(components(rest)[0] == seq!['.']);
        }
        assert(components(rest) =~= named_components(pr));
        lemma_split_on(base, '/');
        assert("/"@ =~= seq!['/']);
        if base.last() == '/' {
            let b = base.drop_last();
            assert(base =~= b + seq!['/'] + Seq::<char>::empty());
            assert(j =~= b + seq!['/'] + rest);
            lemma_split_concat(b, '/', Seq::<char>::empty());
            lemma_split_concat(b, '/', rest);
            let pb = split_on(b, '/');
            lemma_split_on(b, '/');
            let none = split_on(Seq::<char>::empty(), '/');
            assert(none =~= seq![Seq::<char>::empty()]);
            lemma_named_concat(pb, none);
            lemma_named_concat(pb, pr);
            assert(named_components(none) =~= Seq::<Seq<char>>::empty()) by {
                assert(none.drop_last() =~= Seq::<Seq<char>>::empty());
                assert(named_components(none.drop_last()) =~= Seq::<Seq<char>>::empty());
            }
            assert((pb + pr)[0] == pb[0] && (pb + none)[0] == pb[0]);
        } else {
            assert(j =~= base + seq!['/'] + rest);
            lemma_split_concat(base, '/', rest);
            let pb = split_on(base, '/');
            lemma_named_concat(pb, pr);
            assert((pb + pr)[0] == pb[0]);
        }
        assert(is_absolute(j) == is_absolute(base)) by {
            assert(j[0] == base[0]);
        }
        assert(head_of(j) =~= head_of(base));
        assert(components(j) =~= components(base) + components(rest));
        assert(components(j).take(components(base).len() as int) =~= components(base));
    }
}

proof fn lemma_pieces_behind(pieces: Seq<Seq<char>>, n: nat)
    requires
        n <= named_components(pieces).len(),
    ensures
        named_components(pieces_behind(pieces, n)) == named_components(pieces).skip(n as int),
        pieces_behind(pieces, n).len() > 0 ==> is_component(pieces_behind(pieces, n)[0]),
        forall|k: int| 0 <= k < pieces_behind(pieces, n).len() ==> pieces.contains(#[trigger] pieces_behind(pieces, n)[k]),
    decreases pieces.len(),
{
    let r = pieces_behind(pieces, n);
    if pieces.len() == 0 {
        assert(named_components(pieces).skip(n as int) =~= named_components(pieces));
    } else {
        let t = pieces.skip(1);
        let one = seq![pieces[0]];
        assert(pieces =~= one + t);
        lemma_named_concat(one, t);
        assert(one.drop_last() =~= Seq::<Seq<char>>::empty());
        assert(named_components(one.drop_last()) =~= Seq::<Seq<char>>::empty());
        assert(one.last() == pieces[0]);
        if !is_component(pieces[0]) {
            assert(named_components(one) =~= Seq::<Seq<char>>::empty());
            assert(named_components(pieces) =~= named_components(t));
            lemma_pieces_behind(t, n);
        } else if n == 0 {
            assert(named_components(pieces).skip(0) =~= named_components(pieces));
        } else {
            assert(named_components(one) =~= one);
            assert(named_components(pieces) =~= one + named_components(t));
            lemma_pieces_behind(t, (n - 1) as nat);
            assert(named_components(pieces).skip(n as int) =~= named_components(t).skip(n - 1));
        }
        assert forall|k: int| 0 <= k < r.len() implies pieces.contains(#[trigger] r[k]) by {
            if !is_component(pieces[0]) || n > 0 {
                assert(t.contains(r[k]));
                let m = choose|m: int| 0 <= m < t.len() && t[m] == r[k];
                assert(pieces[m + 1] == r[k]);
            }
        }
    }
}

proof fn lemma_without_tail(pieces: Seq<Seq<char>>)
    ensures
        named_components(without_tail(pieces)) == named_components(pieces),
        without_tail(pieces).len() <= pieces.len(),
        without_tail(pieces) == pieces.take(without_tail(pieces).len() as int),
        pieces.len() > 0 && is_component(pieces[0]) ==> without_tail(pieces).len() > 0,
    decreases pieces.len(),
{
    if pieces.len() == 0 || is_component(pieces.last()) {
        assert(pieces.take(pieces.len() as int) =~= pieces);
    } else {
        lemma_without_tail(pieces.drop_last());
        let w = without_tail(pieces);
        assert(pieces.drop_last().take(w.len() as int) =~= pieces.take(w.len() as int));
    }
}

/// The path of a file as seen from a directory above it has the components that
/// stand behind those of the directory: joined to the directory it is the path
/// again. A path that is not below stays as it is.
pub proof fn law_relative(path: Seq<char>, base: Seq<char>)
    ensures
        !is_below(path, base) ==> relative_to(path, base) == path,
        is_below(path, base) ==> components(relative_to(path, base)) == components(path).skip(components(base).len() as int),
{
    if is_below(path, base) {
        let pieces = split_on(path, '/');
        let m = components(base).len() as int;
        let h = head_of(path);
        let named = named_components(pieces);
        assert(components(path) =~= h + named);
        if m < h.len() {
            assert(m == 0);
            assert(components(path).skip(0) =~= components(path));
        } else {
            reveal_strlit("/");
            assert("/"@ =~= seq!['/']);
            let n = (m - h.len()) as nat;
            lemma_split_on(path, '/');
            lemma_pieces_behind(pieces, n);
            let pb = pieces_behind(pieces, n);
            lemma_without_tail(pb);
            let w = without_tail(pb);
            let rel = relative_to(path, base);
            assert(components(path).skip(m) =~= named.skip(n as int));
            if w.len() == 0 {
                assert(rel =~= Seq::<char>::empty());
                assert(named_components(w) =~= Seq::<Seq<char>>::empty());
                lemma_empty_path();
            } else {
                assert forall|i: int| 0 <= i < w.len() implies !(#[trigger] w[i]).contains('/') by {
                    assert(w[i] == pb[i]);
                    assert(pieces.contains(pb[i]));
                }
                crate::text::law_join_splits(w, '/');
                assert(w[0] == pb[0]);
                lemma_join_first(w, seq!['/']);
                assert(rel[0] == w[0][0]);
                if is_absolute(rel) {
                    assert(w[0].contains('/'));
                }
                assert(head_of(rel) =~= Seq::<Seq<char>>::empty());
                assert(components(rel) =~= named_components(w));
            }
        }
    }
}

proof fn lemma_empty_path()
    ensures
        components(Seq::<char>::empty()) == Seq::<Seq<char>>::empty(),
{
    let e = Seq::<char>::empty();
    let p = split_on(e, '/');
    assert(p =~= seq![e]);
    assert(p.drop_last() =~= Seq::<Seq<char>>::empty());
    assert(named_components(p.drop_last()) =~= Seq::<Seq<char>>::empty());
    assert(named_components(p) =~= Seq::<Seq<char>>::empty());
    assert(components(e) =~= Seq::<Seq<char>>::empty());
}

proof fn lemma_join_first(parts: Seq<Seq<char>>, sep: Seq<char>)
    requires
        parts.len() > 0,
        parts[0].len() > 0,
    ensures
        join_with(parts, sep).len() > 0,
        join_with(parts, sep)[0] == parts[0][0],
    decreases parts.len(),
{
    if parts.len() > 1 {
        lemma_join_first(parts.drop_last(), sep);
    }
}

/// Names glued with slashes are a path with these components: none of them is
/// empty or holds a slash, and a dot stands first or not at all.
pub proof fn law_path_of_names(names: Seq<Seq<char>>)
    requires
        names.len() > 0,
        forall|i: int| 0 <= i < names.len() ==> (#[trigger] names[i]).len() > 0 && !names[i].contains('/'),
        forall|i: int| 0 < i < names.len() ==> #[trigger] names[i] != seq!['.'],
    ensures
        components(join_with(names, "/"@)) == names,
{
    reveal_strlit("/");
    assert("/"@ =~= seq!['/']);
    let s = join_with(names, seq!['/']);
    crate::text::law_join_splits(names, '/');
    lemma_join_first(names, seq!['/']);
    if is_absolute(s) {
        assert(names[0].contains('/'));
    }
    let one = seq![names[0]];
    let t = names.skip(1);
    assert(names =~= one + t);
    lemma_named_concat(one, t);
    assert forall|i: int| 0 <= i < t.len() implies is_component(#[trigger] t[i]) by {
        assert(t[i] == names[i + 1]);
    }
    lemma_all_named(t);
    assert(one.drop_last() =~= Seq::<Seq<char>>::empty());
    assert(named_components(one.drop_last()) =~= Seq::<Seq<char>>::empty());
    if names[0] == seq!['.'] {
        assert(named_components(one) =~= Seq::<Seq<char>>::empty());
        assert(components(s) =~= one + t);
    } else {
        assert(named_components(one) =~= one);
        assert(components(s) =~= one + t);
    }
}

proof fn lemma_all_named(v: Seq<Seq<char>>)
    requires
        forall|i: int| 0 <= i < v.len() ==> is_component(#[trigger] v[i]),
    ensures
        named_components(v) == v,
    decreases v.len(),
{
    if v.len() > 0 {
        let f = v.drop_last();
        assert forall|i: int| 0 <= i < f.len() implies is_component(#[trigger] f[i]) by {
            assert(f[i] == v[i]);
        }
        lemma_all_named(f);
        assert(is_component(v[v.len() - 1]));
        assert(named_components(v) =~= v);
    } else {
        assert(named_components(v) =~= v);
    }
}

/// What stays below the directory it is resolved against is relative and never
/// goes up: joined to a directory it lies below it, and no component of it is
/// the one above.
pub proof fn law_stays_below(s: Seq<char>)
    ensures
        stays_below(s) <==> !(components(s).len() > 0 && components(s)[0] == seq!['/']) && !components(s).contains(seq!['.', '.']),
{
    law_components(s);
    let up = seq!['.', '.'];
    assert(up.len() == 2);
    assert(seq!['.'].len() == 1 && seq!['/'].len() == 1);
    let pieces = split_on(s, '/');
    if components(s).contains(up) {
        let i = choose|i: int| 0 <= i < components(s).len() && components(s)[i] == up;
        lemma_named_members(pieces);
        let h = head_of(s);
        let n = named_components(pieces);
        assert(components(s) =~= h + n);
        if i < h.len() {
            assert(components(s)[i].len() == 1);
        } else {
            assert(n[i - h.len()] == up);
            assert(pieces.contains(n[i - h.len()]));
        }
    }
    if pieces.contains(up) {
        assert(up != seq!['.']);
        assert(components(s).contains(up));
    }
}

/// A directory holds what has its components in front, itself among it, and what
/// it holds is in every directory above it.
pub proof fn law_below(path: Seq<char>, base: Seq<char>, above: Seq<char>)
    ensures
        is_below(path, path),
        is_below(path, base) <==> exists|rest: Seq<Seq<char>>| #[trigger] (components(base) + rest) == components(path),
        is_below(path, base) && is_below(base, above) ==> is_below(path, above),
        is_below(path, base) && is_below(base, path) ==> components(path) == components(base),
{
    let p = components(path);
    let b = components(base);
    let a = components(above);
    assert(p.take(p.len() as int) =~= p);
    if is_below(path, base) {
        assert(b + p.skip(b.len() as int) =~= p);
        if is_below(base, above) {
            assert(p.take(a.len() as int) =~= p.take(b.len() as int).take(a.len() as int));
        }
        if is_below(base, path) {
            assert(p.take(b.len() as int) =~= p);
        }
    }
    if exists|rest: Seq<Seq<char>>| #[trigger] (b + rest) == p {
        let rest = choose|rest: Seq<Seq<char>>| #[trigger] (b + rest) == p;
        assert(p.take(b.len() as int) =~= b);
    }
}

/// A name without a slash has itself as its one component.
pub proof fn lemma_bare_name(name: Seq<char>)
    requires
        name.len() > 0,
        name != seq!['.'],
        !name.contains('/'),
    ensures
        !is_absolute(name),
        components(name) == seq![name],
{
    let pieces = split_on(name, '/');
    crate::text::lemma_split_none(name, '/');
    if is_absolute(name) {
        assert(name.contains(name[0]));
    }
    assert(pieces.drop_last() == Seq::<Seq<char>>::empty());
    assert(named_components(pieces.drop_last()) == Seq::<Seq<char>>::empty());
    assert(is_component(name));
}

} // verus!

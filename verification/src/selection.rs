//! From patterns to targets, and from changed files to affected targets.

use crate::dag::{directed, is_chain, reached, reaches, reversed};
use crate::graph::{input_matches, spec_ids, BuildGraph};
use crate::key::{has_glob_metachars, has_metachars};
use crate::model::{ids_of, label_body, last_index, split_label, Input, TargetId, TargetSpec};
use crate::order::ascending;
use crate::pattern::{glob_error, glob_match, matches_segments, GlobError, GlobPattern};
use crate::text::{
    byte_len, cat2, cat3, cat4, chars_of, contains, ends_with, has_prefix, has_suffix, member, occurs_in, owned,
    starts_with, strip_prefix, strs,
};
use crate::walk::{quoted, str_debug};
use vstd::prelude::*;
use vstd::string::*;

verus! {

/// Why a selection was refused.
#[derive(Debug, PartialEq, Eq)]
pub enum SelectionError {
    NoneAffected,
    BadGlob { pattern: String, error: GlobError },
    /// A label without wildcards matched nothing; `suggestion` is the closest
    /// label, if one is close enough to be meant.
    NoMatch { pattern: String, suggestion: Option<String> },
}

impl SelectionError {
    /// The error in words.
    pub open spec fn text(&self) -> Seq<char> {
        match *self {
            SelectionError::NoneAffected => "no affected targets matched"@,
            SelectionError::BadGlob { pattern, error } => "invalid glob "@ + str_debug(pattern@) + ": "@ + error.text(),
            SelectionError::NoMatch { pattern, suggestion } => {
                let base = "no target matches "@ + str_debug(pattern@);
                match suggestion {
                    Some(s) => base + (" - did you mean "@ + s@ + "?"@),
                    None => base,
                }
            },
        }
    }

    pub fn message(&self) -> (r: String)
        ensures
            r@ == self.text(),
    {
        match self {
            SelectionError::NoneAffected => owned("no affected targets matched"),
            SelectionError::BadGlob { pattern, error } => {
                let q = quoted(pattern.as_str());
                let m = error.message();
                cat4("invalid glob ", q.as_str(), ": ", m.as_str())
            },
            SelectionError::NoMatch { pattern, suggestion } => {
                let q = quoted(pattern.as_str());
                let base = cat2("no target matches ", q.as_str());
                match suggestion {
                    Some(s) => {
                        let tail = cat3(" - did you mean ", s.as_str(), "?");
                        cat2(base.as_str(), tail.as_str())
                    },
                    None => base,
                }
            },
        }
    }
}

/// What to do with test targets.
#[derive(Debug, Clone, Copy, PartialEq, Eq, Structural)]
pub enum TestMode {
    /// Tests are not eligible.
    Exclude,
    /// Only tests are eligible.
    Only,
    Include,
}

/// Tag filters.
#[derive(Debug)]
pub struct SelectionOpts {
    /// Keep targets with at least one of these tags; empty keeps all.
    pub tags: Vec<String>,
    /// Drop targets with any of these tags.
    pub no_tags: Vec<String>,
}

impl Default for SelectionOpts {
    fn default() -> (r: Self)
        ensures
            r.tags@.len() == 0,
            r.no_tags@.len() == 0,
    {
        SelectionOpts { tags: Vec::new(), no_tags: Vec::new() }
    }
}

/// Some entry of `a` is in `b`.
pub open spec fn overlap(a: Seq<Seq<char>>, b: Seq<Seq<char>>) -> bool {
    exists|i: int| 0 <= i < a.len() && b.contains(#[trigger] a[i])
}

fn overlaps(a: &Vec<String>, b: &Vec<String>) -> (r: bool)
    ensures
        r == overlap(strs(a@), strs(b@)),
{
    let mut i: usize = 0;
    while i < a.len()
        invariant
            i <= a.len(),
            forall|k: int| 0 <= k < i ==> !strs(b@).contains(#[trigger] strs(a@)[k]),
        decreases a.len() - i,
    {
        assert(strs(a@)[i as int] == a@[i as int]@);
        if member(b, a[i].as_str()) {
            return true;
        }
        i = i + 1;
    }
    false
}

impl SelectionOpts {
    /// The tags of `spec` pass the filters.
    pub open spec fn tags_pass(&self, spec: TargetSpec) -> bool {
        &&& self.tags@.len() == 0 || overlap(strs(self.tags@), strs(spec.tags@))
        &&& !overlap(strs(self.no_tags@), strs(spec.tags@))
    }

    pub fn passes_tags(&self, spec: &TargetSpec) -> (r: bool)
        ensures
            r == self.tags_pass(*spec),
    {
        if self.tags.len() > 0 && !overlaps(&self.tags, &spec.tags) {
            return false;
        }
        !overlaps(&self.no_tags, &spec.tags)
    }
}

/// `spec` may be selected at all.
pub open spec fn is_eligible(spec: TargetSpec, mode: TestMode, opts: SelectionOpts) -> bool {
    &&& mode is Exclude ==> !spec.test
    &&& mode is Only ==> spec.test
    &&& opts.tags_pass(spec)
}

fn eligible(spec: &TargetSpec, mode: TestMode, opts: &SelectionOpts) -> (r: bool)
    ensures
        r == is_eligible(*spec, mode, *opts),
{
    if mode == TestMode::Exclude && spec.test {
        return false;
    }
    if mode == TestMode::Only && !spec.test {
        return false;
    }
    opts.passes_tags(spec)
}

/// Whether `s` is a pattern, of which a miss is no error.
pub open spec fn is_glob(s: Seq<char>) -> bool {
    has_metachars(s) || occurs_in(s, "..."@)
}

/// Whether `s` holds a wildcard: `*`, `?`, `[` or `...`.
pub fn has_glob_chars(s: &str) -> (r: bool)
    ensures
        r == is_glob(s@),
{
    has_glob_metachars(s) || contains(s, "...")
}

/// What a label pattern asks for.
pub ghost enum PatternForm {
    /// A package and all below it; the empty prefix is the whole workspace.
    Recursive(Seq<char>),
    /// Globs for the package and for the name.
    Exact(Seq<char>, Seq<char>),
}

/// What stands behind the last slash.
pub open spec fn last_segment(s: Seq<char>) -> Seq<char> {
    s.skip(last_index(s, '/') + 1)
}

/// The form of a pattern: `//prefix/...`, `//package:name`, or `//a/b` for
/// `//a/b:b`.
pub open spec fn pattern_form(raw: Seq<char>) -> PatternForm {
    let body = label_body(raw);
    if has_suffix(body, "..."@) {
        let p = body.take(body.len() - 3);
        PatternForm::Recursive(if has_suffix(p, "/"@) { p.drop_last() } else { p })
    } else {
        let k = last_index(body, ':');
        if k >= 0 {
            PatternForm::Exact(body.take(k), body.skip(k + 1))
        } else {
            PatternForm::Exact(body, last_segment(body))
        }
    }
}

/// The glob of a pattern that does not compile, and its error.
pub open spec fn pattern_error(raw: Seq<char>) -> Option<(Seq<char>, (int, Seq<char>))> {
    match pattern_form(raw) {
        PatternForm::Recursive(_) => None,
        PatternForm::Exact(p, n) => match glob_error(p) {
            Some(e) => Some((p, e)),
            None => match glob_error(n) {
                Some(e) => Some((n, e)),
                None => None,
            },
        },
    }
}

/// The label `id` is what the form asks for.
pub open spec fn form_matches(f: PatternForm, id: Seq<char>) -> bool {
    let (package, name) = split_label(id);
    match f {
        PatternForm::Recursive(prefix) => prefix.len() == 0 || package == prefix || has_prefix(package, prefix + "/"@),
        PatternForm::Exact(p, n) => matches_segments(p, package) && matches_segments(n, name),
    }
}

/// The label `id` matches the pattern `raw`.
pub open spec fn pattern_matches(raw: Seq<char>, id: Seq<char>) -> bool {
    form_matches(pattern_form(raw), id)
}

/// A parsed label pattern.
#[derive(Debug)]
enum LabelPattern {
    Recursive { prefix: String },
    Exact { pkg: GlobPattern, name: GlobPattern },
}

/// The parts of `s` around the last `c`.
fn rsplit<'a>(s: &'a str, c: char) -> (r: Option<(&'a str, &'a str)>)
    ensures
        r is Some <==> last_index(s@, c) >= 0,
        r matches Some(p) ==> p.0@ == s@.take(last_index(s@, c)) && p.1@ == s@.skip(last_index(s@, c) + 1),
{
    let v = chars_of(s);
    let n: usize = v.len();
    let mut i: usize = n;
    assert(s@.take(n as int) == s@);
    while i > 0
        invariant
            i <= n,
            n == v.len(),
            v@ == s@,
            last_index(s@, c) == last_index(s@.take(i as int), c),
        decreases i,
    {
        assert(s@.take(i as int).drop_last() == s@.take(i - 1));
        if v[i - 1] == c {
            let a = s.substring_char(0, i - 1);
            let b = s.substring_char(i, n);
            assert(a@ == s@.take(i - 1));
            assert(b@ == s@.skip(i as int));
            return Some((a, b));
        }
        i = i - 1;
    }
    None
}

fn glob_pat(s: &str) -> (r: Result<GlobPattern, SelectionError>)
    ensures
        r is Ok <==> glob_error(s@) is None,
        r matches Ok(p) ==> p@ == s@,
        r matches Err(e) ==> (e matches SelectionError::BadGlob { pattern, error } && pattern@ == s@ && glob_error(s@) == Some(error.model())),
{
    match GlobPattern::new(s) {
        Ok(p) => Ok(p),
        Err(error) => Err(SelectionError::BadGlob { pattern: owned(s), error }),
    }
}

impl LabelPattern {
    spec fn form(&self) -> PatternForm {
        match self {
            LabelPattern::Recursive { prefix } => PatternForm::Recursive(prefix@),
            LabelPattern::Exact { pkg, name } => PatternForm::Exact(pkg@, name@),
        }
    }

    fn parse(raw: &str) -> (r: Result<LabelPattern, SelectionError>)
        ensures
            r is Ok <==> pattern_error(raw@) is None,
            r matches Ok(p) ==> p.form() == pattern_form(raw@),
            r matches Err(e) ==> bad_glob_error(raw@, e),
    {
        proof {
            reveal_strlit("//");
            reveal_strlit("...");
            reveal_strlit("/");
            crate::model::lemma_last_index(label_body(raw@), '/');
        }
        let body = match strip_prefix(raw, "//") {
            Some(b) => b,
            None => raw,
        };
        let n: usize = body.unicode_len();
        if ends_with(body, "...") {
            let p = body.substring_char(0, n - 3);
            assert(p@ == body@.take(body@.len() - 3));
            if ends_with(p, "/") {
                let m: usize = p.unicode_len();
                let q = p.substring_char(0, m - 1);
                assert(q@ == p@.drop_last());
                return Ok(LabelPattern::Recursive { prefix: owned(q) });
            }
            return Ok(LabelPattern::Recursive { prefix: owned(p) });
        }
        let (pkg, name) = match rsplit(body, ':') {
            Some((p, nm)) => (p, nm),
            None => match rsplit(body, '/') {
                Some((_, nm)) => (body, nm),
                None => {
                    assert(body@.skip(0) == body@);
                    (body, body)
                },
            },
        };
        let ghost f = pattern_form(raw@);
        assert(f == PatternForm::Exact(pkg@, name@));
        let pkg = match glob_pat(pkg) {
            Ok(p) => p,
            Err(e) => {
                return Err(e);
            },
        };
        let name = match glob_pat(name) {
            Ok(p) => p,
            Err(e) => {
                return Err(e);
            },
        };
        Ok(LabelPattern::Exact { pkg, name })
    }

    fn matches(&self, id: &TargetId) -> (r: bool)
        ensures
            r == form_matches(self.form(), id@),
    {
        let (lpkg, lname) = id.split();
        match self {
            LabelPattern::Recursive { prefix } => {
                proof {
                    reveal_strlit("/");
                    let p = prefix@;
                    let l = lpkg@;
                    if has_prefix(l, p) {
                        assert(l == p + l.skip(p.len() as int));
                        let rest = l.skip(p.len() as int);
                        if rest.len() == 0 {
                            assert(l == p);
                        }
                        if has_prefix(rest, "/"@) {
                            assert(l.take(p.len() as int + 1) == p + "/"@) by {
                                assert(rest.take(1) == "/"@);
                                assert(l.take(p.len() as int + 1) =~= p + rest.take(1));
                            }
                        }
                    }
                    if l == p {
                        assert(l.take(p.len() as int) == p);
                        assert(l.skip(p.len() as int).len() == 0);
                    }
                    if has_prefix(l, p + "/"@) {
                        let q = p + "/"@;
                        assert(l.take(q.len() as int) == q);
                        assert(l.take(p.len() as int) =~= q.take(p.len() as int));
                        assert(q.take(p.len() as int) =~= p);
                        let rest = l.skip(p.len() as int);
                        assert(rest.take(1) =~= "/"@) by {
                            assert(rest[0] == l[p.len() as int]);
                            assert(l[p.len() as int] == q[p.len() as int]);
                        }
                    }
                }
                if prefix.as_str().is_empty() {
                    return true;
                }
                match strip_prefix(lpkg, prefix.as_str()) {
                    Some(rest) => rest.is_empty() || starts_with(rest, "/"),
                    None => false,
                }
            },
            LabelPattern::Exact { pkg, name } => pkg.matches_segments(lpkg) && name.matches_segments(lname),
        }
    }
}

/// `e` names the glob of the pattern that does not compile.
pub open spec fn bad_glob_error(raw: Seq<char>, e: SelectionError) -> bool {
    e matches SelectionError::BadGlob { pattern, error } && pattern_error(raw) == Some((pattern@, error.model()))
}

/// A single pattern, ready to be matched against labels.
#[derive(Debug)]
pub struct PatternMatcher {
    inner: LabelPattern,
}

impl PatternMatcher {
    pub closed spec fn form(&self) -> PatternForm {
        self.inner.form()
    }

    pub fn compile(raw: &str) -> (r: Result<PatternMatcher, SelectionError>)
        ensures
            r is Ok <==> pattern_error(raw@) is None,
            r matches Ok(p) ==> p.form() == pattern_form(raw@),
            r matches Err(e) ==> bad_glob_error(raw@, e),
    {
        match LabelPattern::parse(raw) {
            Ok(inner) => Ok(PatternMatcher { inner }),
            Err(e) => Err(e),
        }
    }

    pub fn matches(&self, id: &TargetId) -> (r: bool)
        ensures
            r == form_matches(self.form(), id@),
    {
        self.inner.matches(id)
    }

    pub fn matches_str(&self, id: &str) -> (r: bool)
        ensures
            r == form_matches(self.form(), id@),
    {
        let t = TargetId::new(id);
        self.inner.matches(&t)
    }
}

/// The smallest of three numbers.
pub open spec fn min3(a: nat, b: nat, c: nat) -> nat {
    if a <= b && a <= c {
        a
    } else if b <= c {
        b
    } else {
        c
    }
}

/// The edit distance: the least number of insertions, deletions and
/// replacements that turn `a` into `b`.
pub open spec fn edit(a: Seq<char>, b: Seq<char>) -> nat
    decreases a.len() + b.len(),
{
    if a.len() == 0 {
        b.len()
    } else if b.len() == 0 {
        a.len()
    } else {
        min3(
            edit(a.drop_last(), b) + 1,
            edit(a, b.drop_last()) + 1,
            edit(a.drop_last(), b.drop_last()) + if a.last() == b.last() { 0nat } else { 1nat },
        )
    }
}

/// The edit distance is symmetric.
pub proof fn law_edit_symmetric(a: Seq<char>, b: Seq<char>)
    ensures
        edit(a, b) == edit(b, a),
    decreases a.len() + b.len(),
{
    if a.len() > 0 && b.len() > 0 {
        law_edit_symmetric(a.drop_last(), b);
        law_edit_symmetric(a, b.drop_last());
        law_edit_symmetric(a.drop_last(), b.drop_last());
    }
}

/// Only equal texts have edit distance zero.
pub proof fn law_edit_zero(a: Seq<char>, b: Seq<char>)
    ensures
        edit(a, b) == 0 <==> a == b,
    decreases a.len() + b.len(),
{
    if a.len() > 0 && b.len() > 0 {
        law_edit_zero(a.drop_last(), b.drop_last());
        if a.last() == b.last() && a.drop_last() == b.drop_last() {
            assert(a == a.drop_last().push(a.last()));
            assert(b == b.drop_last().push(b.last()));
        }
        if a == b {
            assert(a.drop_last() == b.drop_last());
        }
    } else if a.len() == 0 && b.len() == 0 {
        assert(a == b);
    }
}

/// The edit distance is at most the length of the longer text.
pub proof fn law_edit_bound(a: Seq<char>, b: Seq<char>)
    ensures
        edit(a, b) <= a.len() || edit(a, b) <= b.len(),
    decreases a.len() + b.len(),
{
    if a.len() > 0 && b.len() > 0 {
        law_edit_bound(a.drop_last(), b.drop_last());
    }
}

/// The edit distance of `a` and `b`, row by row.
pub fn levenshtein(a: &str, b: &str) -> (r: usize)
    ensures
        r == edit(a@, b@),
{
    let av = chars_of(a);
    let bv = chars_of(b);
    let n: usize = bv.len();
    let mut prev: Vec<u128> = Vec::new();
    let mut j: usize = 0;
    prev.push(0);
    assert(a@.take(0).len() == 0);
    while j < n
        invariant
            j <= n,
            n == bv.len(),
            bv@ == b@,
            prev@.len() == j + 1,
            forall|k: int| 0 <= k <= j ==> #[trigger] prev@[k] == edit(a@.take(0), b@.take(k)),
        decreases n - j,
    {
        prev.push((j as u128) + 1);
        j = j + 1;
    }
    let mut i: usize = 0;
    while i < av.len()
        invariant
            i <= av.len(),
            av@ == a@,
            n == bv.len(),
            bv@ == b@,
            prev@.len() == n + 1,
            forall|k: int| 0 <= k <= n ==> #[trigger] prev@[k] == edit(a@.take(i as int), b@.take(k)),
        decreases av.len() - i,
    {
        let mut curr: Vec<u128> = Vec::new();
        curr.push((i as u128) + 1);
        assert(b@.take(0).len() == 0);
        assert(a@.take(i + 1).drop_last() == a@.take(i as int));
        assert(a@.take(i + 1).last() == a@[i as int]);
        let mut m: usize = 0;
        while m < n
            invariant
                m <= n,
                i < av.len(),
                av@ == a@,
                n == bv.len(),
                bv@ == b@,
                prev@.len() == n + 1,
                curr@.len() == m + 1,
                a@.take(i + 1).drop_last() == a@.take(i as int),
                a@.take(i + 1).last() == a@[i as int],
                forall|k: int| 0 <= k <= n ==> #[trigger] prev@[k] == edit(a@.take(i as int), b@.take(k)),
                forall|k: int| 0 <= k <= m ==> #[trigger] curr@[k] == edit(a@.take(i + 1), b@.take(k)),
            decreases n - m,
        {
            let cost: u128 = if av[i] == bv[m] { 0 } else { 1 };
            proof {
                law_edit_bound(a@.take(i as int), b@.take(m + 1));
                law_edit_bound(a@.take(i + 1), b@.take(m as int));
                law_edit_bound(a@.take(i as int), b@.take(m as int));
                assert(b@.take(m + 1).drop_last() == b@.take(m as int));
                assert(b@.take(m + 1).last() == b@[m as int]);
                assert(prev@[m + 1] == edit(a@.take(i as int), b@.take(m + 1)));
                assert(prev@[m as int] == edit(a@.take(i as int), b@.take(m as int)));
                assert(curr@[m as int] == edit(a@.take(i + 1), b@.take(m as int)));
            }
            let up: u128 = prev[m + 1] + 1;
            let left: u128 = curr[m] + 1;
            let diag: u128 = prev[m] + cost;
            let best: u128 = if up <= left && up <= diag {
                up
            } else if left <= diag {
                left
            } else {
                diag
            };
            curr.push(best);
            m = m + 1;
        }
        prev = curr;
        i = i + 1;
    }
    proof {
        assert(a@.take(i as int) == a@);
        assert(b@.take(n as int) == b@);
        law_edit_bound(a@, b@);
        assert(prev@[n as int] == edit(a@.take(i as int), b@.take(n as int)));
    }
    prev[n] as usize
}

/// A distance that reads as a typo: two edits, or a third of the pattern.
pub open spec fn is_near(dist: nat, pattern: Seq<char>) -> bool {
    dist <= 2 || dist * 3 <= byte_len(pattern)
}

/// Label `i` is at the least distance from `pattern`.
pub open spec fn is_closest(ids: Seq<Seq<char>>, pattern: Seq<char>, i: int) -> bool {
    0 <= i < ids.len() && forall|k: int| 0 <= k < ids.len() ==> edit(pattern, ids[i]) <= edit(pattern, #[trigger] ids[k])
}

/// What is suggested for a pattern that matched nothing: a closest label, if it
/// is near.
pub open spec fn is_suggestion(ids: Seq<Seq<char>>, pattern: Seq<char>, s: Option<Seq<char>>) -> bool {
    match s {
        Some(l) => exists|i: int| #[trigger] is_closest(ids, pattern, i) && ids[i] == l && is_near(edit(pattern, l), pattern),
        None => forall|i: int| 0 <= i < ids.len() ==> !is_near(edit(pattern, #[trigger] ids[i]), pattern),
    }
}

/// The view of an optional string.
pub open spec fn opt_view(s: Option<String>) -> Option<Seq<char>> {
    match s {
        Some(t) => Some(t@),
        None => None,
    }
}

/// The label closest to `pattern`, if one is near.
pub fn closest_label(graph: &BuildGraph, pattern: &str) -> (r: Option<String>)
    ensures
        is_suggestion(graph.ids(), pattern@, opt_view(r)),
{
    let n: usize = graph.len();
    let ghost ids = graph.ids();
    if n == 0 {
        return None;
    }
    let mut best: usize = 0;
    assert(ids[0] == graph.specs()[0].id@);
    let mut dist: usize = levenshtein(pattern, graph.at(0).id.as_str());
    let mut i: usize = 1;
    while i < n
        invariant
            1 <= i <= n,
            n == graph.specs().len(),
            ids == graph.ids(),
            best < i,
            dist == edit(pattern@, ids[best as int]),
            forall|k: int| 0 <= k < i ==> dist <= edit(pattern@, #[trigger] ids[k]),
        decreases n - i,
    {
        assert(ids[i as int] == graph.specs()[i as int].id@);
        let d: usize = levenshtein(pattern, graph.at(i).id.as_str());
        if d < dist {
            dist = d;
            best = i;
        }
        i = i + 1;
    }
    assert(is_closest(ids, pattern@, best as int));
    if dist <= 2 || (dist as u128) * 3 <= pattern.as_bytes().len() as u128 {
        assert(ids[best as int] == graph.specs()[best as int].id@);
        Some(owned(graph.at(best).id.as_str()))
    } else {
        None
    }
}

/// The patterns that select, in order.
pub open spec fn includes_of(patterns: Seq<Seq<char>>) -> Seq<Seq<char>>
    decreases patterns.len(),
{
    if patterns.len() == 0 {
        patterns
    } else {
        let rest = includes_of(patterns.drop_last());
        if has_prefix(patterns.last(), "!"@) {
            rest
        } else {
            rest.push(patterns.last())
        }
    }
}

/// The patterns behind an exclamation mark, in order.
pub open spec fn excludes_of(patterns: Seq<Seq<char>>) -> Seq<Seq<char>>
    decreases patterns.len(),
{
    if patterns.len() == 0 {
        patterns
    } else {
        let rest = excludes_of(patterns.drop_last());
        if has_prefix(patterns.last(), "!"@) {
            rest.push(patterns.last().skip(1))
        } else {
            rest
        }
    }
}

/// The patterns that select; with nothing but exclusions, everything.
pub open spec fn effective_includes(patterns: Seq<Seq<char>>) -> Seq<Seq<char>> {
    let inc = includes_of(patterns);
    if inc.len() == 0 {
        seq!["//..."@]
    } else {
        inc
    }
}

/// Some eligible target matches `raw`.
pub open spec fn any_match(specs: Seq<TargetSpec>, mode: TestMode, opts: SelectionOpts, raw: Seq<char>) -> bool {
    exists|t: int| 0 <= t < specs.len() && is_eligible(#[trigger] specs[t], mode, opts) && pattern_matches(raw, specs[t].id@)
}

/// A literal pattern that no eligible target matches.
pub open spec fn is_miss(specs: Seq<TargetSpec>, mode: TestMode, opts: SelectionOpts, raw: Seq<char>) -> bool {
    !is_glob(raw) && !any_match(specs, mode, opts, raw)
}

/// The pattern `raw` cannot be used to select.
pub open spec fn include_fails(specs: Seq<TargetSpec>, mode: TestMode, opts: SelectionOpts, raw: Seq<char>) -> bool {
    pattern_error(raw) is Some || is_miss(specs, mode, opts, raw)
}

/// Pattern `i` is the first that cannot be used to select.
pub open spec fn first_failing(specs: Seq<TargetSpec>, mode: TestMode, opts: SelectionOpts, inc: Seq<Seq<char>>, i: int) -> bool {
    &&& 0 <= i < inc.len()
    &&& include_fails(specs, mode, opts, inc[i])
    &&& forall|k: int| 0 <= k < i ==> !include_fails(specs, mode, opts, #[trigger] inc[k])
}

/// Some pattern of the list matches `id`.
pub open spec fn matches_any(patterns: Seq<Seq<char>>, id: Seq<char>) -> bool {
    exists|i: int| 0 <= i < patterns.len() && pattern_matches(#[trigger] patterns[i], id)
}

/// Target `t` is selected: eligible, matched by an inclusion and by no
/// exclusion.
pub open spec fn is_selected(specs: Seq<TargetSpec>, mode: TestMode, opts: SelectionOpts, inc: Seq<Seq<char>>, exc: Seq<Seq<char>>, t: int) -> bool {
    &&& 0 <= t < specs.len()
    &&& is_eligible(specs[t], mode, opts)
    &&& matches_any(inc, specs[t].id@)
    &&& !matches_any(exc, specs[t].id@)
}

/// All patterns of the list compile.
pub open spec fn all_compile(patterns: Seq<Seq<char>>) -> bool {
    forall|k: int| 0 <= k < patterns.len() ==> pattern_error(#[trigger] patterns[k]) is None
}

/// Splits patterns into those that select and those that exclude.
fn split_patterns(patterns: &Vec<String>) -> (r: (Vec<String>, Vec<String>))
    ensures
        strs(r.0@) == includes_of(strs(patterns@)),
        strs(r.1@) == excludes_of(strs(patterns@)),
{
    let ghost pv = strs(patterns@);
    let mut inc: Vec<String> = Vec::new();
    let mut exc: Vec<String> = Vec::new();
    let mut i: usize = 0;
    proof {
        reveal_strlit("!");
    }
    while i < patterns.len()
        invariant
            "!"@.len() == 1,
            i <= patterns.len(),
            pv == strs(patterns@),
            strs(inc@) == includes_of(pv.take(i as int)),
            strs(exc@) == excludes_of(pv.take(i as int)),
        decreases patterns.len() - i,
    {
        let ghost inc0 = strs(inc@);
        let ghost exc0 = strs(exc@);
        assert(pv[i as int] == patterns@[i as int]@);
        assert(pv.take(i + 1).drop_last() == pv.take(i as int));
        match strip_prefix(patterns[i].as_str(), "!") {
            Some(neg) => {
                exc.push(owned(neg));
                assert(strs(exc@) == exc0.push(pv[i as int].skip(1)));
            },
            None => {
                inc.push(patterns[i].clone());
                assert(strs(inc@) == inc0.push(pv[i as int]));
            },
        }
        i = i + 1;
    }
    assert(pv.take(i as int) == pv);
    (inc, exc)
}

/// The patterns can be resolved: every inclusion compiles and matches what it
/// has to, and every exclusion compiles.
pub open spec fn patterns_resolve(specs: Seq<TargetSpec>, patterns: Seq<Seq<char>>, mode: TestMode, opts: SelectionOpts) -> bool {
    patterns.len() == 0 || ((forall|i: int|
        0 <= i < effective_includes(patterns).len() ==> !include_fails(specs, mode, opts, #[trigger] effective_includes(patterns)[i])) && all_compile(
        excludes_of(patterns),
    ))
}

/// The patterns select target `t`; without patterns every eligible target is
/// selected.
pub open spec fn selects(specs: Seq<TargetSpec>, patterns: Seq<Seq<char>>, mode: TestMode, opts: SelectionOpts, t: int) -> bool {
    if patterns.len() == 0 {
        is_eligible(specs[t], mode, opts)
    } else {
        is_selected(specs, mode, opts, effective_includes(patterns), excludes_of(patterns), t)
    }
}

/// `v` holds the labels of the selected targets, sorted, each once.
pub open spec fn resolved_to(specs: Seq<TargetSpec>, patterns: Seq<Seq<char>>, mode: TestMode, opts: SelectionOpts, v: Seq<Seq<char>>) -> bool {
    &&& ascending(v)
    &&& forall|x: Seq<char>| v.contains(x) <==> exists|t: int| 0 <= t < specs.len() && (#[trigger] specs[t]).id@ == x && selects(specs, patterns, mode, opts, t)
}

/// Why the patterns cannot be resolved.
pub open spec fn resolution_error(specs: Seq<TargetSpec>, patterns: Seq<Seq<char>>, mode: TestMode, opts: SelectionOpts, e: SelectionError) -> bool {
    selection_error(specs, mode, opts, effective_includes(patterns), excludes_of(patterns), e)
}

/// Resolves patterns to the labels of the targets they select, sorted.
///
/// No patterns select every eligible target. A pattern behind `!` excludes what
/// it matches, whatever the order; with exclusions alone, everything else is
/// selected. A literal pattern has to match something.
pub fn resolve_patterns(graph: &BuildGraph, patterns: &Vec<String>, test_mode: TestMode, opts: &SelectionOpts) -> (r: Result<Vec<TargetId>, SelectionError>)
    requires
        graph.well_formed(),
    ensures
        r is Ok <==> patterns_resolve(graph.specs(), strs(patterns@), test_mode, *opts),
        r matches Ok(v) ==> resolved_to(graph.specs(), strs(patterns@), test_mode, *opts, ids_of(v@)),
        r matches Err(e) ==> resolution_error(graph.specs(), strs(patterns@), test_mode, *opts, e),
{
    let n: usize = graph.len();
    let ghost specs = graph.specs();
    let mut flags: Vec<bool> = Vec::new();
    let mut i: usize = 0;
    while i < n
        invariant
            i <= n,
            n == graph.specs().len(),
            specs == graph.specs(),
            flags.len() == i,
            forall|k: int| 0 <= k < i ==> #[trigger] flags@[k] == is_eligible(specs[k], test_mode, *opts),
        decreases n - i,
    {
        flags.push(eligible(graph.at(i), test_mode, opts));
        i = i + 1;
    }
    if patterns.len() == 0 {
        let r = graph.flagged(&flags);
        proof {
            assert(strs(patterns@).len() == 0);
            lemma_flagged(graph, flags@, ids_of(r@), |t: int| selects(specs, strs(patterns@), test_mode, *opts, t));
        }
        return Ok(r);
    }
    let (mut inc, exc) = split_patterns(patterns);
    if inc.len() == 0 {
        inc.push(owned("//..."));
        assert(strs(inc@) =~= seq!["//..."@]);
    }
    let ghost iv = effective_includes(strs(patterns@));
    let ghost xv = excludes_of(strs(patterns@));
    assert(strs(inc@) == iv);
    let included = match include_all(graph, &flags, &inc, Ghost((test_mode, *opts))) {
        Ok(v) => v,
        Err(e) => {
            return Err(e);
        },
    };
    let kept = match exclude_all(graph, &included, &exc) {
        Ok(v) => v,
        Err(e) => {
            return Err(e);
        },
    };
    let r = graph.flagged(&kept);
    proof {
        assert forall|t: int| 0 <= t < n implies #[trigger] kept@[t] == is_selected(specs, test_mode, *opts, iv, xv, t) by {
            assert(included@[t] == (flags@[t] && matches_any(iv, specs[t].id@)));
        }
        assert(strs(patterns@).len() > 0);
        lemma_flagged(graph, kept@, ids_of(r@), |t: int| selects(specs, strs(patterns@), test_mode, *opts, t));
    }
    Ok(r)
}

/// Why a selection fails: the first inclusion that does not compile or misses,
/// else the first exclusion that does not compile.
pub open spec fn selection_error(specs: Seq<TargetSpec>, mode: TestMode, opts: SelectionOpts, inc: Seq<Seq<char>>, exc: Seq<Seq<char>>, e: SelectionError) -> bool {
    ||| exists|i: int| #[trigger] first_failing(specs, mode, opts, inc, i) && include_error(specs, inc[i], e)
    ||| (forall|k: int| 0 <= k < inc.len() ==> !include_fails(specs, mode, opts, #[trigger] inc[k])) && exists|i: int| #[trigger] first_bad_pattern(exc, i) && bad_glob_error(exc[i], e)
}

/// Why the inclusion `raw` fails.
pub open spec fn include_error(specs: Seq<TargetSpec>, raw: Seq<char>, e: SelectionError) -> bool {
    if pattern_error(raw) is Some {
        bad_glob_error(raw, e)
    } else {
        e matches SelectionError::NoMatch { pattern, suggestion } && pattern@ == raw && is_suggestion(spec_ids(specs), raw, opt_view(suggestion))
    }
}

pub open spec fn first_bad_pattern(patterns: Seq<Seq<char>>, i: int) -> bool {
    &&& 0 <= i < patterns.len()
    &&& pattern_error(patterns[i]) is Some
    &&& forall|k: int| 0 <= k < i ==> pattern_error(#[trigger] patterns[k]) is None
}

proof fn lemma_flagged(graph: &BuildGraph, flags: Seq<bool>, out: Seq<Seq<char>>, sel: spec_fn(int) -> bool)
    requires
        flags.len() == graph.specs().len(),
        forall|t: int| 0 <= t < flags.len() ==> #[trigger] flags[t] == sel(t),
        forall|x: Seq<char>| out.contains(x) <==> exists|i: int| 0 <= i < flags.len() && #[trigger] flags[i] && graph.ids()[i] == x,
    ensures
        forall|x: Seq<char>| out.contains(x) <==> exists|t: int| 0 <= t < graph.specs().len() && (#[trigger] graph.specs()[t]).id@ == x && sel(t),
{
    assert forall|x: Seq<char>| out.contains(x) <==> exists|t: int| 0 <= t < graph.specs().len() && (#[trigger] graph.specs()[t]).id@ == x && sel(t) by {
        if out.contains(x) {
            let i = choose|i: int| 0 <= i < flags.len() && #[trigger] flags[i] && graph.ids()[i] == x;
            assert(graph.specs()[i].id@ == x && sel(i));
        }
        if exists|t: int| 0 <= t < graph.specs().len() && (#[trigger] graph.specs()[t]).id@ == x && sel(t) {
            let t = choose|t: int| 0 <= t < graph.specs().len() && (#[trigger] graph.specs()[t]).id@ == x && sel(t);
            assert(flags[t] && graph.ids()[t] == x);
        }
    }
}

/// Flags the eligible targets that some pattern matches.
fn include_all(graph: &BuildGraph, elig: &Vec<bool>, inc: &Vec<String>, Ghost(by): Ghost<(TestMode, SelectionOpts)>) -> (r: Result<Vec<bool>, SelectionError>)
    requires
        elig.len() == graph.specs().len(),
        forall|t: int| 0 <= t < elig.len() ==> #[trigger] elig@[t] == is_eligible(graph.specs()[t], by.0, by.1),
    ensures
        r is Ok <==> forall|i: int| 0 <= i < inc.len() ==> !include_fails(graph.specs(), by.0, by.1, #[trigger] strs(inc@)[i]),
        r matches Ok(v) ==> v.len() == elig.len() && forall|t: int| 0 <= t < v.len() ==> #[trigger] v@[t] == (elig@[t] && matches_any(strs(inc@), graph.specs()[t].id@)),
        r matches Err(e) ==> exists|i: int| #[trigger] first_failing(graph.specs(), by.0, by.1, strs(inc@), i) && include_error(graph.specs(), strs(inc@)[i], e),
{
    let ghost specs = graph.specs();
    let ghost iv = strs(inc@);
    let n: usize = elig.len();
    let mut flags: Vec<bool> = Vec::new();
    let mut z: usize = 0;
    while z < n
        invariant
            z <= n,
            flags.len() == z,
            forall|t: int| 0 <= t < z ==> !#[trigger] flags@[t],
        decreases n - z,
    {
        flags.push(false);
        z = z + 1;
    }
    let mut i: usize = 0;
    proof {
        assert forall|t: int| 0 <= t < n implies #[trigger] flags@[t] == (elig@[t] && matches_any(iv.take(0), specs[t].id@)) by {}
    }
    while i < inc.len()
        invariant
            i <= inc.len(),
            n == elig.len(),
            n == graph.specs().len(),
            specs == graph.specs(),
            iv == strs(inc@),
            flags.len() == n,
            forall|t: int| 0 <= t < n ==> #[trigger] elig@[t] == is_eligible(specs[t], by.0, by.1),
            forall|t: int| 0 <= t < n ==> #[trigger] flags@[t] == (elig@[t] && matches_any(iv.take(i as int), specs[t].id@)),
            forall|k: int| 0 <= k < i ==> !include_fails(specs, by.0, by.1, #[trigger] iv[k]),
        decreases inc.len() - i,
    {
        let ghost raw = iv[i as int];
        assert(raw == inc@[i as int]@);
        let pat = match LabelPattern::parse(inc[i].as_str()) {
            Ok(p) => p,
            Err(e) => {
                assert(include_fails(specs, by.0, by.1, raw));
                assert(first_failing(specs, by.0, by.1, iv, i as int));
                return Err(e);
            },
        };
        let ghost flags0 = flags@;
        let mut any: bool = false;
        let mut t: usize = 0;
        while t < n
            invariant
                t <= n,
                n == elig.len(),
                n == graph.specs().len(),
                specs == graph.specs(),
                flags.len() == n,
                pat.form() == pattern_form(raw),
                forall|k: int| 0 <= k < n ==> #[trigger] elig@[k] == is_eligible(specs[k], by.0, by.1),
                forall|k: int| 0 <= k < t ==> #[trigger] flags@[k] == (flags0[k] || (elig@[k] && pattern_matches(raw, specs[k].id@))),
                forall|k: int| t <= k < n ==> #[trigger] flags@[k] == flags0[k],
                any <==> exists|k: int| 0 <= k < t && is_eligible(#[trigger] specs[k], by.0, by.1) && pattern_matches(raw, specs[k].id@),
            decreases n - t,
        {
            assert(elig@[t as int] == is_eligible(specs[t as int], by.0, by.1));
            let hit: bool = elig[t] && pat.matches(&graph.at(t).id);
            if hit {
                any = true;
                flags.set(t, true);
            }
            t = t + 1;
        }
        assert(any == any_match(specs, by.0, by.1, raw));
        if !any && !has_glob_chars(inc[i].as_str()) {
            assert(is_miss(specs, by.0, by.1, raw));
            assert(first_failing(specs, by.0, by.1, iv, i as int));
            return Err(SelectionError::NoMatch { pattern: inc[i].clone(), suggestion: closest_label(graph, inc[i].as_str()) });
        }
        proof {
            assert forall|k: int| 0 <= k < n implies #[trigger] flags@[k] == (elig@[k] && matches_any(iv.take(i + 1), specs[k].id@)) by {
                lemma_matches_any_push(iv.take(i as int), raw, specs[k].id@);
                assert(iv.take(i + 1) == iv.take(i as int).push(raw));
                assert(flags0[k] == (elig@[k] && matches_any(iv.take(i as int), specs[k].id@)));
            }
        }
        i = i + 1;
    }
    assert(iv.take(i as int) == iv);
    Ok(flags)
}

proof fn lemma_matches_any_push(patterns: Seq<Seq<char>>, raw: Seq<char>, id: Seq<char>)
    ensures
        matches_any(patterns.push(raw), id) == (matches_any(patterns, id) || pattern_matches(raw, id)),
{
    let q = patterns.push(raw);
    if matches_any(patterns, id) {
        let i = choose|i: int| 0 <= i < patterns.len() && pattern_matches(#[trigger] patterns[i], id);
        assert(pattern_matches(q[i], id));
    }
    if pattern_matches(raw, id) {
        assert(pattern_matches(q[patterns.len() as int], id));
    }
    if matches_any(q, id) {
        let i = choose|i: int| 0 <= i < q.len() && pattern_matches(#[trigger] q[i], id);
        if i < patterns.len() {
            assert(pattern_matches(patterns[i], id));
        }
    }
}

/// Drops the flags of the targets that some pattern matches.
fn exclude_all(graph: &BuildGraph, flags: &Vec<bool>, exc: &Vec<String>) -> (r: Result<Vec<bool>, SelectionError>)
    requires
        flags.len() == graph.specs().len(),
    ensures
        r is Ok <==> all_compile(strs(exc@)),
        r matches Ok(v) ==> v.len() == flags.len() && forall|t: int| 0 <= t < v.len() ==> #[trigger] v@[t] == (flags@[t] && !matches_any(strs(exc@), graph.specs()[t].id@)),
        r matches Err(e) ==> exists|i: int| #[trigger] first_bad_pattern(strs(exc@), i) && bad_glob_error(strs(exc@)[i], e),
{
    let ghost specs = graph.specs();
    let ghost xv = strs(exc@);
    let n: usize = flags.len();
    let mut out: Vec<bool> = Vec::new();
    let mut z: usize = 0;
    while z < n
        invariant
            z <= n,
            n == flags.len(),
            out.len() == z,
            forall|t: int| 0 <= t < z ==> #[trigger] out@[t] == flags@[t],
        decreases n - z,
    {
        out.push(flags[z]);
        z = z + 1;
    }
    let mut i: usize = 0;
    proof {
        assert forall|t: int| 0 <= t < n implies #[trigger] out@[t] == (flags@[t] && !matches_any(xv.take(0), specs[t].id@)) by {}
    }
    while i < exc.len()
        invariant
            i <= exc.len(),
            n == flags.len(),
            n == graph.specs().len(),
            specs == graph.specs(),
            xv == strs(exc@),
            out.len() == n,
            forall|t: int| 0 <= t < n ==> #[trigger] out@[t] == (flags@[t] && !matches_any(xv.take(i as int), specs[t].id@)),
            forall|k: int| 0 <= k < i ==> pattern_error(#[trigger] xv[k]) is None,
        decreases exc.len() - i,
    {
        let ghost raw = xv[i as int];
        assert(raw == exc@[i as int]@);
        let pat = match LabelPattern::parse(exc[i].as_str()) {
            Ok(p) => p,
            Err(e) => {
                assert(first_bad_pattern(xv, i as int));
                return Err(e);
            },
        };
        let ghost out0 = out@;
        let mut t: usize = 0;
        while t < n
            invariant
                t <= n,
                n == graph.specs().len(),
                specs == graph.specs(),
                out.len() == n,
                pat.form() == pattern_form(raw),
                forall|k: int| 0 <= k < t ==> #[trigger] out@[k] == (out0[k] && !pattern_matches(raw, specs[k].id@)),
                forall|k: int| t <= k < n ==> #[trigger] out@[k] == out0[k],
            decreases n - t,
        {
            if pat.matches(&graph.at(t).id) {
                out.set(t, false);
            }
            t = t + 1;
        }
        proof {
            assert forall|k: int| 0 <= k < n implies #[trigger] out@[k] == (flags@[k] && !matches_any(xv.take(i + 1), specs[k].id@)) by {
                lemma_matches_any_push(xv.take(i as int), raw, specs[k].id@);
                assert(xv.take(i + 1) == xv.take(i as int).push(raw));
                assert(out0[k] == (flags@[k] && !matches_any(xv.take(i as int), specs[k].id@)));
            }
        }
        i = i + 1;
    }
    assert(xv.take(i as int) == xv);
    Ok(out)
}

/// An exclusion wins over every inclusion: what an excluding pattern matches is
/// not selected.
pub proof fn law_exclusion_wins(specs: Seq<TargetSpec>, mode: TestMode, opts: SelectionOpts, inc: Seq<Seq<char>>, exc: Seq<Seq<char>>, t: int, k: int)
    requires
        0 <= k < exc.len(),
        0 <= t < specs.len(),
        pattern_matches(exc[k], specs[t].id@),
    ensures
        !is_selected(specs, mode, opts, inc, exc, t),
{
    assert(matches_any(exc, specs[t].id@));
}

/// More inclusions select no less.
pub proof fn law_inclusion_unions(specs: Seq<TargetSpec>, mode: TestMode, opts: SelectionOpts, a: Seq<Seq<char>>, b: Seq<Seq<char>>, exc: Seq<Seq<char>>, t: int)
    ensures
        is_selected(specs, mode, opts, a + b, exc, t) <==> is_selected(specs, mode, opts, a, exc, t) || is_selected(specs, mode, opts, b, exc, t),
{
    let id = specs[t].id@;
    let q = a + b;
    if matches_any(a, id) {
        let i = choose|i: int| 0 <= i < a.len() && pattern_matches(#[trigger] a[i], id);
        assert(pattern_matches(q[i], id));
    }
    if matches_any(b, id) {
        let i = choose|i: int| 0 <= i < b.len() && pattern_matches(#[trigger] b[i], id);
        assert(pattern_matches(q[a.len() + i], id));
    }
    if matches_any(q, id) {
        let i = choose|i: int| 0 <= i < q.len() && pattern_matches(#[trigger] q[i], id);
        if i < a.len() {
            assert(pattern_matches(a[i], id));
        } else {
            assert(pattern_matches(b[i - a.len()], id));
        }
    }
}

/// `//...` matches every label.
pub proof fn law_everything_matches(id: Seq<char>)
    ensures
        pattern_matches("//..."@, id),
        pattern_error("//..."@) is None,
{
    reveal_strlit("//...");
    reveal_strlit("//");
    reveal_strlit("...");
    reveal_strlit("/");
    let raw = "//..."@;
    assert(raw.take(2) =~= "//"@);
    let body = label_body(raw);
    assert(body =~= "..."@);
    assert(body.skip(0) =~= "..."@);
    assert(has_suffix(body, "..."@));
    assert(body.take(0).len() == 0);
}

/// The two slashes in front of a pattern are optional.
pub proof fn law_slashes_optional(body: Seq<char>, id: Seq<char>)
    requires
        !has_prefix(body, "//"@),
    ensures
        pattern_matches(body, id) <==> pattern_matches("//"@ + body, id),
        pattern_error(body) is None <==> pattern_error("//"@ + body) is None,
{
    lemma_slashed(body);
}

proof fn lemma_slashed(body: Seq<char>)
    ensures
        label_body("//"@ + body) == body,
{
    reveal_strlit("//");
    let raw = "//"@ + body;
    assert(raw.take(2) =~= "//"@);
    assert(raw.skip(2) =~= body);
}

proof fn lemma_last_at(s: Seq<char>, c: char, k: int)
    requires
        0 <= k < s.len(),
        s[k] == c,
        !s.skip(k + 1).contains(c),
    ensures
        last_index(s, c) == k,
{
    crate::model::lemma_last_index(s, c);
    let m = last_index(s, c);
    if m > k {
        assert(s.skip(k + 1)[m - k - 1] == c);
    }
}

proof fn lemma_last_none(s: Seq<char>, c: char)
    requires
        !s.contains(c),
    ensures
        last_index(s, c) == -1,
{
    crate::model::lemma_last_index(s, c);
    if last_index(s, c) >= 0 {
        assert(s.contains(s[last_index(s, c)]));
    }
}

/// Only what stands behind the colon can end an exact pattern in dots.
proof fn lemma_dots_behind_colon(p: Seq<char>, n: Seq<char>)
    requires
        !has_suffix(n, "..."@),
    ensures
        !has_suffix(p + ":"@ + n, "..."@),
{
    reveal_strlit("...");
    reveal_strlit(":");
    let s = p + ":"@ + n;
    if has_suffix(s, "..."@) {
        let t = s.skip(s.len() - 3);
        if n.len() >= 3 {
            assert(n.skip(n.len() - 3) =~= t);
        } else {
            assert(t[2 - n.len()] == ':');
        }
    }
}

/// The form of a pattern that names a package and a target.
proof fn lemma_exact_form(p: Seq<char>, n: Seq<char>)
    requires
        !n.contains(':'),
        !has_suffix(n, "..."@),
    ensures
        pattern_form("//"@ + p + ":"@ + n) == PatternForm::Exact(p, n),
{
    reveal_strlit(":");
    let body = p + ":"@ + n;
    assert("//"@ + p + ":"@ + n =~= "//"@ + body);
    lemma_slashed(body);
    lemma_dots_behind_colon(p, n);
    let k = p.len() as int;
    assert(body.skip(k + 1) =~= n);
    assert(body.take(k) =~= p);
    lemma_last_at(body, ':', k);
}

/// A pattern without a colon is short for its package with the last part as the
/// name: `//a/b` matches what `//a/b:b` matches, and nothing else.
pub proof fn law_bare_pattern(dir: Seq<char>, name: Seq<char>, id: Seq<char>)
    requires
        dir.len() == 0 || dir.last() == '/',
        !dir.contains(':'),
        !name.contains(':'),
        !name.contains('/'),
        !has_suffix(dir + name, "..."@),
    ensures
        pattern_matches("//"@ + dir + name, id) <==> pattern_matches("//"@ + dir + name + ":"@ + name, id),
        pattern_error("//"@ + dir + name) == pattern_error("//"@ + dir + name + ":"@ + name),
{
    lemma_bare_form(dir, name);
    assert("//"@ + dir + name + ":"@ + name =~= "//"@ + (dir + name) + ":"@ + name);
    assert(!has_suffix(name, "..."@)) by {
        reveal_strlit("...");
        if has_suffix(name, "..."@) {
            let body = dir + name;
            assert(body.skip(body.len() - 3) =~= name.skip(name.len() - 3));
        }
    }
    lemma_exact_form(dir + name, name);
}

proof fn lemma_bare_form(dir: Seq<char>, name: Seq<char>)
    requires
        dir.len() == 0 || dir.last() == '/',
        !dir.contains(':'),
        !name.contains(':'),
        !name.contains('/'),
        !has_suffix(dir + name, "..."@),
    ensures
        pattern_form("//"@ + dir + name) == PatternForm::Exact(dir + name, name),
{
    let body = dir + name;
    assert("//"@ + dir + name =~= "//"@ + body);
    lemma_slashed(body);
    if body.contains(':') {
        let i = choose|i: int| 0 <= i < body.len() && body[i] == ':';
        if i < dir.len() {
            assert(dir[i] == ':');
        } else {
            assert(name[i - dir.len()] == ':');
        }
    }
    lemma_last_none(body, ':');
    if dir.len() == 0 {
        assert(body =~= name);
        lemma_last_none(body, '/');
        assert(body.skip(0) =~= name);
    } else {
        let k = dir.len() - 1;
        assert(body.skip(k + 1) =~= name);
        lemma_last_at(body, '/', k);
    }
}

/// Where the globs of `//a/b` stand for themselves alone, the pattern matches
/// the target `b` of package `a/b` and no other.
pub proof fn law_bare_literal(dir: Seq<char>, name: Seq<char>, package: Seq<char>, target: Seq<char>)
    requires
        dir.len() == 0 || dir.last() == '/',
        !dir.contains(':'),
        !name.contains(':'),
        !name.contains('/'),
        !has_suffix(dir + name, "..."@),
        !target.contains(':'),
        forall|t: Seq<char>| glob_match(dir + name, t, true, true, false) <==> t == dir + name,
        forall|t: Seq<char>| glob_match(name, t, true, true, false) <==> t == name,
    ensures
        pattern_matches("//"@ + dir + name, "//"@ + package + ":"@ + target) <==> package == dir + name && target == name,
{
    lemma_bare_form(dir, name);
    crate::model::law_split_label(package, target);
}

/// `//package:name` matches a target if its package matches the one glob and its
/// name the other, where `*` does not cross a slash.
pub proof fn law_exact_pattern(p: Seq<char>, n: Seq<char>, package: Seq<char>, target: Seq<char>)
    requires
        !n.contains(':'),
        !has_suffix(n, "..."@),
        !target.contains(':'),
    ensures
        pattern_matches("//"@ + p + ":"@ + n, "//"@ + package + ":"@ + target) <==> glob_match(p, package, true, true, false) && glob_match(n, target, true, true, false),
        pattern_error("//"@ + p + ":"@ + n) is None <==> glob_error(p) is None && glob_error(n) is None,
{
    lemma_exact_form(p, n);
    crate::model::law_split_label(package, target);
}

/// `//dir/...` matches the targets of the package `dir` and of every package
/// below it, whatever their names, and no target of another package.
pub proof fn law_recursive_pattern(dir: Seq<char>, package: Seq<char>, target: Seq<char>)
    requires
        dir.len() > 0,
        dir.last() != '/',
        !target.contains(':'),
    ensures
        pattern_matches("//"@ + dir + "/..."@, "//"@ + package + ":"@ + target) <==> package == dir || has_prefix(package, dir + "/"@),
        pattern_matches("//"@ + dir + "..."@, "//"@ + package + ":"@ + target) <==> package == dir || has_prefix(package, dir + "/"@),
        pattern_error("//"@ + dir + "/..."@) is None,
{
    reveal_strlit("/...");
    reveal_strlit("...");
    reveal_strlit("/");
    let a = dir + "/..."@;
    let b = dir + "..."@;
    assert("//"@ + dir + "/..."@ =~= "//"@ + a);
    assert("//"@ + dir + "..."@ =~= "//"@ + b);
    lemma_slashed(a);
    lemma_slashed(b);
    assert(a.skip(a.len() - 3) =~= "..."@);
    assert(b.skip(b.len() - 3) =~= "..."@);
    let p = a.take(a.len() - 3);
    assert(p =~= dir + "/"@);
    assert(p.skip(p.len() - 1) =~= "/"@);
    assert(p.drop_last() =~= dir);
    let q = b.take(b.len() - 3);
    assert(q =~= dir);
    if has_suffix(q, "/"@) {
        assert(q.skip(q.len() - 1)[0] == q.last());
    }
    crate::model::law_split_label(package, target);
}

/// The texts of a list that start with an exclamation mark exclude.
pub open spec fn excludes(pattern: Seq<char>) -> bool {
    pattern.len() > 0 && pattern[0] == '!'
}

proof fn lemma_excludes(pattern: Seq<char>)
    ensures
        has_prefix(pattern, "!"@) <==> excludes(pattern),
{
    reveal_strlit("!");
    if excludes(pattern) {
        assert(pattern.take(1) =~= "!"@);
    }
    if has_prefix(pattern, "!"@) {
        assert(pattern.take(1)[0] == pattern[0]);
    }
}

proof fn lemma_includes_members(patterns: Seq<Seq<char>>, x: Seq<char>)
    ensures
        includes_of(patterns).contains(x) <==> patterns.contains(x) && !excludes(x),
    decreases patterns.len(),
{
    if patterns.len() > 0 {
        let rest = patterns.drop_last();
        let p = patterns.last();
        lemma_includes_members(rest, x);
        lemma_excludes(p);
        assert(patterns =~= rest.push(p));
        crate::order::lemma_push_contains(rest, p, x);
        crate::order::lemma_push_contains(includes_of(rest), p, x);
    }
}

proof fn lemma_excludes_members(patterns: Seq<Seq<char>>, x: Seq<char>)
    ensures
        excludes_of(patterns).contains(x) <==> patterns.contains(seq!['!'] + x),
    decreases patterns.len(),
{
    if patterns.len() > 0 {
        let rest = patterns.drop_last();
        let p = patterns.last();
        lemma_excludes_members(rest, x);
        lemma_excludes(p);
        assert(patterns =~= rest.push(p));
        crate::order::lemma_push_contains(rest, p, seq!['!'] + x);
        crate::order::lemma_push_contains(excludes_of(rest), p.skip(1), x);
        if excludes(p) {
            assert(p =~= seq!['!'] + p.skip(1));
            assert((seq!['!'] + x).skip(1) =~= x);
        } else {
            assert((seq!['!'] + x)[0] == '!');
        }
    }
}

/// What is selected passes every filter: it is a test or not as asked for, has
/// a tag that was asked for and none that was ruled out, is matched by no
/// pattern behind `!` and, where there are other patterns, by one of them.
pub proof fn law_selected_passes(specs: Seq<TargetSpec>, patterns: Seq<Seq<char>>, mode: TestMode, opts: SelectionOpts, v: Seq<Seq<char>>, t: int)
    requires
        resolved_to(specs, patterns, mode, opts, v),
        0 <= t < specs.len(),
        forall|u: int| 0 <= u < specs.len() && (#[trigger] specs[u]).id@ == specs[t].id@ ==> u == t,
        v.contains(specs[t].id@),
    ensures
        mode is Exclude ==> !specs[t].test,
        mode is Only ==> specs[t].test,
        opts.tags@.len() > 0 ==> exists|tag: Seq<char>| strs(opts.tags@).contains(tag) && #[trigger] strs(specs[t].tags@).contains(tag),
        forall|tag: Seq<char>| strs(opts.no_tags@).contains(tag) ==> !#[trigger] strs(specs[t].tags@).contains(tag),
        forall|x: Seq<char>| patterns.contains(seq!['!'] + x) ==> !#[trigger] pattern_matches(x, specs[t].id@),
        (exists|x: Seq<char>| patterns.contains(x) && !excludes(x)) ==> exists|x: Seq<char>| patterns.contains(x) && !excludes(x) && #[trigger] pattern_matches(x, specs[t].id@),
{
    let id = specs[t].id@;
    let u = choose|u: int| 0 <= u < specs.len() && (#[trigger] specs[u]).id@ == id && selects(specs, patterns, mode, opts, u);
    assert(u == t);
    assert(is_eligible(specs[t], mode, opts));
    if opts.tags@.len() > 0 {
        let a = strs(opts.tags@);
        let i = choose|i: int| 0 <= i < a.len() && strs(specs[t].tags@).contains(#[trigger] a[i]);
        assert(a.contains(a[i]) && strs(specs[t].tags@).contains(a[i]));
    }
    assert forall|tag: Seq<char>| strs(opts.no_tags@).contains(tag) implies !#[trigger] strs(specs[t].tags@).contains(tag) by {
        let a = strs(opts.no_tags@);
        let i = choose|i: int| 0 <= i < a.len() && a[i] == tag;
        assert(!strs(specs[t].tags@).contains(a[i]));
    }
    assert forall|x: Seq<char>| patterns.contains(seq!['!'] + x) implies !#[trigger] pattern_matches(x, id) by {
        lemma_excludes_members(patterns, x);
        let e = excludes_of(patterns);
        let i = choose|i: int| 0 <= i < e.len() && e[i] == x;
        if pattern_matches(x, id) {
            assert(pattern_matches(e[i], id));
        }
    }
    if exists|x: Seq<char>| patterns.contains(x) && !excludes(x) {
        let y = choose|x: Seq<char>| patterns.contains(x) && !excludes(x);
        lemma_includes_members(patterns, y);
        let inc = includes_of(patterns);
        assert(inc.contains(y));
        assert(inc.len() > 0);
        let i = choose|i: int| 0 <= i < inc.len() && pattern_matches(#[trigger] inc[i], id);
        assert(inc.contains(inc[i]));
        lemma_includes_members(patterns, inc[i]);
        assert(patterns.contains(inc[i]) && pattern_matches(inc[i], id));
    }
}

/// What passes every filter is selected.
pub proof fn law_passing_selected(specs: Seq<TargetSpec>, patterns: Seq<Seq<char>>, mode: TestMode, opts: SelectionOpts, v: Seq<Seq<char>>, t: int)
    requires
        resolved_to(specs, patterns, mode, opts, v),
        0 <= t < specs.len(),
        mode is Exclude ==> !specs[t].test,
        mode is Only ==> specs[t].test,
        opts.tags@.len() > 0 ==> exists|tag: Seq<char>| strs(opts.tags@).contains(tag) && #[trigger] strs(specs[t].tags@).contains(tag),
        forall|tag: Seq<char>| strs(opts.no_tags@).contains(tag) ==> !#[trigger] strs(specs[t].tags@).contains(tag),
        forall|x: Seq<char>| #[trigger] pattern_matches(x, specs[t].id@) ==> !patterns.contains(seq!['!'] + x),
        (exists|x: Seq<char>| patterns.contains(x) && !excludes(x)) ==> exists|x: Seq<char>| patterns.contains(x) && !excludes(x) && #[trigger] pattern_matches(x, specs[t].id@),
    ensures
        v.contains(specs[t].id@),
{
    let id = specs[t].id@;
    let inc = includes_of(patterns);
    let exc = excludes_of(patterns);
    let own = strs(specs[t].tags@);
    if opts.tags@.len() > 0 {
        let a = strs(opts.tags@);
        let tag = choose|tag: Seq<char>| a.contains(tag) && #[trigger] own.contains(tag);
        let i = choose|i: int| 0 <= i < a.len() && a[i] == tag;
        assert(own.contains(a[i]));
        assert(overlap(a, own));
    }
    let none = strs(opts.no_tags@);
    if overlap(none, own) {
        let i = choose|i: int| 0 <= i < none.len() && own.contains(#[trigger] none[i]);
        assert(none.contains(none[i]));
    }
    assert(is_eligible(specs[t], mode, opts));
    if matches_any(exc, id) {
        let i = choose|i: int| 0 <= i < exc.len() && pattern_matches(#[trigger] exc[i], id);
        assert(exc.contains(exc[i]));
        lemma_excludes_members(patterns, exc[i]);
    }
    if inc.len() > 0 {
        assert(inc.contains(inc[0]));
        lemma_includes_members(patterns, inc[0]);
        let x = choose|x: Seq<char>| patterns.contains(x) && !excludes(x) && #[trigger] pattern_matches(x, id);
        lemma_includes_members(patterns, x);
        let i = choose|i: int| 0 <= i < inc.len() && inc[i] == x;
        assert(pattern_matches(inc[i], id));
        assert(matches_any(effective_includes(patterns), id));
    } else {
        law_everything_matches(id);
        let e = effective_includes(patterns);
        assert(e[0] == "//..."@);
        assert(pattern_matches(e[0], id));
        assert(matches_any(e, id));
    }
    assert(selects(specs, patterns, mode, opts, t));
}

/// A pattern that is spelled out, with no wildcard in it, has to match a target:
/// otherwise the patterns are refused.
pub proof fn law_literal_has_to_match(specs: Seq<TargetSpec>, patterns: Seq<Seq<char>>, mode: TestMode, opts: SelectionOpts, x: Seq<char>)
    requires
        patterns.contains(x),
        !excludes(x),
        !x.contains('*') && !x.contains('?') && !x.contains('['),
        forall|i: int| 0 <= i <= x.len() - 3 ==> !(x[i] == '.' && #[trigger] x[i + 1] == '.' && x[i + 2] == '.'),
        forall|t: int| 0 <= t < specs.len() ==> !pattern_matches(x, (#[trigger] specs[t]).id@),
    ensures
        !patterns_resolve(specs, patterns, mode, opts),
{
    lemma_includes_members(patterns, x);
    let inc = includes_of(patterns);
    let i = choose|i: int| 0 <= i < inc.len() && inc[i] == x;
    assert(inc.len() > 0);
    assert(effective_includes(patterns)[i] == x);
    if occurs_in(x, "..."@) {
        reveal_strlit("...");
        let k = choose|k: int| crate::text::occurs_at(x, "..."@, k);
        let s = x.subrange(k, k + 3);
        assert(s[0] == x[k] && s[1] == x[k + 1] && s[2] == x[k + 2]);
    }
    assert(include_fails(specs, mode, opts, effective_includes(patterns)[i]));
}

/// An input glob of `spec` matches one of the files.
#[verifier::opaque]
pub open spec fn touched(spec: TargetSpec, files: Seq<Seq<char>>) -> bool {
    exists|i: int, k: int|
        #![trigger spec.inputs@[i], files[k]]
        0 <= i < spec.inputs@.len() && 0 <= k < files.len() && input_matches(spec.inputs@[i], files[k])
}

/// Whether an input glob of `spec` matches one of `files`.
pub fn target_inputs_match_any(spec: &TargetSpec, files: &Vec<String>) -> (r: bool)
    ensures
        r == touched(*spec, strs(files@)),
{
    reveal(touched);
    let ghost fv = strs(files@);
    let mut i: usize = 0;
    while i < spec.inputs.len()
        invariant
            i <= spec.inputs.len(),
            fv == strs(files@),
            forall|a: int, k: int| #![trigger spec.inputs@[a], fv[k]] 0 <= a < i && 0 <= k < fv.len() ==> !input_matches(spec.inputs@[a], fv[k]),
        decreases spec.inputs.len() - i,
    {
        match &spec.inputs[i] {
            Input::File { glob } => {
                let mut k: usize = 0;
                while k < files.len()
                    invariant
                        k <= files.len(),
                        i < spec.inputs.len(),
                        fv == strs(files@),
                        spec.inputs@[i as int] == (Input::File { glob: *glob }),
                        forall|m: int| 0 <= m < k ==> !input_matches(spec.inputs@[i as int], #[trigger] fv[m]),
                    decreases files.len() - k,
                {
                    assert(fv[k as int] == files@[k as int]@);
                    if glob.matches(files[k].as_str()) {
                        assert(input_matches(spec.inputs@[i as int], fv[k as int]));
                        reveal(touched);
                        return true;
                    }
                    k = k + 1;
                }
            },
            Input::Fingerprint { .. } => {},
        }
        i = i + 1;
    }
    false
}

/// Target `x` is affected: it or something it depends on is touched.
pub open spec fn is_affected(graph: &BuildGraph, files: Seq<Seq<char>>, x: int) -> bool {
    exists|d: int|
        #![trigger graph.specs()[d]]
        0 <= d < graph.specs().len() && touched(graph.specs()[d], files) && reaches(reversed(graph.edges()), d, x)
}

/// What depends on an affected target is affected.
pub proof fn law_affected_downstream(graph: &BuildGraph, files: Seq<Seq<char>>, x: int, y: int)
    requires
        is_affected(graph, files, x),
        graph.edges().contains((y, x)),
    ensures
        is_affected(graph, files, y),
{
    let d = choose|d: int|
        #![trigger graph.specs()[d]]
        0 <= d < graph.specs().len() && touched(graph.specs()[d], files) && reaches(reversed(graph.edges()), d, x);
    crate::dag::lemma_reaches_step(reversed(graph.edges()), d, x, y);
    assert(touched(graph.specs()[d], files));
}

/// More changed files affect no less.
pub proof fn law_affected_monotone(graph: &BuildGraph, a: Seq<Seq<char>>, b: Seq<Seq<char>>, x: int)
    requires
        forall|f: Seq<char>| a.contains(f) ==> b.contains(f),
        is_affected(graph, a, x),
    ensures
        is_affected(graph, b, x),
{
    reveal(touched);
    let d = choose|d: int|
        #![trigger graph.specs()[d]]
        0 <= d < graph.specs().len() && touched(graph.specs()[d], a) && reaches(reversed(graph.edges()), d, x);
    let spec = graph.specs()[d];
    let (i, k) = choose|i: int, k: int|
        #![trigger spec.inputs@[i], a[k]]
        0 <= i < spec.inputs@.len() && 0 <= k < a.len() && input_matches(spec.inputs@[i], a[k]);
    assert(a.contains(a[k]));
    assert(b.contains(a[k]));
    let m = choose|m: int| 0 <= m < b.len() && b[m] == a[k];
    assert(input_matches(spec.inputs@[i], b[m]));
    assert(touched(spec, b));
}

/// `v` holds the labels of the affected targets, sorted, each once.
pub open spec fn affected_to(graph: &BuildGraph, files: Seq<Seq<char>>, v: Seq<Seq<char>>) -> bool {
    &&& ascending(v)
    &&& forall|x: Seq<char>| #[trigger] v.contains(x) <==> exists|t: int| 0 <= t < graph.specs().len() && (#[trigger] graph.specs()[t]).id@ == x && is_affected(graph, files, t)
}

/// A change to any input of a target affects it and everything that depends on
/// it, however far: where a chain of dependencies ends at a target one of whose
/// input globs matches a changed file, the target it starts from is listed.
pub proof fn law_change_affects(graph: &BuildGraph, files: Seq<Seq<char>>, v: Seq<Seq<char>>, chain: Seq<int>, glob: GlobPattern, i: int, k: int)
    requires
        affected_to(graph, files, v),
        is_chain(graph.edges(), chain),
        forall|j: int| 0 <= j < chain.len() ==> 0 <= #[trigger] chain[j] < graph.specs().len(),
        0 <= i < graph.specs()[chain.last()].inputs@.len(),
        graph.specs()[chain.last()].inputs@[i] == (Input::File { glob }),
        0 <= k < files.len(),
        glob_match(glob@, files[k], true, false, false),
    ensures
        v.contains(graph.specs()[chain[0]].id@),
{
    lemma_chain_affects(graph, files, chain, glob, i, k);
    assert(is_affected(graph, files, chain[0]));
    assert(graph.specs()[chain[0]].id@ == graph.specs()[chain[0]].id@);
}

proof fn lemma_walk_of_chain(edges: Set<(int, int)>, chain: Seq<int>)
    requires
        is_chain(edges, chain),
    ensures
        reaches(reversed(edges), chain.last(), chain[0]),
    decreases chain.len(),
{
    let e = reversed(edges);
    if chain.len() == 1 {
        crate::dag::lemma_reaches_self(e, chain[0]);
    } else {
        let rest = chain.drop_first();
        assert forall|j: int, m: int| 0 <= j && m == j + 1 && m < rest.len() implies edges.contains((#[trigger] rest[j], #[trigger] rest[m])) by {
            assert(rest[j] == chain[j + 1] && rest[m] == chain[m + 1]);
        }
        lemma_walk_of_chain(edges, rest);
        assert(rest.last() == chain.last());
        assert(edges.contains((chain[0], chain[1])));
        crate::dag::lemma_reaches_step(e, chain.last(), chain[1], chain[0]);
    }
}

/// A chain that ends at a target one of whose input globs matches a changed file
/// starts at one that is affected.
pub proof fn lemma_chain_affects(graph: &BuildGraph, files: Seq<Seq<char>>, chain: Seq<int>, glob: GlobPattern, i: int, k: int)
    requires
        is_chain(graph.edges(), chain),
        forall|j: int| 0 <= j < chain.len() ==> 0 <= #[trigger] chain[j] < graph.specs().len(),
        0 <= i < graph.specs()[chain.last()].inputs@.len(),
        graph.specs()[chain.last()].inputs@[i] == (Input::File { glob }),
        0 <= k < files.len(),
        glob_match(glob@, files[k], true, false, false),
    ensures
        is_affected(graph, files, chain[0]),
{
    let d = chain.last();
    let spec = graph.specs()[d];
    assert(touched(spec, files)) by {
        reveal(touched);
        assert(input_matches(spec.inputs@[i], files[k]));
    }
    lemma_walk_of_chain(graph.edges(), chain);
    assert(touched(graph.specs()[d], files));
}

/// An input glob of target `t` matches a changed file.
pub open spec fn reads_changed(graph: &BuildGraph, files: Seq<Seq<char>>, t: int) -> bool {
    exists|i: int, k: int|
        #![trigger graph.specs()[t].inputs@[i], files[k]]
        0 <= i < graph.specs()[t].inputs@.len() && 0 <= k < files.len() && (graph.specs()[t].inputs@[i] matches Input::File { glob } && glob_match(glob@, files[k], true, false, false))
}

proof fn lemma_chain_of_walk(edges: Set<(int, int)>, d: int, t: int) -> (chain: Seq<int>)
    requires
        reaches(reversed(edges), d, t),
    ensures
        is_chain(edges, chain),
        chain[0] == t,
        chain.last() == d,
{
    let e = reversed(edges);
    let p = crate::dag::lemma_reaches_chain(e, d, t);
    let chain = p.reverse();
    let n = p.len() as int;
    assert forall|j: int, m: int| 0 <= j && m == j + 1 && m < chain.len() implies edges.contains((#[trigger] chain[j], #[trigger] chain[m])) by {
        assert(e.contains((p[n - 1 - m], p[n - 1 - j])));
    }
    chain
}

/// From an affected target a chain leads to one that reads a changed file.
pub proof fn lemma_affected_chain(graph: &BuildGraph, files: Seq<Seq<char>>, t: int) -> (chain: Seq<int>)
    requires
        is_affected(graph, files, t),
    ensures
        is_chain(graph.edges(), chain),
        chain[0] == t,
        reads_changed(graph, files, chain.last()),
{
    let d = choose|d: int|
        #![trigger graph.specs()[d]]
        0 <= d < graph.specs().len() && touched(graph.specs()[d], files) && reaches(reversed(graph.edges()), d, t);
    let chain = lemma_chain_of_walk(graph.edges(), d, t);
    assert(reads_changed(graph, files, d)) by {
        reveal(touched);
        let spec = graph.specs()[d];
        let (i, k) = choose|i: int, k: int|
            #![trigger spec.inputs@[i], files[k]]
            0 <= i < spec.inputs@.len() && 0 <= k < files.len() && input_matches(spec.inputs@[i], files[k]);
        assert(graph.specs()[d].inputs@[i] == spec.inputs@[i] && files[k] == files[k]);
    }
    chain
}

/// Nothing else is affected: what is listed depends, over some chain, on a
/// target one of whose input globs matches a changed file.
pub proof fn law_only_change_affects(graph: &BuildGraph, files: Seq<Seq<char>>, v: Seq<Seq<char>>, x: Seq<char>)
    requires
        affected_to(graph, files, v),
        v.contains(x),
    ensures
        exists|chain: Seq<int>| #[trigger] is_chain(graph.edges(), chain) && 0 <= chain[0] < graph.specs().len() && graph.specs()[chain[0]].id@ == x && reads_changed(graph, files, chain.last()),
{
    let t = choose|t: int| 0 <= t < graph.specs().len() && (#[trigger] graph.specs()[t]).id@ == x && is_affected(graph, files, t);
    let chain = lemma_affected_chain(graph, files, t);
    assert(is_chain(graph.edges(), chain));
}

proof fn lemma_reached_is_affected(graph: &BuildGraph, files: Seq<Seq<char>>, direct: Seq<usize>, t: int)
    requires
        graph.specs().len() <= usize::MAX,
        forall|k: int| 0 <= k < direct.len() ==> #[trigger] direct[k] < graph.specs().len() && touched(graph.specs()[direct[k] as int], files),
        forall|d: usize| d < graph.specs().len() && touched(graph.specs()[d as int], files) ==> #[trigger] direct.contains(d),
    ensures
        reached(reversed(graph.edges()), direct, t) == is_affected(graph, files, t),
{
    let e = reversed(graph.edges());
    reveal(reached);
    if reached(e, direct, t) {
        let k = choose|k: int| 0 <= k < direct.len() && reaches(e, #[trigger] direct[k] as int, t);
        assert(touched(graph.specs()[direct[k] as int], files));
    }
    if is_affected(graph, files, t) {
        let d = choose|d: int|
            #![trigger graph.specs()[d]]
            0 <= d < graph.specs().len() && touched(graph.specs()[d], files) && reaches(e, d, t);
        assert(direct.contains(d as usize));
        let k = choose|k: int| 0 <= k < direct.len() && direct[k] == d as usize;
        assert(reaches(e, direct[k] as int, t));
    }
}

/// The labels of the targets that the changed files affect, sorted: those with
/// an input glob that matches one, and all that depend on them.
pub fn affected_targets(graph: &BuildGraph, changed_files: &Vec<String>) -> (r: Vec<TargetId>)
    requires
        graph.well_formed(),
    ensures
        ascending(ids_of(r@)),
        forall|x: Seq<char>| ids_of(r@).contains(x) <==> exists|t: int| 0 <= t < graph.specs().len() && (#[trigger] graph.specs()[t]).id@ == x && is_affected(graph, strs(changed_files@), t),
        affected_to(graph, strs(changed_files@), ids_of(r@)),
{
    let n: usize = graph.len();
    let ghost specs = graph.specs();
    let ghost fv = strs(changed_files@);
    let mut direct: Vec<usize> = Vec::new();
    let mut i: usize = 0;
    while i < n
        invariant
            i <= n,
            n == graph.specs().len(),
            specs == graph.specs(),
            fv == strs(changed_files@),
            forall|k: int| 0 <= k < direct.len() ==> #[trigger] direct@[k] < n && touched(specs[direct@[k] as int], fv),
            forall|t: usize| t < i && touched(specs[t as int], fv) ==> #[trigger] direct@.contains(t),
        decreases n - i,
    {
        let ghost before = direct@;
        let hit: bool = target_inputs_match_any(graph.at(i), changed_files);
        if hit {
            direct.push(i);
        }
        proof {
            assert forall|t: usize| t < i + 1 && touched(specs[t as int], fv) implies #[trigger] direct@.contains(t) by {
                if hit {
                    crate::order::lemma_push_contains(before, i, t);
                }
            }
            assert forall|k: int| 0 <= k < direct@.len() implies #[trigger] direct@[k] < n && touched(specs[direct@[k] as int], fv) by {
                if k < before.len() {
                    assert(direct@[k] == before[k]);
                }
            }
        }
        i = i + 1;
    }
    let marks = graph.spread(&direct, false);
    let r = graph.flagged(&marks);
    proof {
        let e = reversed(graph.edges());
        assert(directed(graph.edges(), false) == e);
        assert forall|t: int| 0 <= t < n implies #[trigger] marks@[t] == is_affected(graph, fv, t) by {
            assert(marks@[t] == reached(e, direct@, t));
            lemma_reached_is_affected(graph, fv, direct@, t);
        }
        lemma_flagged(graph, marks@, ids_of(r@), |t: int| is_affected(graph, fv, t));
    }
    r
}

/// At place `i` a character was taken out of `a`, put into it or replaced, which
/// gives `b`.
pub open spec fn edited_at(a: Seq<char>, b: Seq<char>, i: int) -> bool {
    ||| 0 <= i < a.len() && b == a.remove(i)
    ||| 0 <= i < b.len() && a == b.remove(i)
    ||| 0 <= i < a.len() && a.len() == b.len() && b == a.update(i, b[i])
}

/// One edit changes the distance to any text by one at the most.
pub proof fn law_edit_step(a: Seq<char>, b: Seq<char>, c: Seq<char>, i: int)
    requires
        edited_at(a, b, i),
    ensures
        edit(a, c) <= edit(b, c) + 1,
        edit(b, c) <= edit(a, c) + 1,
{
    if 0 <= i < a.len() && b == a.remove(i) {
        lemma_edit_remove(a, c, i);
    } else if 0 <= i < b.len() && a == b.remove(i) {
        lemma_edit_remove(b, c, i);
    } else {
        lemma_edit_update(a, c, i, b[i]);
        lemma_edit_update(b, c, i, a[i]);
        assert(a == b.update(i, a[i]));
    }
}

/// A text at some distance can be brought nearer by one edit. As each edit gains
/// one at the most, the distance is the least number of edits.
pub proof fn law_edit_reached(a: Seq<char>, b: Seq<char>)
    requires
        a != b,
    ensures
        exists|m: Seq<char>, i: int| #[trigger] edited_at(a, m, i) && edit(m, b) + 1 == edit(a, b),
{
    law_edit_zero(a, b);
    let (m, i) = lemma_edit_nearer(a, b);
    law_edit_step(a, m, b, i);
}

proof fn lemma_edit_nearer(a: Seq<char>, b: Seq<char>) -> (r: (Seq<char>, int))
    requires
        edit(a, b) > 0,
    ensures
        edited_at(a, r.0, r.1),
        edit(r.0, b) + 1 <= edit(a, b),
    decreases a.len() + b.len(),
{
    if a.len() == 0 {
        let m = seq![b.last()];
        assert(m.remove(0) == a);
        assert(m.drop_last() == a);
        assert(edit(a, b.drop_last()) == b.len() - 1);
        (m, 0)
    } else if b.len() == 0 {
        let m = a.drop_last();
        assert(a.remove(a.len() - 1) == m);
        assert(edit(m, b) == a.len() - 1);
        (m, a.len() - 1)
    } else if edit(a, b) == edit(a.drop_last(), b) + 1 {
        assert(a.remove(a.len() - 1) == a.drop_last());
        (a.drop_last(), a.len() - 1)
    } else if edit(a, b) == edit(a, b.drop_last()) + 1 {
        let m = a.push(b.last());
        assert(m.remove(a.len() as int) == a);
        assert(m.drop_last() == a);
        (m, a.len() as int)
    } else if a.last() != b.last() {
        let n = a.len() - 1;
        let m = a.update(n, b.last());
        assert(m.drop_last() == a.drop_last());
        assert(m == a.update(n, m[n]));
        (m, n)
    } else {
        let (k, i) = lemma_edit_nearer(a.drop_last(), b.drop_last());
        let m = k.push(a.last());
        let d = a.drop_last();
        assert(m.drop_last() == k);
        assert(a == d.push(a.last()));
        if 0 <= i < d.len() && k == d.remove(i) {
            assert(m == a.remove(i));
        } else if 0 <= i < k.len() && d == k.remove(i) {
            assert(a == m.remove(i));
        } else {
            assert(m == a.update(i, m[i]));
        }
        (m, i)
    }
}

proof fn lemma_edit_remove(a: Seq<char>, c: Seq<char>, i: int)
    requires
        0 <= i < a.len(),
    ensures
        edit(a, c) <= edit(a.remove(i), c) + 1,
        edit(a.remove(i), c) <= edit(a, c) + 1,
    decreases a.len() + c.len(),
{
    let r = a.remove(i);
    if c.len() > 0 {
        lemma_edit_remove(a, c.drop_last(), i);
        if i == a.len() - 1 {
            assert(r == a.drop_last());
            if r.len() == 0 {
                assert(edit(r, c) == edit(r, c.drop_last()) + 1);
            }
        } else {
            assert(r.drop_last() == a.drop_last().remove(i));
            assert(r.last() == a.last());
            lemma_edit_remove(a.drop_last(), c, i);
            lemma_edit_remove(a.drop_last(), c.drop_last(), i);
        }
    }
}

proof fn lemma_edit_update(a: Seq<char>, c: Seq<char>, i: int, x: char)
    requires
        0 <= i < a.len(),
    ensures
        edit(a, c) <= edit(a.update(i, x), c) + 1,
    decreases a.len() + c.len(),
{
    let u = a.update(i, x);
    if c.len() > 0 {
        lemma_edit_update(a, c.drop_last(), i, x);
        if i == a.len() - 1 {
            assert(u.drop_last() == a.drop_last());
        } else {
            assert(u.drop_last() == a.drop_last().update(i, x));
            assert(u.last() == a.last());
            lemma_edit_update(a.drop_last(), c, i, x);
            lemma_edit_update(a.drop_last(), c.drop_last(), i, x);
        }
    }
}

/// What is suggested is a label of the graph, and no label is nearer to what was
/// typed; a label within two edits is never left without a suggestion.
pub proof fn law_suggestion(ids: Seq<Seq<char>>, typed: Seq<char>, s: Option<Seq<char>>, k: int)
    requires
        is_suggestion(ids, typed, s),
        0 <= k < ids.len(),
    ensures
        s matches Some(l) ==> ids.contains(l) && edit(typed, l) <= edit(typed, ids[k]) && (edit(typed, l) <= 2 || 3 * edit(typed, l) <= crate::text::utf8(typed).len()),
        edit(typed, ids[k]) <= 2 || 3 * edit(typed, ids[k]) <= crate::text::utf8(typed).len() ==> s is Some,
{
    if s is None {
        assert(!is_near(edit(typed, ids[k]), typed));
    }
}

/// A pattern that fails is reported, and none before it fails.
pub proof fn law_failure_found(specs: Seq<TargetSpec>, mode: TestMode, opts: SelectionOpts, inc: Seq<Seq<char>>, k: int)
    requires
        0 <= k < inc.len(),
        include_fails(specs, mode, opts, inc[k]),
    ensures
        exists|i: int| i <= k && #[trigger] first_failing(specs, mode, opts, inc, i),
    decreases k,
{
    if exists|j: int| 0 <= j < k && include_fails(specs, mode, opts, #[trigger] inc[j]) {
        let j = choose|j: int| 0 <= j < k && include_fails(specs, mode, opts, #[trigger] inc[j]);
        law_failure_found(specs, mode, opts, inc, j);
    } else {
        assert(first_failing(specs, mode, opts, inc, k));
    }
}

} // verus!

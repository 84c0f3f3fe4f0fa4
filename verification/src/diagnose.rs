//! Explaining why a sandboxed command failed, from its exit code and stderr.

use crate::paths::{below_any, path_below_any};
use crate::text::{
    byte_len, cat3, chars_of, contains, from_utf8_lossy, is_space, lines, lines_of,
    occurs_in, owned, strs, text_of, utf8_lossy, whitespace,
};
use vstd::prelude::*;

verus! {

/// The exit code by which the sandbox helper says that it could not start.
pub const SANDBOX_SETUP_FAILURE: i32 = 125;

/// The text names a sandbox that did not start.
pub open spec fn setup_failure(t: Seq<char>) -> bool {
    occurs_in(t, "giant-sandbox:"@) || occurs_in(t, "sandboxing failure"@) || occurs_in(t, "Landlock"@) || occurs_in(t, "seccomp"@) || occurs_in(t, "unprivileged"@) || occurs_in(t, "namespace"@)
}

/// The text names a network that could not be reached.
pub open spec fn network_denial(t: Seq<char>) -> bool {
    occurs_in(t, "Network is unreachable"@) || occurs_in(t, "ENETUNREACH"@) || occurs_in(t, "Could not resolve host"@) || occurs_in(t, "Temporary failure in name resolution"@) || occurs_in(t, "Name or service not known"@) || occurs_in(t, "EAI_AGAIN"@) || occurs_in(t, "getaddrinfo"@)
}

/// The text names a file access that was denied.
pub open spec fn fs_denial(t: Seq<char>) -> bool {
    occurs_in(t, "Permission denied"@) || occurs_in(t, "Operation not permitted"@) || occurs_in(t, "EACCES"@) || occurs_in(t, "EPERM"@)
}

/// The text names a file that was not found.
pub open spec fn missing_path(t: Seq<char>) -> bool {
    occurs_in(t, "No such file or directory"@) || occurs_in(t, "ENOENT"@) || occurs_in(t, "cannot open"@)
}

pub fn looks_like_setup_failure(text: &str) -> (r: bool)
    ensures
        r == setup_failure(text@),
{
    contains(text, "giant-sandbox:") || contains(text, "sandboxing failure") || contains(text, "Landlock") || contains(text, "seccomp") || contains(text, "unprivileged") || contains(text, "namespace")
}

pub fn looks_like_network_denial(text: &str) -> (r: bool)
    ensures
        r == network_denial(text@),
{
    contains(text, "Network is unreachable") || contains(text, "ENETUNREACH") || contains(text, "Could not resolve host") || contains(text, "Temporary failure in name resolution") || contains(text, "Name or service not known") || contains(text, "EAI_AGAIN") || contains(text, "getaddrinfo")
}

pub fn looks_like_fs_denial(text: &str) -> (r: bool)
    ensures
        r == fs_denial(text@),
{
    contains(text, "Permission denied") || contains(text, "Operation not permitted") || contains(text, "EACCES") || contains(text, "EPERM")
}

pub fn looks_like_missing_path(text: &str) -> (r: bool)
    ensures
        r == missing_path(text@),
{
    contains(text, "No such file or directory") || contains(text, "ENOENT") || contains(text, "cannot open")
}

/// `c` ends a token: white space or a quote.
pub open spec fn is_break(c: char) -> bool {
    is_space(c) || c == '\'' || c == '"' || c == '`'
}

/// The pieces of a line between breaks.
pub open spec fn tokens_of(s: Seq<char>) -> Seq<Seq<char>>
    decreases s.len(),
{
    if s.len() == 0 {
        seq![Seq::<char>::empty()]
    } else {
        let r = tokens_of(s.drop_last());
        if is_break(s.last()) {
            r.push(Seq::<char>::empty())
        } else {
            r.drop_last().push(r.last().push(s.last()))
        }
    }
}

/// `c` is punctuation that may stand around a path.
pub open spec fn is_punctuation(c: char) -> bool {
    c == ':' || c == ',' || c == ')' || c == '(' || c == '.'
}

pub open spec fn strip_front(s: Seq<char>) -> Seq<char>
    decreases s.len(),
{
    if s.len() > 0 && is_punctuation(s[0]) {
        strip_front(s.drop_first())
    } else {
        s
    }
}

pub open spec fn strip_back(s: Seq<char>) -> Seq<char>
    decreases s.len(),
{
    if s.len() > 0 && is_punctuation(s.last()) {
        strip_back(s.drop_last())
    } else {
        s
    }
}

/// A token without the punctuation around it.
pub open spec fn bare(s: Seq<char>) -> Seq<char> {
    strip_back(strip_front(s))
}

/// `s` is an absolute path other than the root.
pub open spec fn looks_absolute(s: Seq<char>) -> bool {
    s.len() > 1 && s[0] == '/'
}

/// The longest absolute path among the tokens; the last of several.
pub open spec fn longest_path(tokens: Seq<Seq<char>>) -> Option<Seq<char>>
    decreases tokens.len(),
{
    if tokens.len() == 0 {
        None
    } else {
        let best = longest_path(tokens.drop_last());
        let t = bare(tokens.last());
        if looks_absolute(t) && (best is None || byte_len(best->0) <= byte_len(t)) {
            Some(t)
        } else {
            best
        }
    }
}

/// The path on the first of the lines that is a denial and names one.
pub open spec fn denied_in(lines: Seq<Seq<char>>) -> Option<Seq<char>>
    decreases lines.len(),
{
    if lines.len() == 0 {
        None
    } else if fs_denial(lines[0]) && longest_path(tokens_of(lines[0])) is Some {
        longest_path(tokens_of(lines[0]))
    } else {
        denied_in(lines.drop_first())
    }
}

fn breaks(c: char) -> (r: bool)
    ensures
        r == is_break(c),
{
    whitespace(c) || c == '\'' || c == '"' || c == '`'
}

fn punctuation(c: char) -> (r: bool)
    ensures
        r == is_punctuation(c),
{
    c == ':' || c == ',' || c == ')' || c == '(' || c == '.'
}

fn tokens(s: &str) -> (r: Vec<String>)
    ensures
        strs(r@) == tokens_of(s@),
{
    let v = chars_of(s);
    let mut out: Vec<String> = Vec::new();
    let mut cur = String::new();
    let mut i: usize = 0;
    while i < v.len()
        invariant
            i <= v.len(),
            v@ == s@,
            strs(out@).push(cur@) == tokens_of(s@.take(i as int)),
        decreases v.len() - i,
    {
        let ghost before = strs(out@).push(cur@);
        assert(s@.take(i + 1).drop_last() == s@.take(i as int));
        if breaks(v[i]) {
            out.push(cur);
            cur = String::new();
            assert(strs(out@) == before);
        } else {
            cur.push(v[i]);
            assert(before.drop_last() == strs(out@));
        }
        i = i + 1;
    }
    assert(s@.take(i as int) == s@);
    let ghost o = strs(out@).push(cur@);
    out.push(cur);
    assert(strs(out@) == o);
    out
}

/// The token without the punctuation around it.
fn strip(s: &str) -> (r: String)
    ensures
        r@ == bare(s@),
{
    let v = chars_of(s);
    let n: usize = v.len();
    let mut a: usize = 0;
    assert(s@.skip(0) == s@);
    while a < n && punctuation(v[a])
        invariant
            a <= n,
            n == v.len(),
            v@ == s@,
            strip_front(s@) == strip_front(s@.skip(a as int)),
        decreases n - a,
    {
        assert(s@.skip(a as int).drop_first() == s@.skip(a + 1));
        a = a + 1;
    }
    assert(strip_front(s@) == s@.skip(a as int));
    let mut b: usize = n;
    assert(s@.subrange(a as int, n as int) == s@.skip(a as int));
    while b > a && punctuation(v[b - 1])
        invariant
            a <= b <= n,
            n == v.len(),
            v@ == s@,
            bare(s@) == strip_back(s@.subrange(a as int, b as int)),
        decreases b,
    {
        assert(s@.subrange(a as int, b as int).drop_last() == s@.subrange(a as int, b - 1));
        b = b - 1;
    }
    text_of(&v, a, b)
}

/// The longest absolute path on a line.
fn longest(line: &str) -> (r: Option<String>)
    ensures
        r is Some <==> longest_path(tokens_of(line@)) is Some,
        r matches Some(p) ==> longest_path(tokens_of(line@)) == Some(p@),
{
    let toks = tokens(line);
    let ghost tv = strs(toks@);
    let mut best: Option<String> = None;
    let mut i: usize = 0;
    while i < toks.len()
        invariant
            i <= toks.len(),
            tv == strs(toks@),
            best is Some <==> longest_path(tv.take(i as int)) is Some,
            best matches Some(p) ==> longest_path(tv.take(i as int)) == Some(p@),
        decreases toks.len() - i,
    {
        assert(tv[i as int] == toks@[i as int]@);
        assert(tv.take(i + 1).drop_last() == tv.take(i as int));
        let t = strip(toks[i].as_str());
        let absolute: bool = crate::paths::absolute(t.as_str());
        let chars = chars_of(t.as_str());
        if absolute && chars.len() > 1 {
            let better: bool = match &best {
                None => true,
                Some(b) => b.as_str().as_bytes().len() <= t.as_str().as_bytes().len(),
            };
            if better {
                best = Some(t);
            }
        }
        i = i + 1;
    }
    assert(tv.take(i as int) == tv);
    best
}

/// The first path that a permission error in `text` names.
pub fn first_denied_path(text: &str) -> (r: Option<String>)
    ensures
        r is Some <==> denied_in(lines_of(text@)) is Some,
        r matches Some(p) ==> denied_in(lines_of(text@)) == Some(p@),
{
    let all = lines(text);
    let ghost lv = strs(all@);
    let mut i: usize = 0;
    assert(lv.skip(0) == lv);
    while i < all.len()
        invariant
            i <= all.len(),
            lv == strs(all@),
            lv == lines_of(text@),
            denied_in(lv) == denied_in(lv.skip(i as int)),
        decreases all.len() - i,
    {
        assert(lv[i as int] == all@[i as int]@);
        assert(lv.skip(i as int)[0] == lv[i as int]);
        assert(lv.skip(i as int).drop_first() == lv.skip(i + 1));
        if looks_like_fs_denial(all[i].as_str()) {
            let found = longest(all[i].as_str());
            if found.is_some() {
                return found;
            }
        }
        i = i + 1;
    }
    None
}

/// The likely cause of a failure under the sandbox, in words.
pub open spec fn diagnosis(exit_code: i32, text: Seq<char>, allowed: Seq<Seq<char>>, network: bool) -> Option<Seq<char>> {
    if exit_code == SANDBOX_SETUP_FAILURE || setup_failure(text) {
        Some("could not enter the sandbox - this host may not allow unprivileged namespaces or Landlock, or a configured `sandbox.roots` path is missing"@)
    } else if !network && network_denial(text) {
        Some("looks like it reached for the network, which the sandbox denies; set `network: true` on the target to allow it"@)
    } else if fs_denial(text) {
        match denied_in(lines_of(text)) {
            Some(path) => if below_any(path, allowed) {
                Some("the sandbox denied access to `"@ + path + "`; it is declared, so this may be a read-vs-write or permissions mismatch"@)
            } else {
                Some("looks like it accessed `"@ + path + "`, which is not a declared input or output; add it to `inputs:`/`outputs:` or set `sandbox: false`"@)
            },
            None => Some("a file access was denied by the sandbox; the command likely uses a path it does not declare - add it to `inputs:`/`outputs:` or set `sandbox: false`"@),
        }
    } else if missing_path(text) {
        Some("a file the command opened was not found under the sandbox; if it exists in your tree, the target likely reads a path it does not declare - add it to `inputs:` or set `sandbox: false`"@)
    } else {
        None
    }
}

/// The likely cause of a failure, from the text of stderr.
pub fn diagnose_text(exit_code: i32, text: &str, allowed: &Vec<String>, network: bool) -> (r: Option<String>)
    ensures
        r is Some <==> diagnosis(exit_code, text@, strs(allowed@), network) is Some,
        r matches Some(m) ==> diagnosis(exit_code, text@, strs(allowed@), network) == Some(m@),
{
    if exit_code == SANDBOX_SETUP_FAILURE || looks_like_setup_failure(text) {
        return Some(owned("could not enter the sandbox - this host may not allow unprivileged namespaces or Landlock, or a configured `sandbox.roots` path is missing"));
    }
    if !network && looks_like_network_denial(text) {
        return Some(owned("looks like it reached for the network, which the sandbox denies; set `network: true` on the target to allow it"));
    }
    if looks_like_fs_denial(text) {
        return match first_denied_path(text) {
            Some(path) => {
                if path_below_any(path.as_str(), allowed) {
                    Some(cat3("the sandbox denied access to `", path.as_str(), "`; it is declared, so this may be a read-vs-write or permissions mismatch"))
                } else {
                    Some(cat3("looks like it accessed `", path.as_str(), "`, which is not a declared input or output; add it to `inputs:`/`outputs:` or set `sandbox: false`"))
                }
            },
            None => Some(owned("a file access was denied by the sandbox; the command likely uses a path it does not declare - add it to `inputs:`/`outputs:` or set `sandbox: false`")),
        };
    }
    if looks_like_missing_path(text) {
        return Some(owned("a file the command opened was not found under the sandbox; if it exists in your tree, the target likely reads a path it does not declare - add it to `inputs:` or set `sandbox: false`"));
    }
    None
}

/// The likely cause of a failure, from the bytes of stderr. `None` where nothing
/// recognisable stands out.
pub fn diagnose_sandbox_failure(exit_code: i32, stderr: &[u8], allowed: &Vec<String>, network: bool) -> (r: Option<String>)
    ensures
        r is Some <==> diagnosis(exit_code, utf8_lossy(stderr@), strs(allowed@), network) is Some,
        r matches Some(m) ==> diagnosis(exit_code, utf8_lossy(stderr@), strs(allowed@), network) == Some(m@),
{
    let text = from_utf8_lossy(stderr);
    diagnose_text(exit_code, text.as_str(), allowed, network)
}

/// Tokens are what stands between breaks: none holds a break, a text without one
/// is one token, and a break parts what is before from what is behind.
pub proof fn law_tokens(a: Seq<char>, c: char, b: Seq<char>)
    requires
        is_space(c) || c == '\'' || c == '"' || c == '`',
    ensures
        tokens_of(a + seq![c] + b) == tokens_of(a) + tokens_of(b),
        (forall|i: int| 0 <= i < a.len() ==> !is_break(#[trigger] a[i])) ==> tokens_of(a) == seq![a],
{
    lemma_tokens_concat(a, c, b);
    if forall|i: int| 0 <= i < a.len() ==> !is_break(#[trigger] a[i]) {
        lemma_one_token(a);
    }
}

proof fn lemma_tokens_len(s: Seq<char>)
    ensures
        tokens_of(s).len() >= 1,
    decreases s.len(),
{
    if s.len() > 0 {
        lemma_tokens_len(s.drop_last());
    }
}

proof fn lemma_tokens_concat(a: Seq<char>, c: char, b: Seq<char>)
    requires
        is_break(c),
    ensures
        tokens_of(a + seq![c] + b) == tokens_of(a) + tokens_of(b),
    decreases b.len(),
{
    let s = a + seq![c] + b;
    let pa = tokens_of(a);
    if b.len() == 0 {
        assert(s.drop_last() =~= a);
        assert(tokens_of(s) =~= pa + tokens_of(b));
    } else {
        let f = b.drop_last();
        lemma_tokens_concat(a, c, f);
        assert(s.drop_last() =~= a + seq![c] + f);
        assert(s.last() == b.last());
        let pf = tokens_of(f);
        lemma_tokens_len(f);
        let r = pa + pf;
        assert(r.last() == pf.last());
        if is_break(b.last()) {
            assert(r.push(Seq::<char>::empty()) =~= pa + pf.push(Seq::<char>::empty()));
        } else {
            assert(r.drop_last() =~= pa + pf.drop_last());
            assert(r.drop_last().push(r.last().push(b.last())) =~= pa + pf.drop_last().push(pf.last().push(b.last())));
        }
    }
}

proof fn lemma_one_token(s: Seq<char>)
    requires
        forall|i: int| 0 <= i < s.len() ==> !is_break(#[trigger] s[i]),
    ensures
        tokens_of(s) == seq![s],
    decreases s.len(),
{
    if s.len() > 0 {
        let f = s.drop_last();
        assert(!is_break(s[s.len() - 1]));
        assert forall|i: int| 0 <= i < f.len() implies !is_break(#[trigger] f[i]) by {
            assert(f[i] == s[i]);
        }
        lemma_one_token(f);
        assert(tokens_of(s) =~= seq![f.push(s.last())]);
        assert(f.push(s.last()) =~= s);
    } else {
        assert(s =~= Seq::<char>::empty());
    }
}

/// The path that is taken is an absolute one among the tokens, and none of them
/// is longer.
pub proof fn law_longest_path(tokens: Seq<Seq<char>>)
    ensures
        longest_path(tokens) is None <==> forall|i: int| 0 <= i < tokens.len() ==> !looks_absolute(bare(#[trigger] tokens[i])),
        longest_path(tokens) matches Some(p) ==> looks_absolute(p) && (exists|i: int| 0 <= i < tokens.len() && bare(#[trigger] tokens[i]) == p) && forall|i: int|
            0 <= i < tokens.len() && looks_absolute(bare(#[trigger] tokens[i])) ==> byte_len(bare(tokens[i])) <= byte_len(p),
    decreases tokens.len(),
{
    if tokens.len() > 0 {
        let f = tokens.drop_last();
        let n = tokens.len() - 1;
        law_longest_path(f);
        assert(tokens[n] == tokens.last());
        if let Some(p) = longest_path(tokens) {
            if p != bare(tokens.last()) || longest_path(f) == Some(p) {
                if longest_path(f) == Some(p) {
                    let i = choose|i: int| 0 <= i < f.len() && bare(#[trigger] f[i]) == p;
                    assert(tokens[i] == f[i]);
                }
            }
            assert(exists|i: int| 0 <= i < tokens.len() && bare(#[trigger] tokens[i]) == p) by {
                if bare(tokens[n]) != p {
                    let i = choose|i: int| 0 <= i < f.len() && bare(#[trigger] f[i]) == p;
                    assert(bare(tokens[i]) == p);
                }
            }
            assert forall|i: int| 0 <= i < tokens.len() && looks_absolute(bare(#[trigger] tokens[i])) implies byte_len(bare(tokens[i])) <= byte_len(p) by {
                if i < n {
                    assert(f[i] == tokens[i]);
                    assert(longest_path(f) is Some);
                }
            }
        } else {
            assert forall|i: int| 0 <= i < tokens.len() implies !looks_absolute(bare(#[trigger] tokens[i])) by {
                if i < n {
                    assert(f[i] == tokens[i]);
                }
            }
        }
        if forall|i: int| 0 <= i < tokens.len() ==> !looks_absolute(bare(#[trigger] tokens[i])) {
            assert forall|i: int| 0 <= i < f.len() implies !looks_absolute(bare(#[trigger] f[i])) by {
                assert(f[i] == tokens[i]);
            }
            assert(!looks_absolute(bare(tokens[n])));
        }
    }
}

/// The path that was denied stands on the first line that tells of a denial and
/// names one.
pub proof fn law_denied_line(lines: Seq<Seq<char>>, i: int)
    requires
        0 <= i < lines.len(),
        fs_denial(lines[i]),
        longest_path(tokens_of(lines[i])) is Some,
        forall|j: int| 0 <= j < i ==> !fs_denial(#[trigger] lines[j]) || longest_path(tokens_of(lines[j])) is None,
    ensures
        denied_in(lines) == longest_path(tokens_of(lines[i])),
    decreases i,
{
    if i > 0 {
        let t = lines.drop_first();
        assert(!fs_denial(lines[0]) || longest_path(tokens_of(lines[0])) is None);
        assert forall|j: int| 0 <= j < i - 1 implies !fs_denial(#[trigger] t[j]) || longest_path(tokens_of(t[j])) is None by {
            assert(t[j] == lines[j + 1]);
        }
        law_denied_line(t, i - 1);
    }
}

/// A likely cause is named exactly where the sandbox did not start or the text
/// tells of a denied network that was not granted, a denied access or a missing
/// file; a granted network is never blamed; and a denied path is called declared
/// exactly where it lies in what was granted.
pub proof fn law_diagnosis(exit_code: i32, text: Seq<char>, allowed: Seq<Seq<char>>, network: bool)
    ensures
        diagnosis(exit_code, text, allowed, network) is None <==> exit_code != SANDBOX_SETUP_FAILURE && !setup_failure(text) && (network || !network_denial(text)) && !fs_denial(text) && !missing_path(text),
        !setup_failure(text) && exit_code != SANDBOX_SETUP_FAILURE && !fs_denial(text) && !missing_path(text) && network ==> diagnosis(exit_code, text, allowed, network) is None,
        exit_code == SANDBOX_SETUP_FAILURE ==> diagnosis(exit_code, text, allowed, network) == diagnosis(exit_code, Seq::<char>::empty(), allowed, true),
        exit_code != SANDBOX_SETUP_FAILURE && !setup_failure(text) && (network || !network_denial(text)) && fs_denial(text) ==> (denied_in(lines_of(text)) matches Some(path) ==> {
            let m = diagnosis(exit_code, text, allowed, network)->0;
            let declared = "the sandbox denied access to `"@ + path + "`; it is declared, so this may be a read-vs-write or permissions mismatch"@;
            let undeclared = "looks like it accessed `"@ + path + "`, which is not a declared input or output; add it to `inputs:`/`outputs:` or set `sandbox: false`"@;
            &&& (exists|i: int| 0 <= i < allowed.len() && crate::paths::is_below(path, #[trigger] allowed[i])) ==> m == declared
            &&& (forall|i: int| 0 <= i < allowed.len() ==> !crate::paths::is_below(path, #[trigger] allowed[i])) ==> m == undeclared
        }),
{
}

/// What surrounds a token is stripped: punctuation at either end goes, and the
/// rest stays.
pub proof fn law_bare(s: Seq<char>) -> (cut: (int, int))
    ensures
        0 <= cut.0 <= cut.1 <= s.len(),
        bare(s) == s.subrange(cut.0, cut.1),
        forall|i: int| 0 <= i < cut.0 ==> is_punctuation(#[trigger] s[i]),
        forall|i: int| cut.1 <= i < s.len() ==> is_punctuation(#[trigger] s[i]),
        cut.0 < cut.1 ==> !is_punctuation(s[cut.0]) && !is_punctuation(s[cut.1 - 1]),
{
    let a = lemma_strip_front(s);
    let t = strip_front(s);
    let b = lemma_strip_back(t);
    assert(t.take(b) =~= s.subrange(a, a + b));
    assert forall|i: int| a + b <= i < s.len() implies is_punctuation(#[trigger] s[i]) by {
        assert(s[i] == t[i - a]);
    }
    if b > 0 {
        assert(t[b - 1] == s[a + b - 1]);
        assert(t[0] == s[a]);
    }
    (a, a + b)
}

proof fn lemma_strip_front(s: Seq<char>) -> (a: int)
    ensures
        0 <= a <= s.len(),
        strip_front(s) == s.skip(a),
        forall|i: int| 0 <= i < a ==> is_punctuation(#[trigger] s[i]),
        a < s.len() ==> !is_punctuation(s[a]),
    decreases s.len(),
{
    if s.len() > 0 && is_punctuation(s[0]) {
        let f = s.drop_first();
        let a = lemma_strip_front(f);
        assert(f.skip(a) =~= s.skip(a + 1));
        assert forall|i: int| 0 <= i < a + 1 implies is_punctuation(#[trigger] s[i]) by {
            if i > 0 {
                assert(s[i] == f[i - 1]);
            }
        }
        a + 1
    } else {
        assert(s.skip(0) =~= s);
        0
    }
}

proof fn lemma_strip_back(s: Seq<char>) -> (b: int)
    ensures
        0 <= b <= s.len(),
        strip_back(s) == s.take(b),
        forall|i: int| b <= i < s.len() ==> is_punctuation(#[trigger] s[i]),
        b > 0 ==> !is_punctuation(s[b - 1]),
    decreases s.len(),
{
    if s.len() > 0 && is_punctuation(s.last()) {
        let f = s.drop_last();
        let b = lemma_strip_back(f);
        assert(f.take(b) =~= s.take(b));
        assert forall|i: int| b <= i < s.len() implies is_punctuation(#[trigger] s[i]) by {
            if i < s.len() - 1 {
                assert(s[i] == f[i]);
            }
        }
        b
    } else {
        assert(s.take(s.len() as int) =~= s);
        s.len() as int
    }
}

/// A message is found wherever in the text it stands.
proof fn lemma_occurs(before: Seq<char>, word: Seq<char>, after: Seq<char>)
    ensures
        occurs_in(before + word + after, word),
{
    let t = before + word + after;
    assert(t.subrange(before.len() as int, (before.len() + word.len()) as int) == word);
    assert(crate::text::occurs_at(t, word, before.len() as int));
}

/// A text says that the sandbox did not start exactly if one of the messages for it stands somewhere in it.
pub proof fn law_setup_failure(before: Seq<char>, k: int, after: Seq<char>, text: Seq<char>)
    ensures
        0 <= k < 6 ==> setup_failure(before + seq!["giant-sandbox:"@, "sandboxing failure"@, "Landlock"@, "seccomp"@, "unprivileged"@, "namespace"@][k] + after),
        setup_failure(text) ==> exists|w: Seq<char>| seq!["giant-sandbox:"@, "sandboxing failure"@, "Landlock"@, "seccomp"@, "unprivileged"@, "namespace"@].contains(w) && #[trigger] occurs_in(text, w),
{
    let words = seq!["giant-sandbox:"@, "sandboxing failure"@, "Landlock"@, "seccomp"@, "unprivileged"@, "namespace"@];
    if 0 <= k < 6 {
        lemma_occurs(before, words[k], after);
    }
    assert(words[0] == "giant-sandbox:"@);
    assert(words[1] == "sandboxing failure"@);
    assert(words[2] == "Landlock"@);
    assert(words[3] == "seccomp"@);
    assert(words[4] == "unprivileged"@);
    assert(words[5] == "namespace"@);
}

/// A text says that the network could not be reached exactly if one of the messages for it stands somewhere in it.
pub proof fn law_network_denial(before: Seq<char>, k: int, after: Seq<char>, text: Seq<char>)
    ensures
        0 <= k < 7 ==> network_denial(before + seq!["Network is unreachable"@, "ENETUNREACH"@, "Could not resolve host"@, "Temporary failure in name resolution"@, "Name or service not known"@, "EAI_AGAIN"@, "getaddrinfo"@][k] + after),
        network_denial(text) ==> exists|w: Seq<char>| seq!["Network is unreachable"@, "ENETUNREACH"@, "Could not resolve host"@, "Temporary failure in name resolution"@, "Name or service not known"@, "EAI_AGAIN"@, "getaddrinfo"@].contains(w) && #[trigger] occurs_in(text, w),
{
    let words = seq!["Network is unreachable"@, "ENETUNREACH"@, "Could not resolve host"@, "Temporary failure in name resolution"@, "Name or service not known"@, "EAI_AGAIN"@, "getaddrinfo"@];
    if 0 <= k < 7 {
        lemma_occurs(before, words[k], after);
    }
    assert(words[0] == "Network is unreachable"@);
    assert(words[1] == "ENETUNREACH"@);
    assert(words[2] == "Could not resolve host"@);
    assert(words[3] == "Temporary failure in name resolution"@);
    assert(words[4] == "Name or service not known"@);
    assert(words[5] == "EAI_AGAIN"@);
    assert(words[6] == "getaddrinfo"@);
}

/// A text says that a file access was denied exactly if one of the messages for it stands somewhere in it.
pub proof fn law_fs_denial(before: Seq<char>, k: int, after: Seq<char>, text: Seq<char>)
    ensures
        0 <= k < 4 ==> fs_denial(before + seq!["Permission denied"@, "Operation not permitted"@, "EACCES"@, "EPERM"@][k] + after),
        fs_denial(text) ==> exists|w: Seq<char>| seq!["Permission denied"@, "Operation not permitted"@, "EACCES"@, "EPERM"@].contains(w) && #[trigger] occurs_in(text, w),
{
    let words = seq!["Permission denied"@, "Operation not permitted"@, "EACCES"@, "EPERM"@];
    if 0 <= k < 4 {
        lemma_occurs(before, words[k], after);
    }
    assert(words[0] == "Permission denied"@);
    assert(words[1] == "Operation not permitted"@);
    assert(words[2] == "EACCES"@);
    assert(words[3] == "EPERM"@);
}

/// A text says that a file was not found exactly if one of the messages for it stands somewhere in it.
pub proof fn law_missing_path(before: Seq<char>, k: int, after: Seq<char>, text: Seq<char>)
    ensures
        0 <= k < 3 ==> missing_path(before + seq!["No such file or directory"@, "ENOENT"@, "cannot open"@][k] + after),
        missing_path(text) ==> exists|w: Seq<char>| seq!["No such file or directory"@, "ENOENT"@, "cannot open"@].contains(w) && #[trigger] occurs_in(text, w),
{
    let words = seq!["No such file or directory"@, "ENOENT"@, "cannot open"@];
    if 0 <= k < 3 {
        lemma_occurs(before, words[k], after);
    }
    assert(words[0] == "No such file or directory"@);
    assert(words[1] == "ENOENT"@);
    assert(words[2] == "cannot open"@);
}

} // verus!

//! What feeds a target's key, for people: the breakdown of a key, and the
//! difference of two.

use crate::digest::hex_of;
use crate::executor::{code_string, code_text};
use crate::fmt::{human_bytes, size_text};
use crate::key::{CacheKeyBreakdown, FileInputContribution, StructuralContribution};
use crate::model::{CacheKey, ContentHash, TargetId};
use crate::order::{ascending, lemma_ascending_unique, sorted_set};
use crate::outputs::{AcEntry, OutputEntry};
use crate::session::{is_sorted_ids, sorted_ids};
use crate::text::{cat2, cat3, cat4, cat5, chars_of, decimal, join, join_with, number, owned, str_eq, strs, text_of, utf8};
use crate::walk::{quoted, str_debug};
use vstd::prelude::*;
use vstd::string::*;

verus! {

/// `s` with spaces behind it up to `n` characters.
pub open spec fn padded(s: Seq<char>, n: nat) -> Seq<char> {
    if s.len() >= n {
        s
    } else {
        s + Seq::new((n - s.len()) as nat, |i: int| ' ')
    }
}

fn pad(s: &str, n: usize) -> (r: String)
    ensures
        r@ == padded(s@, n as nat),
{
    let mut v = chars_of(s);
    let k: usize = v.len();
    while v.len() < n
        invariant
            k == s@.len(),
            v@.len() >= k,
            v@.len() <= n || v@.len() == k,
            v@ == s@ + Seq::new((v@.len() - k) as nat, |i: int| ' '),
        decreases n - v.len(),
    {
        let ghost before = v@;
        v.push(' ');
        assert(v@ == s@ + Seq::new((v@.len() - k) as nat, |i: int| ' '));
    }
    let r = text_of(&v, 0, v.len());
    assert(r@ == v@);
    assert(r@ == padded(s@, n as nat));
    r
}

/// The first sixteen digits of a hash.
pub open spec fn short_hex(h: Seq<u8>) -> Seq<char> {
    hex_of(h).take(16)
}

fn short_hash(h: &ContentHash) -> (r: String)
    ensures
        r@ == short_hex(h@),
{
    let hex = h.to_hex();
    let v = chars_of(hex.as_str());
    proof {
        h.lemma_len();
    }
    text_of(&v, 0, 16)
}

/// A list of lines.
fn one(s: String) -> (r: Vec<String>)
    ensures
        strs(r@) == seq![s@],
{
    let mut v: Vec<String> = Vec::new();
    let ghost sv = s@;
    v.push(s);
    assert(strs(v@) == seq![sv]);
    v
}

fn none() -> (r: Vec<String>)
    ensures
        strs(r@) == Seq::<Seq<char>>::empty(),
{
    let v: Vec<String> = Vec::new();
    assert(strs(v@) == Seq::<Seq<char>>::empty());
    v
}

/// Adds a line.
fn line(out: &mut Vec<String>, s: String)
    ensures
        strs(final(out)@) == strs(old(out)@).push(s@),
{
    let ghost before = strs(out@);
    let ghost sv = s@;
    out.push(s);
    assert(strs(out@) == before.push(sv));
}

/// Adds lines.
fn extend(out: &mut Vec<String>, more: Vec<String>)
    ensures
        strs(final(out)@) == strs(old(out)@) + strs(more@),
{
    let ghost a = out@;
    let ghost b = more@;
    let mut m = more;
    out.append(&mut m);
    assert(strs(a + b) == strs(a) + strs(b));
}

/// The line on the cache state.
pub open spec fn state_line(ac: Option<AcEntry>) -> Seq<char> {
    match ac {
        Some(e) => "cache state: HIT (built "@ + e.built_at@ + ", "@ + (decimal(e.duration_ms as nat) + "ms, exit "@ + code_text(e.exit_code) + ")"@),
        None => "cache state: miss (next build will populate)"@,
    }
}

pub open spec fn header_lines(id: Seq<char>, key: Seq<u8>, ac: Option<AcEntry>) -> Seq<Seq<char>> {
    seq!["target:      "@ + id, "cache key:   "@ + hex_of(key), state_line(ac), Seq::<char>::empty()]
}

pub open spec fn command_lines(bd: CacheKeyBreakdown) -> Seq<Seq<char>> {
    seq![
        "command:"@,
        "  "@ + bd.command@,
        Seq::<char>::empty(),
        "cwd:         "@ + (if bd.cwd@.len() == 0 {
            "<workspace root>"@
        } else {
            bd.cwd@
        }),
        Seq::<char>::empty(),
    ]
}

pub open spec fn env_lines(bd: CacheKeyBreakdown) -> Seq<Seq<char>> {
    seq!["env ("@ + decimal(bd.user_env@.len() + bd.built_in_env@.len()) + "):"@] + bd.user_env@.map_values(
        |p: (String, String)| "  "@ + p.0@ + "="@ + p.1@,
    ) + bd.built_in_env@.map_values(|p: (String, String)| "  "@ + p.0@ + "="@ + p.1@ + "  (built-in)"@) + seq![Seq::<char>::empty()]
}

/// What stands in an empty section.
pub open spec fn none_line(empty: bool) -> Seq<Seq<char>> {
    if empty {
        seq!["  (none)"@]
    } else {
        Seq::<Seq<char>>::empty()
    }
}

pub open spec fn file_lines(v: Seq<FileInputContribution>) -> Seq<Seq<char>> {
    seq!["file inputs ("@ + decimal(v.len()) + "):"@] + v.map_values(
        |f: FileInputContribution| "  "@ + padded(f.rel_path@, 60) + " "@ + (short_hex(f.content_hash@) + "  "@ + size_text(f.size as nat)),
    ) + none_line(v.len() == 0) + seq![Seq::<char>::empty()]
}

/// A list of texts in brackets, each quoted.
pub open spec fn quoted_list(v: Seq<Seq<char>>) -> Seq<char> {
    "["@ + join_with(v.map_values(|s: Seq<char>| str_debug(s)), ", "@) + "]"@
}

/// The lines for fingerprint input `i`.
pub open spec fn structural_lines(i: nat, s: StructuralContribution) -> Seq<Seq<char>> {
    seq!["  ["@ + decimal(i + 1) + "] files: "@ + join_with(strs(s.files@), ", "@), "      lines: "@ + quoted_list(strs(s.lines@))] + (if s.scope@.len() > 0 {
        seq!["      scope: "@ + join_with(strs(s.scope@), ", "@)]
    } else {
        Seq::<Seq<char>>::empty()
    }) + seq!["      fingerprint: "@ + hex_of(s.fingerprint@)]
}

pub open spec fn all_structural_lines(v: Seq<StructuralContribution>) -> Seq<Seq<char>>
    decreases v.len(),
{
    if v.len() == 0 {
        Seq::<Seq<char>>::empty()
    } else {
        all_structural_lines(v.drop_last()) + structural_lines((v.len() - 1) as nat, v.last())
    }
}

pub open spec fn structural_section(v: Seq<StructuralContribution>) -> Seq<Seq<char>> {
    seq!["structural inputs ("@ + decimal(v.len()) + "):"@] + all_structural_lines(v) + none_line(v.len() == 0) + seq![Seq::<char>::empty()]
}

pub open spec fn dep_lines(v: Seq<(TargetId, ContentHash)>) -> Seq<Seq<char>> {
    seq!["deps ("@ + decimal(v.len()) + "):"@] + v.map_values(|p: (TargetId, ContentHash)| "  "@ + p.0@ + " "@ + short_hex(p.1@)) + none_line(
        v.len() == 0,
    ) + seq![Seq::<char>::empty()]
}

/// The first sixteen bytes of a text.
pub open spec fn is_head(head: Seq<char>, s: Seq<char>) -> bool {
    utf8(head) == utf8(s).take(16)
}

/// The line for an output, whose recorded hash starts with `head`.
pub open spec fn output_line(o: OutputEntry, head: Seq<char>) -> Seq<char> {
    "  "@ + padded(o.path@, 60) + " "@ + (head + "  "@ + size_text(o.size as nat)) + (" "@ + o.mode@)
}

pub open spec fn output_hash_lines(own: Option<Seq<u8>>) -> Seq<Seq<char>> {
    match own {
        Some(h) => seq![
            Seq::<char>::empty(),
            "outputs_content_hash: "@ + hex_of(h),
            "  (downstream targets feed this into their cache keys - early cutoff)"@,
        ],
        None => Seq::<Seq<char>>::empty(),
    }
}

/// `v` shows the outputs of the entry, line by line.
pub open spec fn shows_outputs(v: Seq<Seq<char>>, outputs: Seq<OutputEntry>) -> bool {
    v.len() == outputs.len() && forall|i: int| 0 <= i < v.len() ==> shows_output(#[trigger] v[i], outputs[i])
}

/// The line shows the output with the first sixteen bytes of its hash.
pub open spec fn shows_output(s: Seq<char>, o: OutputEntry) -> bool {
    exists|head: Seq<char>| #[trigger] is_head(head, o.content_hash@) && s == output_line(o, head)
}

/// Everything but the outputs.
pub open spec fn input_lines(id: Seq<char>, key: Seq<u8>, bd: CacheKeyBreakdown, ac: Option<AcEntry>) -> Seq<Seq<char>> {
    header_lines(id, key, ac) + command_lines(bd) + env_lines(bd) + file_lines(bd.file_inputs@) + structural_section(bd.structural_inputs@)
        + dep_lines(bd.dep_outputs@)
}

fn write_header(id: &TargetId, key: &CacheKey, ac: &Option<AcEntry>) -> (r: Vec<String>)
    ensures
        strs(r@) == header_lines(id@, key@, *ac),
{
    let mut out = none();
    line(&mut out, cat2("target:      ", id.as_str()));
    let hex = key.to_hex();
    line(&mut out, cat2("cache key:   ", hex.as_str()));
    match ac {
        Some(e) => {
            let ms = number(e.duration_ms as u128);
            let code = code_string(e.exit_code);
            let tail = cat4(ms.as_str(), "ms, exit ", code.as_str(), ")");
            line(&mut out, cat4("cache state: HIT (built ", e.built_at.as_str(), ", ", tail.as_str()));
        },
        None => line(&mut out, owned("cache state: miss (next build will populate)")),
    }
    line(&mut out, String::new());
    assert(strs(out@) == header_lines(id@, key@, *ac));
    out
}

fn write_command(bd: &CacheKeyBreakdown) -> (r: Vec<String>)
    ensures
        strs(r@) == command_lines(*bd),
{
    let mut out = none();
    line(&mut out, owned("command:"));
    line(&mut out, cat2("  ", bd.command.as_str()));
    line(&mut out, String::new());
    if bd.cwd.as_str().is_empty() {
        line(&mut out, cat2("cwd:         ", "<workspace root>"));
    } else {
        line(&mut out, cat2("cwd:         ", bd.cwd.as_str()));
    }
    line(&mut out, String::new());
    assert(strs(out@) == command_lines(*bd));
    out
}

fn write_env(bd: &CacheKeyBreakdown) -> (r: Vec<String>)
    requires
        bd.user_env@.len() + bd.built_in_env@.len() <= usize::MAX,
    ensures
        strs(r@) == env_lines(*bd),
{
    let n = number((bd.user_env.len() + bd.built_in_env.len()) as u128);
    let mut out = none();
    line(&mut out, cat3("env (", n.as_str(), "):"));
    let ghost head = seq!["env ("@ + decimal(bd.user_env@.len() + bd.built_in_env@.len()) + "):"@];
    let ghost uv = bd.user_env@.map_values(|p: (String, String)| "  "@ + p.0@ + "="@ + p.1@);
    let ghost bv = bd.built_in_env@.map_values(|p: (String, String)| "  "@ + p.0@ + "="@ + p.1@ + "  (built-in)"@);
    let mut i: usize = 0;
    assert(strs(out@) == head + uv.take(0));
    while i < bd.user_env.len()
        invariant
            i <= bd.user_env.len(),
            uv == bd.user_env@.map_values(|p: (String, String)| "  "@ + p.0@ + "="@ + p.1@),
            strs(out@) == head + uv.take(i as int),
        decreases bd.user_env.len() - i,
    {
        line(&mut out, cat4("  ", bd.user_env[i].0.as_str(), "=", bd.user_env[i].1.as_str()));
        assert(head + uv.take(i + 1) == (head + uv.take(i as int)).push(uv[i as int]));
        i = i + 1;
    }
    assert(uv.take(i as int) == uv);
    let mut j: usize = 0;
    assert(strs(out@) == head + uv + bv.take(0));
    while j < bd.built_in_env.len()
        invariant
            j <= bd.built_in_env.len(),
            bv == bd.built_in_env@.map_values(|p: (String, String)| "  "@ + p.0@ + "="@ + p.1@ + "  (built-in)"@),
            strs(out@) == head + uv + bv.take(j as int),
        decreases bd.built_in_env.len() - j,
    {
        line(&mut out, cat5("  ", bd.built_in_env[j].0.as_str(), "=", bd.built_in_env[j].1.as_str(), "  (built-in)"));
        assert(head + uv + bv.take(j + 1) == (head + uv + bv.take(j as int)).push(bv[j as int]));
        j = j + 1;
    }
    assert(bv.take(j as int) == bv);
    line(&mut out, String::new());
    assert(strs(out@) == env_lines(*bd));
    out
}

/// The end of a section: a line if it is empty, and a blank one.
fn close(out: &mut Vec<String>, empty: bool)
    ensures
        strs(final(out)@) == strs(old(out)@) + none_line(empty) + seq![Seq::<char>::empty()],
{
    if empty {
        line(out, owned("  (none)"));
    }
    line(out, String::new());
    assert(strs(out@) == strs(old(out)@) + none_line(empty) + seq![Seq::<char>::empty()]);
}

fn write_files(v: &Vec<FileInputContribution>) -> (r: Vec<String>)
    ensures
        strs(r@) == file_lines(v@),
{
    let n = number(v.len() as u128);
    let mut out = one(cat3("file inputs (", n.as_str(), "):"));
    let ghost head = seq!["file inputs ("@ + decimal(v@.len()) + "):"@];
    let ghost lv = v@.map_values(
        |f: FileInputContribution| "  "@ + padded(f.rel_path@, 60) + " "@ + (short_hex(f.content_hash@) + "  "@ + size_text(f.size as nat)),
    );
    let mut i: usize = 0;
    assert(strs(out@) == head + lv.take(0));
    while i < v.len()
        invariant
            i <= v.len(),
            lv == v@.map_values(
                |f: FileInputContribution| "  "@ + padded(f.rel_path@, 60) + " "@ + (short_hex(f.content_hash@) + "  "@ + size_text(f.size as nat)),
            ),
            strs(out@) == head + lv.take(i as int),
        decreases v.len() - i,
    {
        let p = pad(v[i].rel_path.as_str(), 60);
        let h = short_hash(&v[i].content_hash);
        let z = human_bytes(v[i].size);
        let tail = cat3(h.as_str(), "  ", z.as_str());
        line(&mut out, cat4("  ", p.as_str(), " ", tail.as_str()));
        assert(head + lv.take(i + 1) == (head + lv.take(i as int)).push(lv[i as int]));
        i = i + 1;
    }
    assert(lv.take(i as int) == lv);
    close(&mut out, v.len() == 0);
    assert(strs(out@) == file_lines(v@));
    out
}

fn quote_list(v: &Vec<String>) -> (r: String)
    ensures
        r@ == quoted_list(strs(v@)),
{
    let mut out: Vec<String> = Vec::new();
    let mut i: usize = 0;
    while i < v.len()
        invariant
            i <= v.len(),
            out.len() == i,
            forall|k: int| 0 <= k < i ==> (#[trigger] out@[k])@ == str_debug(v@[k]@),
        decreases v.len() - i,
    {
        out.push(quoted(v[i].as_str()));
        i = i + 1;
    }
    assert(strs(out@) == strs(v@).map_values(|s: Seq<char>| str_debug(s)));
    let j = join(&out, ", ");
    cat3("[", j.as_str(), "]")
}

fn write_structural(i: usize, s: &StructuralContribution) -> (r: Vec<String>)
    ensures
        strs(r@) == structural_lines(i as nat, *s),
{
    let n = number(i as u128 + 1);
    let files = join(&s.files, ", ");
    let mut out = one(cat4("  [", n.as_str(), "] files: ", files.as_str()));
    let l = quote_list(&s.lines);
    line(&mut out, cat2("      lines: ", l.as_str()));
    if s.scope.len() > 0 {
        let sc = join(&s.scope, ", ");
        line(&mut out, cat2("      scope: ", sc.as_str()));
    }
    let hex = s.fingerprint.to_hex();
    line(&mut out, cat2("      fingerprint: ", hex.as_str()));
    assert(strs(out@) == structural_lines(i as nat, *s));
    out
}

fn write_structurals(v: &Vec<StructuralContribution>) -> (r: Vec<String>)
    ensures
        strs(r@) == structural_section(v@),
{
    let n = number(v.len() as u128);
    let mut out = one(cat3("structural inputs (", n.as_str(), "):"));
    let ghost head = seq!["structural inputs ("@ + decimal(v@.len()) + "):"@];
    let mut i: usize = 0;
    assert(strs(out@) == head + all_structural_lines(v@.take(0)));
    while i < v.len()
        invariant
            i <= v.len(),
            strs(out@) == head + all_structural_lines(v@.take(i as int)),
        decreases v.len() - i,
    {
        let more = write_structural(i, &v[i]);
        extend(&mut out, more);
        assert(v@.take(i + 1).drop_last() == v@.take(i as int));
        assert(v@.take(i + 1).last() == v@[i as int]);
        assert(head + all_structural_lines(v@.take(i + 1)) == head + all_structural_lines(v@.take(i as int)) + structural_lines(i as nat, v@[i as int]));
        i = i + 1;
    }
    assert(v@.take(i as int) == v@);
    close(&mut out, v.len() == 0);
    assert(strs(out@) == structural_section(v@));
    out
}

fn write_deps(v: &Vec<(TargetId, ContentHash)>) -> (r: Vec<String>)
    ensures
        strs(r@) == dep_lines(v@),
{
    let n = number(v.len() as u128);
    let mut out = one(cat3("deps (", n.as_str(), "):"));
    let ghost head = seq!["deps ("@ + decimal(v@.len()) + "):"@];
    let ghost lv = v@.map_values(|p: (TargetId, ContentHash)| "  "@ + p.0@ + " "@ + short_hex(p.1@));
    let mut i: usize = 0;
    assert(strs(out@) == head + lv.take(0));
    while i < v.len()
        invariant
            i <= v.len(),
            lv == v@.map_values(|p: (TargetId, ContentHash)| "  "@ + p.0@ + " "@ + short_hex(p.1@)),
            strs(out@) == head + lv.take(i as int),
        decreases v.len() - i,
    {
        let h = short_hash(&v[i].1);
        line(&mut out, cat4("  ", v[i].0.as_str(), " ", h.as_str()));
        assert(head + lv.take(i + 1) == (head + lv.take(i as int)).push(lv[i as int]));
        i = i + 1;
    }
    assert(lv.take(i as int) == lv);
    close(&mut out, v.len() == 0);
    assert(strs(out@) == dep_lines(v@));
    out
}

/// A recorded hash can be cut behind its first sixteen bytes.
pub open spec fn can_cut(s: Seq<char>) -> bool {
    utf8(s).len() >= 16 && vstd::utf8::is_char_boundary(utf8(s), 16)
}

fn write_outputs(v: &Vec<OutputEntry>) -> (r: Vec<String>)
    requires
        forall|i: int| 0 <= i < v@.len() ==> can_cut((#[trigger] v@[i]).content_hash@),
    ensures
        shows_outputs(strs(r@), v@),
{
    let mut out = none();
    let mut i: usize = 0;
    while i < v.len()
        invariant
            i <= v.len(),
            forall|k: int| 0 <= k < v@.len() ==> can_cut((#[trigger] v@[k]).content_hash@),
            strs(out@).len() == i,
            forall|k: int| 0 <= k < i ==> shows_output(#[trigger] strs(out@)[k], v@[k]),
        decreases v.len() - i,
    {
        let ghost before = strs(out@);
        let (head, _tail) = v[i].content_hash.as_str().split_at(16);
        assert(is_head(head@, v@[i as int].content_hash@));
        let p = pad(v[i].path.as_str(), 60);
        let z = human_bytes(v[i].size);
        let mid = cat3(head, "  ", z.as_str());
        let mode = cat2(" ", v[i].mode.as_str());
        line(&mut out, cat5("  ", p.as_str(), " ", mid.as_str(), mode.as_str()));
        proof {
            assert forall|k: int| 0 <= k < i + 1 implies shows_output(#[trigger] strs(out@)[k], v@[k]) by {
                if k < i {
                    assert(strs(out@)[k] == before[k]);
                } else {
                    assert(strs(out@)[k] == output_line(v@[k], head@));
                }
            }
        }
        i = i + 1;
    }
    out
}

/// The breakdown of a key in lines: the state of the cache, everything that
/// feeds the key and, if the cache has an entry, what was produced. A hash of
/// an entry that cannot be cut at sixteen bytes is not accepted.
pub fn print_breakdown(id: &TargetId, key: &CacheKey, bd: &CacheKeyBreakdown, ac: &Option<AcEntry>, own_output_hash: &Option<ContentHash>) -> (r: Vec<String>)
    requires
        bd.user_env@.len() + bd.built_in_env@.len() <= usize::MAX,
        ac matches Some(e) ==> forall|i: int| 0 <= i < e.outputs@.len() ==> can_cut((#[trigger] e.outputs@[i]).content_hash@),
    ensures
        ac is None ==> strs(r@) == input_lines(id@, key@, *bd, *ac),
        ac matches Some(e) ==> exists|o: Seq<Seq<char>>| #[trigger] shows_outputs(o, e.outputs@) && strs(r@) == input_lines(id@, key@, *bd, *ac)
            + seq!["outputs (from cache, "@ + decimal(e.outputs@.len()) + "):"@] + o + output_hash_lines(
            match *own_output_hash {
                Some(h) => Some(h@),
                None => None,
            },
        ),
{
    let mut out = write_header(id, key, ac);
    extend(&mut out, write_command(bd));
    extend(&mut out, write_env(bd));
    extend(&mut out, write_files(&bd.file_inputs));
    extend(&mut out, write_structurals(&bd.structural_inputs));
    extend(&mut out, write_deps(&bd.dep_outputs));
    assert(strs(out@) == input_lines(id@, key@, *bd, *ac));
    match ac {
        None => out,
        Some(e) => {
            let ghost base = strs(out@);
            let n = number(e.outputs.len() as u128);
            line(&mut out, cat3("outputs (from cache, ", n.as_str(), "):"));
            let shown = write_outputs(&e.outputs);
            let ghost o = strs(shown@);
            extend(&mut out, shown);
            let ghost head = seq!["outputs (from cache, "@ + decimal(e.outputs@.len()) + "):"@];
            assert(strs(out@) == base + head + o);
            match own_output_hash {
                Some(h) => {
                    line(&mut out, String::new());
                    let hex = h.to_hex();
                    line(&mut out, cat2("outputs_content_hash: ", hex.as_str()));
                    line(&mut out, owned("  (downstream targets feed this into their cache keys - early cutoff)"));
                    assert(strs(out@) == base + head + o + output_hash_lines(Some(h@)));
                },
                None => {
                    assert(strs(out@) == base + head + o + output_hash_lines(None));
                },
            }
            assert(shows_outputs(o, e.outputs@));
            out
        },
    }
}

// Differences.

/// The heading of a section.
pub open spec fn heading(label: Seq<char>) -> Seq<char> {
    "── "@ + label + " ──"@
}

/// A section for two texts, if they differ.
pub open spec fn scalar_diff(label: Seq<char>, left: Seq<char>, right: Seq<char>) -> Seq<Seq<char>> {
    if left == right {
        Seq::<Seq<char>>::empty()
    } else {
        seq![heading(label), "  - "@ + left, "  + "@ + right, Seq::<char>::empty()]
    }
}

pub fn diff_scalar(label: &str, left: &str, right: &str) -> (r: Vec<String>)
    ensures
        strs(r@) == scalar_diff(label@, left@, right@),
{
    if str_eq(left, right) {
        return none();
    }
    let mut out = one(cat3("── ", label, " ──"));
    line(&mut out, cat2("  - ", left));
    line(&mut out, cat2("  + ", right));
    line(&mut out, String::new());
    assert(strs(out@) == scalar_diff(label@, left@, right@));
    out
}

/// One thing of a side: its name as it is listed, what makes it the same as
/// that of the other side, and how it is shown.
pub struct Item {
    name: String,
    listed: String,
    mark: Vec<u8>,
    size: u64,
    shown: String,
}

/// An item by its views.
pub ghost struct Thing {
    pub name: Seq<char>,
    pub listed: Seq<char>,
    pub mark: Seq<u8>,
    pub size: u64,
    pub shown: Seq<char>,
}

impl View for Item {
    type V = Thing;

    closed spec fn view(&self) -> Thing {
        Thing { name: self.name@, listed: self.listed@, mark: self.mark@, size: self.size, shown: self.shown@ }
    }
}

pub open spec fn things(v: Seq<Item>) -> Seq<Thing> {
    v.map_values(|i: Item| i@)
}

pub open spec fn thing_names(v: Seq<Thing>) -> Seq<Seq<char>> {
    v.map_values(|t: Thing| t.name)
}

/// The thing with the name; the last if there are several.
pub open spec fn find_thing(v: Seq<Thing>, name: Seq<char>) -> Option<Thing>
    decreases v.len(),
{
    if v.len() == 0 {
        None
    } else if v.last().name == name {
        Some(v.last())
    } else {
        find_thing(v.drop_last(), name)
    }
}

/// The two lines for a name whose things differ; none if they are the same.
pub open spec fn thing_diff(left: Option<Thing>, right: Option<Thing>, missing: Seq<char>) -> Seq<Seq<char>> {
    if left is Some && right is Some && left->0.mark == right->0.mark && left->0.size == right->0.size {
        Seq::<Seq<char>>::empty()
    } else {
        let listed = if left is Some {
            left->0.listed
        } else {
            right->0.listed
        };
        seq![
            "  - "@ + listed + (if left is Some {
                left->0.shown
            } else {
                missing
            }),
            "  + "@ + listed + (if right is Some {
                right->0.shown
            } else {
                missing
            }),
        ]
    }
}

/// The lines for all names.
pub open spec fn thing_diffs(names: Seq<Seq<char>>, left: Seq<Thing>, right: Seq<Thing>, missing: Seq<char>) -> Seq<Seq<char>>
    decreases names.len(),
{
    if names.len() == 0 {
        Seq::<Seq<char>>::empty()
    } else {
        thing_diffs(names.drop_last(), left, right, missing) + thing_diff(find_thing(left, names.last()), find_thing(right, names.last()), missing)
    }
}

/// A section for what differs between two lists, by name; none if nothing
/// does.
pub open spec fn list_diff(label: Seq<char>, left: Seq<Thing>, right: Seq<Thing>, missing: Seq<char>) -> Seq<Seq<char>> {
    let body = thing_diffs(sorted_ids(thing_names(left) + thing_names(right)), left, right, missing);
    if body.len() == 0 {
        Seq::<Seq<char>>::empty()
    } else {
        seq![heading(label)] + body + seq![Seq::<char>::empty()]
    }
}

fn find_item<'a>(v: &'a Vec<Item>, name: &str) -> (r: Option<&'a Item>)
    ensures
        match r {
            Some(i) => find_thing(things(v@), name@) == Some(i@),
            None => find_thing(things(v@), name@) is None,
        },
{
    let ghost tv = things(v@);
    let mut i: usize = v.len();
    assert(tv.take(i as int) == tv);
    while i > 0
        invariant
            i <= v.len(),
            tv == things(v@),
            find_thing(tv, name@) == find_thing(tv.take(i as int), name@),
        decreases i,
    {
        assert(tv.take(i as int).last() == v@[i - 1]@);
        assert(tv.take(i as int).drop_last() == tv.take(i - 1));
        if str_eq(v[i - 1].name.as_str(), name) {
            return Some(&v[i - 1]);
        }
        i = i - 1;
    }
    None
}

fn all_names(left: &Vec<Item>, right: &Vec<Item>) -> (r: Vec<String>)
    ensures
        strs(r@) == sorted_ids(thing_names(things(left@)) + thing_names(things(right@))),
{
    let ghost a = thing_names(things(left@));
    let ghost b = thing_names(things(right@));
    let mut out = none();
    let mut i: usize = 0;
    assert(strs(out@) == a.take(0));
    while i < left.len()
        invariant
            i <= left.len(),
            a == thing_names(things(left@)),
            strs(out@) == a.take(i as int),
        decreases left.len() - i,
    {
        line(&mut out, left[i].name.clone());
        assert(a[i as int] == left@[i as int]@.name);
        assert(a.take(i + 1) == a.take(i as int).push(a[i as int]));
        i = i + 1;
    }
    assert(a.take(i as int) == a);
    let mut j: usize = 0;
    assert(strs(out@) == a + b.take(0));
    while j < right.len()
        invariant
            j <= right.len(),
            b == thing_names(things(right@)),
            strs(out@) == a + b.take(j as int),
        decreases right.len() - j,
    {
        line(&mut out, right[j].name.clone());
        assert(b[j as int] == right@[j as int]@.name);
        assert(a + b.take(j + 1) == (a + b.take(j as int)).push(b[j as int]));
        j = j + 1;
    }
    assert(b.take(j as int) == b);
    let r = sorted_set(&out);
    proof {
        let v = strs(r@);
        assert(is_sorted_ids(v, a + b));
        let w = sorted_ids(a + b);
        assert(is_sorted_ids(w, a + b));
        lemma_ascending_unique(v, w);
    }
    r
}

fn write_thing(out: &mut Vec<String>, left: Option<&Item>, right: Option<&Item>, missing: &str, Ghost(l): Ghost<Option<Thing>>, Ghost(r): Ghost<Option<Thing>>)
    requires
        left is Some || right is Some,
        l is Some <==> left is Some,
        r is Some <==> right is Some,
        left is Some ==> l == Some(left->0@),
        right is Some ==> r == Some(right->0@),
    ensures
        strs(final(out)@) == strs(old(out)@) + thing_diff(l, r, missing@),
{
    let ghost before = strs(out@);
    let same: bool = match left {
        Some(a) => match right {
            Some(b) => crate::paths::bytes_eq(&a.mark, &b.mark) && a.size == b.size,
            None => false,
        },
        None => false,
    };
    if same {
        assert(before + thing_diff(l, r, missing@) == before);
        return;
    }
    let listed = match left {
        Some(a) => a.listed.as_str(),
        None => match right {
            Some(b) => b.listed.as_str(),
            None => "",
        },
    };
    let ls = match left {
        Some(a) => a.shown.as_str(),
        None => missing,
    };
    let rs = match right {
        Some(b) => b.shown.as_str(),
        None => missing,
    };
    line(out, cat3("  - ", listed, ls));
    line(out, cat3("  + ", listed, rs));
    assert(strs(out@) == before + thing_diff(l, r, missing@));
}

proof fn lemma_find_thing(v: Seq<Thing>, name: Seq<char>)
    ensures
        find_thing(v, name) is Some <==> thing_names(v).contains(name),
    decreases v.len(),
{
    if v.len() > 0 {
        let f = v.drop_last();
        lemma_find_thing(f, name);
        let nv = thing_names(v);
        let nf = thing_names(f);
        if nf.contains(name) {
            let i = choose|i: int| 0 <= i < nf.len() && nf[i] == name;
            assert(nv[i] == name);
        }
        if v.last().name == name {
            assert(nv[v.len() - 1] == name);
        }
        if nv.contains(name) {
            let i = choose|i: int| 0 <= i < nv.len() && nv[i] == name;
            if i < f.len() {
                assert(nf[i] == name);
            }
        }
    }
}

fn diff_items(label: &str, left: &Vec<Item>, right: &Vec<Item>, missing: &str) -> (r: Vec<String>)
    ensures
        strs(r@) == list_diff(label@, things(left@), things(right@), missing@),
{
    let ghost lt = things(left@);
    let ghost rt = things(right@);
    let names = all_names(left, right);
    let ghost nv = strs(names@);
    let ghost both = thing_names(lt) + thing_names(rt);
    proof {
        assert(exists|v: Seq<Seq<char>>| is_sorted_ids(v, both)) by {
            lemma_sorted_exists(both);
        }
        assert(is_sorted_ids(nv, both));
    }
    let mut body = none();
    let mut i: usize = 0;
    assert(strs(body@) == thing_diffs(nv.take(0), lt, rt, missing@));
    while i < names.len()
        invariant
            i <= names.len(),
            nv == strs(names@),
            lt == things(left@),
            rt == things(right@),
            both == thing_names(lt) + thing_names(rt),
            is_sorted_ids(nv, both),
            strs(body@) == thing_diffs(nv.take(i as int), lt, rt, missing@),
        decreases names.len() - i,
    {
        let ghost n = nv[i as int];
        assert(n == names@[i as int]@);
        let l = find_item(left, names[i].as_str());
        let r = find_item(right, names[i].as_str());
        proof {
            assert(nv.contains(n));
            assert(both.contains(n));
            let k = choose|k: int| 0 <= k < both.len() && both[k] == n;
            if k < lt.len() {
                assert(thing_names(lt)[k] == n);
            } else {
                assert(thing_names(rt)[k - lt.len()] == n);
            }
            lemma_find_thing(lt, n);
            lemma_find_thing(rt, n);
        }
        write_thing(&mut body, l, r, missing, Ghost(find_thing(lt, n)), Ghost(find_thing(rt, n)));
        assert(nv.take(i + 1).drop_last() == nv.take(i as int));
        assert(nv.take(i + 1).last() == n);
        i = i + 1;
    }
    assert(nv.take(i as int) == nv);
    if body.len() == 0 {
        assert(strs(body@).len() == 0);
        return none();
    }
    assert(strs(body@).len() == body@.len());
    let mut out = one(cat3("── ", label, " ──"));
    extend(&mut out, body);
    line(&mut out, String::new());
    assert(strs(out@) == list_diff(label@, lt, rt, missing@));
    out
}

proof fn lemma_sorted_exists(v: Seq<Seq<char>>)
    ensures
        exists|w: Seq<Seq<char>>| is_sorted_ids(w, v),
    decreases v.len(),
{
    if v.len() == 0 {
        assert(is_sorted_ids(v, v));
    } else {
        let f = v.drop_last();
        lemma_sorted_exists(f);
        let w = choose|w: Seq<Seq<char>>| is_sorted_ids(w, f);
        let x = v.last();
        assert(v =~= f.push(x));
        if w.contains(x) {
            assert forall|y: Seq<char>| w.contains(y) <==> v.contains(y) by {
                crate::order::lemma_push_contains(f, x, y);
            }
            assert(is_sorted_ids(w, v));
        } else {
            let k = lemma_insert_place(w, x);
            let z = w.insert(k, x);
            assert forall|a: int, b: int| 0 <= a < b < z.len() implies crate::text::str_lt(#[trigger] z[a], #[trigger] z[b]) by {
                if b < k {
                    assert(crate::text::str_lt(w[a], w[b]));
                } else if b == k {
                    assert(crate::text::str_lt(w[a], x));
                } else if a < k {
                    assert(crate::text::str_lt(w[a], w[b - 1]));
                } else if a == k {
                    assert(crate::text::str_lt(x, w[b - 1]));
                } else {
                    assert(crate::text::str_lt(w[a - 1], w[b - 1]));
                }
            }
            assert forall|y: Seq<char>| z.contains(y) <==> v.contains(y) by {
                crate::order::lemma_push_contains(f, x, y);
                if w.contains(y) {
                    let i = choose|i: int| 0 <= i < w.len() && w[i] == y;
                    assert(z[if i < k { i } else { i + 1 }] == y);
                }
                assert(z[k] == x);
                if z.contains(y) {
                    let i = choose|i: int| 0 <= i < z.len() && z[i] == y;
                    if i < k {
                        assert(w[i] == y);
                    } else if i > k {
                        assert(w[i - 1] == y);
                    }
                }
            }
            assert(is_sorted_ids(z, v));
        }
    }
}

/// Where `x` belongs in an ascending list that does not hold it.
proof fn lemma_insert_place(w: Seq<Seq<char>>, x: Seq<char>) -> (k: int)
    requires
        ascending(w),
        !w.contains(x),
    ensures
        0 <= k <= w.len(),
        forall|a: int| 0 <= a < k ==> crate::text::str_lt(#[trigger] w[a], x),
        forall|a: int| k <= a < w.len() ==> crate::text::str_lt(x, #[trigger] w[a]),
    decreases w.len(),
{
    if w.len() == 0 {
        0
    } else {
        let f = w.drop_last();
        let l = w.last();
        assert(w[w.len() - 1] == l);
        assert(l != x);
        assert forall|a: int, b: int| 0 <= a < b < f.len() implies crate::text::str_lt(#[trigger] f[a], #[trigger] f[b]) by {
            assert(crate::text::str_lt(w[a], w[b]));
        }
        assert(!f.contains(x)) by {
            if f.contains(x) {
                let i = choose|i: int| 0 <= i < f.len() && f[i] == x;
                assert(w[i] == x);
            }
        }
        crate::text::lemma_bytes_lt_total(utf8(l), utf8(x));
        if utf8(l) == utf8(x) {
            crate::text::lemma_utf8_injective(l, x);
        }
        if crate::text::str_lt(l, x) {
            assert forall|a: int| 0 <= a < w.len() implies crate::text::str_lt(#[trigger] w[a], x) by {
                if a < w.len() - 1 {
                    assert(crate::text::str_lt(w[a], w[w.len() - 1]));
                    crate::text::lemma_bytes_lt_transitive(utf8(w[a]), utf8(l), utf8(x));
                }
            }
            w.len() as int
        } else {
            let k = lemma_insert_place(f, x);
            assert forall|a: int| 0 <= a < k implies crate::text::str_lt(#[trigger] w[a], x) by {
                assert(crate::text::str_lt(f[a], x));
            }
            assert forall|a: int| k <= a < w.len() implies crate::text::str_lt(x, #[trigger] w[a]) by {
                if a < f.len() {
                    assert(crate::text::str_lt(x, f[a]));
                }
            }
            k
        }
    }
}

// The sections.

pub open spec fn env_things(v: Seq<(String, String)>) -> Seq<Thing> {
    v.map_values(|p: (String, String)| Thing { name: p.0@, listed: p.0@ + "="@, mark: utf8(p.1@), size: 0, shown: p.1@ })
}

pub open spec fn file_things(v: Seq<FileInputContribution>) -> Seq<Thing> {
    v.map_values(
        |f: FileInputContribution| Thing {
            name: f.rel_path@,
            listed: padded(f.rel_path@, 60) + " "@,
            mark: f.content_hash@,
            size: f.size,
            shown: short_hex(f.content_hash@),
        },
    )
}

pub open spec fn dep_things(v: Seq<(TargetId, ContentHash)>) -> Seq<Thing> {
    v.map_values(|p: (TargetId, ContentHash)| Thing { name: p.0@, listed: p.0@ + " "@, mark: p.1@, size: 0, shown: short_hex(p.1@) })
}

fn env_items(v: &Vec<(String, String)>) -> (r: Vec<Item>)
    ensures
        things(r@) == env_things(v@),
{
    let mut out: Vec<Item> = Vec::new();
    let mut i: usize = 0;
    while i < v.len()
        invariant
            i <= v.len(),
            out.len() == i,
            forall|k: int| 0 <= k < i ==> (#[trigger] out@[k])@ == (Thing { name: v@[k].0@, listed: v@[k].0@ + "="@, mark: utf8(v@[k].1@), size: 0, shown: v@[k].1@ }),
        decreases v.len() - i,
    {
        let mut mark: Vec<u8> = Vec::new();
        crate::paths::push_utf8(&mut mark, v[i].1.as_str());
        assert(mark@ == utf8(v@[i as int].1@));
        out.push(Item { name: v[i].0.clone(), listed: cat2(v[i].0.as_str(), "="), mark, size: 0, shown: v[i].1.clone() });
        i = i + 1;
    }
    assert(things(out@) == env_things(v@));
    out
}

fn hash_mark(h: &ContentHash) -> (r: Vec<u8>)
    ensures
        r@ == h@,
{
    let b = h.as_bytes();
    let mut out: Vec<u8> = Vec::new();
    let mut i: usize = 0;
    while i < 32
        invariant
            i <= 32,
            b@.len() == 32,
            out@ == b@.take(i as int),
        decreases 32 - i,
    {
        out.push(b[i]);
        assert(b@.take(i + 1) == b@.take(i as int).push(b@[i as int]));
        i = i + 1;
    }
    assert(b@.take(32) == b@);
    out
}

fn file_items(v: &Vec<FileInputContribution>) -> (r: Vec<Item>)
    ensures
        things(r@) == file_things(v@),
{
    let mut out: Vec<Item> = Vec::new();
    let mut i: usize = 0;
    while i < v.len()
        invariant
            i <= v.len(),
            out.len() == i,
            forall|k: int| 0 <= k < i ==> (#[trigger] out@[k])@ == (Thing {
                name: v@[k].rel_path@,
                listed: padded(v@[k].rel_path@, 60) + " "@,
                mark: v@[k].content_hash@,
                size: v@[k].size,
                shown: short_hex(v@[k].content_hash@),
            }),
        decreases v.len() - i,
    {
        let p = pad(v[i].rel_path.as_str(), 60);
        out.push(
            Item {
                name: v[i].rel_path.clone(),
                listed: cat2(p.as_str(), " "),
                mark: hash_mark(&v[i].content_hash),
                size: v[i].size,
                shown: short_hash(&v[i].content_hash),
            },
        );
        i = i + 1;
    }
    assert(things(out@) == file_things(v@));
    out
}

fn dep_items(v: &Vec<(TargetId, ContentHash)>) -> (r: Vec<Item>)
    ensures
        things(r@) == dep_things(v@),
{
    let mut out: Vec<Item> = Vec::new();
    let mut i: usize = 0;
    while i < v.len()
        invariant
            i <= v.len(),
            out.len() == i,
            forall|k: int| 0 <= k < i ==> (#[trigger] out@[k])@ == (Thing { name: v@[k].0@, listed: v@[k].0@ + " "@, mark: v@[k].1@, size: 0, shown: short_hex(v@[k].1@) }),
        decreases v.len() - i,
    {
        out.push(
            Item { name: owned(v[i].0.as_str()), listed: cat2(v[i].0.as_str(), " "), mark: hash_mark(&v[i].1), size: 0, shown: short_hash(&v[i].1) },
        );
        i = i + 1;
    }
    assert(things(out@) == dep_things(v@));
    out
}

pub fn diff_env_map(label: &str, left: &Vec<(String, String)>, right: &Vec<(String, String)>) -> (r: Vec<String>)
    ensures
        strs(r@) == list_diff(label@, env_things(left@), env_things(right@), "<unset>"@),
{
    let l = env_items(left);
    let r = env_items(right);
    diff_items(label, &l, &r, "<unset>")
}

pub fn diff_file_inputs(left: &Vec<FileInputContribution>, right: &Vec<FileInputContribution>) -> (r: Vec<String>)
    ensures
        strs(r@) == list_diff("file inputs"@, file_things(left@), file_things(right@), "<absent>"@),
{
    let l = file_items(left);
    let r = file_items(right);
    diff_items("file inputs", &l, &r, "<absent>")
}

pub fn diff_dep_outputs(left: &Vec<(TargetId, ContentHash)>, right: &Vec<(TargetId, ContentHash)>) -> (r: Vec<String>)
    ensures
        strs(r@) == list_diff("dep outputs"@, dep_things(left@), dep_things(right@), "<absent>"@),
{
    let l = dep_items(left);
    let r = dep_items(right);
    diff_items("dep outputs", &l, &r, "<absent>")
}

/// The fingerprint input at a position, if there is one.
pub open spec fn structural_at(v: Seq<StructuralContribution>, i: int) -> Option<StructuralContribution> {
    if i < v.len() {
        Some(v[i])
    } else {
        None
    }
}

/// How one side of fingerprint input `i` is shown.
pub open spec fn structural_side(sign: Seq<char>, i: int, s: Option<StructuralContribution>) -> Seq<Seq<char>> {
    match s {
        Some(c) => seq![sign + decimal((i + 1) as nat) + "] "@ + hex_of(c.fingerprint@), "      files: "@ + join_with(strs(c.files@), ", "@)],
        None => seq![sign + decimal((i + 1) as nat) + "] <absent>"@],
    }
}

pub open spec fn structural_diff_at(left: Seq<StructuralContribution>, right: Seq<StructuralContribution>, i: int) -> Seq<Seq<char>> {
    let l = structural_at(left, i);
    let r = structural_at(right, i);
    if l is Some && r is Some && l->0.fingerprint@ == r->0.fingerprint@ {
        Seq::<Seq<char>>::empty()
    } else {
        structural_side("  - ["@, i, l) + structural_side("  + ["@, i, r)
    }
}

pub open spec fn structural_diffs(left: Seq<StructuralContribution>, right: Seq<StructuralContribution>, n: int) -> Seq<Seq<char>>
    decreases n,
{
    if n <= 0 {
        Seq::<Seq<char>>::empty()
    } else {
        structural_diffs(left, right, n - 1) + structural_diff_at(left, right, n - 1)
    }
}

/// A section for the fingerprint inputs that differ, by position.
pub open spec fn structural_diff(left: Seq<StructuralContribution>, right: Seq<StructuralContribution>) -> Seq<Seq<char>> {
    let n = if left.len() >= right.len() {
        left.len()
    } else {
        right.len()
    };
    let body = structural_diffs(left, right, n as int);
    if body.len() == 0 {
        Seq::<Seq<char>>::empty()
    } else {
        seq![heading("structural inputs"@)] + body + seq![Seq::<char>::empty()]
    }
}

fn write_side(out: &mut Vec<String>, sign: &str, i: usize, s: Option<&StructuralContribution>, Ghost(g): Ghost<Option<StructuralContribution>>)
    requires
        g is Some <==> s is Some,
        s is Some ==> g == Some(*(s->0)),
    ensures
        strs(final(out)@) == strs(old(out)@) + structural_side(sign@, i as int, g),
{
    let ghost before = strs(out@);
    let n = number(i as u128 + 1);
    match s {
        Some(c) => {
            let hex = c.fingerprint.to_hex();
            line(out, cat4(sign, n.as_str(), "] ", hex.as_str()));
            let files = join(&c.files, ", ");
            line(out, cat2("      files: ", files.as_str()));
        },
        None => line(out, cat3(sign, n.as_str(), "] <absent>")),
    }
    assert(strs(out@) == before + structural_side(sign@, i as int, g));
}

pub fn diff_structural(left: &Vec<StructuralContribution>, right: &Vec<StructuralContribution>) -> (r: Vec<String>)
    ensures
        strs(r@) == structural_diff(left@, right@),
{
    let n: usize = if left.len() >= right.len() {
        left.len()
    } else {
        right.len()
    };
    let mut body = none();
    let mut i: usize = 0;
    while i < n
        invariant
            i <= n,
            n >= left.len(),
            n >= right.len(),
            n == left.len() || n == right.len(),
            strs(body@) == structural_diffs(left@, right@, i as int),
        decreases n - i,
    {
        let l: Option<&StructuralContribution> = if i < left.len() {
            Some(&left[i])
        } else {
            None
        };
        let r: Option<&StructuralContribution> = if i < right.len() {
            Some(&right[i])
        } else {
            None
        };
        let same: bool = match l {
            Some(a) => match r {
                Some(b) => a.fingerprint.same(&b.fingerprint),
                None => false,
            },
            None => false,
        };
        let ghost before = strs(body@);
        if !same {
            write_side(&mut body, "  - [", i, l, Ghost(structural_at(left@, i as int)));
            write_side(&mut body, "  + [", i, r, Ghost(structural_at(right@, i as int)));
        }
        assert(strs(body@) == before + structural_diff_at(left@, right@, i as int));
        i = i + 1;
    }
    if body.len() == 0 {
        assert(strs(body@).len() == 0);
        return none();
    }
    assert(strs(body@).len() == body@.len());
    let mut out = one(cat3("── ", "structural inputs", " ──"));
    extend(&mut out, body);
    line(&mut out, String::new());
    assert(strs(out@) == structural_diff(left@, right@));
    out
}

/// The difference of two breakdowns, section by section; only what differs is
/// shown, and nothing if the keys are the same.
pub open spec fn diff_lines(
    left_id: Seq<char>,
    left_key: Seq<u8>,
    left: CacheKeyBreakdown,
    right_id: Seq<char>,
    right_key: Seq<u8>,
    right: CacheKeyBreakdown,
) -> Seq<Seq<char>> {
    let head = seq![
        "comparing:"@,
        "  -  "@ + left_id + "  ("@ + hex_of(left_key) + ")"@,
        "  +  "@ + right_id + "  ("@ + hex_of(right_key) + ")"@,
        Seq::<char>::empty(),
    ];
    if left_key == right_key {
        head.push("(cache keys are identical - no diff to show)"@)
    } else {
        head + scalar_diff("command"@, left.command@, right.command@) + scalar_diff("cwd"@, left.cwd@, right.cwd@) + list_diff(
            "env (user)"@,
            env_things(left.user_env@),
            env_things(right.user_env@),
            "<unset>"@,
        ) + list_diff("env (built-in)"@, env_things(left.built_in_env@), env_things(right.built_in_env@), "<unset>"@) + list_diff(
            "file inputs"@,
            file_things(left.file_inputs@),
            file_things(right.file_inputs@),
            "<absent>"@,
        ) + list_diff("dep outputs"@, dep_things(left.dep_outputs@), dep_things(right.dep_outputs@), "<absent>"@) + structural_diff(
            left.structural_inputs@,
            right.structural_inputs@,
        )
    }
}

/// The difference of two breakdowns.
pub fn print_diff(
    left_id: &TargetId,
    left_key: &CacheKey,
    left: &CacheKeyBreakdown,
    right_id: &TargetId,
    right_key: &CacheKey,
    right: &CacheKeyBreakdown,
) -> (r: Vec<String>)
    ensures
        strs(r@) == diff_lines(left_id@, left_key@, *left, right_id@, right_key@, *right),
{
    let mut out = one(owned("comparing:"));
    let lh = left_key.to_hex();
    let rh = right_key.to_hex();
    line(&mut out, cat5("  -  ", left_id.as_str(), "  (", lh.as_str(), ")"));
    line(&mut out, cat5("  +  ", right_id.as_str(), "  (", rh.as_str(), ")"));
    line(&mut out, String::new());
    let ghost head = seq![
        "comparing:"@,
        "  -  "@ + left_id@ + "  ("@ + hex_of(left_key@) + ")"@,
        "  +  "@ + right_id@ + "  ("@ + hex_of(right_key@) + ")"@,
        Seq::<char>::empty(),
    ];
    assert(strs(out@) == head);
    if left_key.same(right_key) {
        line(&mut out, owned("(cache keys are identical - no diff to show)"));
        return out;
    }
    extend(&mut out, diff_scalar("command", left.command.as_str(), right.command.as_str()));
    extend(&mut out, diff_scalar("cwd", left.cwd.as_str(), right.cwd.as_str()));
    extend(&mut out, diff_env_map("env (user)", &left.user_env, &right.user_env));
    extend(&mut out, diff_env_map("env (built-in)", &left.built_in_env, &right.built_in_env));
    extend(&mut out, diff_file_inputs(&left.file_inputs, &right.file_inputs));
    extend(&mut out, diff_dep_outputs(&left.dep_outputs, &right.dep_outputs));
    extend(&mut out, diff_structural(&left.structural_inputs, &right.structural_inputs));
    out
}

/// A list does not differ from itself.
pub proof fn law_no_self_diff(label: Seq<char>, v: Seq<Thing>, missing: Seq<char>)
    ensures
        list_diff(label, v, v, missing).len() == 0,
{
    let both = thing_names(v) + thing_names(v);
    lemma_sorted_exists(both);
    let names = sorted_ids(both);
    assert(is_sorted_ids(names, both));
    assert forall|i: int| 0 <= i < names.len() implies thing_names(v).contains(#[trigger] names[i]) by {
        assert(names.contains(names[i]));
        let k = choose|k: int| 0 <= k < both.len() && both[k] == names[i];
        if k < v.len() {
            assert(thing_names(v)[k] == names[i]);
        } else {
            assert(thing_names(v)[k - v.len()] == names[i]);
        }
    }
    lemma_self_diffs(names, v, missing);
}

proof fn lemma_self_diffs(names: Seq<Seq<char>>, v: Seq<Thing>, missing: Seq<char>)
    requires
        forall|i: int| 0 <= i < names.len() ==> thing_names(v).contains(#[trigger] names[i]),
    ensures
        thing_diffs(names, v, v, missing).len() == 0,
    decreases names.len(),
{
    if names.len() > 0 {
        let f = names.drop_last();
        assert forall|i: int| 0 <= i < f.len() implies thing_names(v).contains(#[trigger] f[i]) by {
            assert(f[i] == names[i]);
        }
        lemma_self_diffs(f, v, missing);
        assert(thing_names(v).contains(names[names.len() - 1]));
        lemma_find_thing(v, names.last());
    }
}

proof fn lemma_find_unique(v: Seq<Thing>, i: int)
    requires
        0 <= i < v.len(),
        forall|j: int| 0 <= j < v.len() && (#[trigger] v[j]).name == v[i].name ==> j == i,
    ensures
        find_thing(v, v[i].name) == Some(v[i]),
    decreases v.len(),
{
    if i < v.len() - 1 {
        let f = v.drop_last();
        assert(v[v.len() - 1].name != v[i].name);
        assert forall|j: int| 0 <= j < f.len() && (#[trigger] f[j]).name == f[i].name implies j == i by {
            assert(f[j] == v[j]);
        }
        lemma_find_unique(f, i);
    }
}

proof fn lemma_find_none(v: Seq<Thing>, name: Seq<char>)
    requires
        forall|j: int| 0 <= j < v.len() ==> (#[trigger] v[j]).name != name,
    ensures
        find_thing(v, name) is None,
    decreases v.len(),
{
    if v.len() > 0 {
        let f = v.drop_last();
        assert(v[v.len() - 1].name != name);
        assert forall|j: int| 0 <= j < f.len() implies (#[trigger] f[j]).name != name by {
            assert(f[j] == v[j]);
        }
        lemma_find_none(f, name);
    }
}

proof fn lemma_diff_among(names: Seq<Seq<char>>, left: Seq<Thing>, right: Seq<Thing>, missing: Seq<char>, k: int, line: Seq<char>)
    requires
        0 <= k < names.len(),
        thing_diff(find_thing(left, names[k]), find_thing(right, names[k]), missing).contains(line),
    ensures
        thing_diffs(names, left, right, missing).contains(line),
    decreases names.len(),
{
    let f = names.drop_last();
    let a = thing_diffs(f, left, right, missing);
    let b = thing_diff(find_thing(left, names.last()), find_thing(right, names.last()), missing);
    if k < f.len() {
        assert(f[k] == names[k]);
        lemma_diff_among(f, left, right, missing, k, line);
        let i = choose|i: int| 0 <= i < a.len() && a[i] == line;
        assert((a + b)[i] == line);
    } else {
        let i = choose|i: int| 0 <= i < b.len() && b[i] == line;
        assert((a + b)[a.len() + i] == line);
    }
}

proof fn lemma_list_diff_shows(label: Seq<char>, left: Seq<Thing>, right: Seq<Thing>, missing: Seq<char>, name: Seq<char>, line: Seq<char>)
    requires
        thing_names(left).contains(name) || thing_names(right).contains(name),
        thing_diff(find_thing(left, name), find_thing(right, name), missing).contains(line),
    ensures
        list_diff(label, left, right, missing).contains(line),
{
    let both = thing_names(left) + thing_names(right);
    lemma_sorted_exists(both);
    let names = sorted_ids(both);
    assert(is_sorted_ids(names, both));
    if thing_names(left).contains(name) {
        let i = choose|i: int| 0 <= i < left.len() && thing_names(left)[i] == name;
        assert(both[i] == name);
    } else {
        let i = choose|i: int| 0 <= i < right.len() && thing_names(right)[i] == name;
        assert(both[left.len() + i] == name);
    }
    assert(both.contains(name));
    assert(names.contains(name));
    let k = choose|k: int| 0 <= k < names.len() && names[k] == name;
    lemma_diff_among(names, left, right, missing, k, line);
    let body = thing_diffs(names, left, right, missing);
    let i = choose|i: int| 0 <= i < body.len() && body[i] == line;
    assert((seq![heading(label)] + body + seq![Seq::<char>::empty()])[i + 1] == line);
}

/// A thing that both sides have and that differs is shown, as it is on either
/// side; one that a side lacks is shown as missing there.
pub proof fn law_difference_shown(label: Seq<char>, left: Seq<Thing>, right: Seq<Thing>, missing: Seq<char>, i: int)
    requires
        0 <= i < left.len(),
        forall|j: int| 0 <= j < left.len() && (#[trigger] left[j]).name == left[i].name ==> j == i,
    ensures
        (forall|j: int| 0 <= j < right.len() ==> (#[trigger] right[j]).name != left[i].name) ==> list_diff(label, left, right, missing).contains("  - "@ + left[i].listed + left[i].shown) && list_diff(label, left, right, missing).contains("  + "@ + left[i].listed + missing),
        (forall|j: int| 0 <= j < right.len() ==> (#[trigger] right[j]).name != left[i].name) ==> list_diff(label, right, left, missing).contains("  - "@ + left[i].listed + missing) && list_diff(label, right, left, missing).contains("  + "@ + left[i].listed + left[i].shown),
        forall|k: int|
            0 <= k < right.len() && (#[trigger] right[k]).name == left[i].name && (forall|j: int| 0 <= j < right.len() && (#[trigger] right[j]).name == right[k].name ==> j == k) && (right[k].mark != left[i].mark || right[k].size != left[i].size) ==> list_diff(label, left, right, missing).contains("  - "@ + left[i].listed + left[i].shown) && list_diff(label, left, right, missing).contains("  + "@ + left[i].listed + right[k].shown),
{
    let n = left[i].name;
    lemma_find_unique(left, i);
    assert(thing_names(left)[i] == n);
    assert(thing_names(left).contains(n));
    if forall|j: int| 0 <= j < right.len() ==> (#[trigger] right[j]).name != n {
        lemma_find_none(right, n);
        let d = thing_diff(find_thing(left, n), find_thing(right, n), missing);
        assert(d[0] == "  - "@ + left[i].listed + left[i].shown);
        assert(d[1] == "  + "@ + left[i].listed + missing);
        lemma_list_diff_shows(label, left, right, missing, n, d[0]);
        lemma_list_diff_shows(label, left, right, missing, n, d[1]);
        let e = thing_diff(find_thing(right, n), find_thing(left, n), missing);
        assert(e[0] == "  - "@ + left[i].listed + missing);
        assert(e[1] == "  + "@ + left[i].listed + left[i].shown);
        lemma_list_diff_shows(label, right, left, missing, n, e[0]);
        lemma_list_diff_shows(label, right, left, missing, n, e[1]);
    }
    assert forall|k: int|
        0 <= k < right.len() && (#[trigger] right[k]).name == n && (forall|j: int| 0 <= j < right.len() && (#[trigger] right[j]).name == right[k].name ==> j == k) && (right[k].mark != left[i].mark || right[k].size != left[i].size) implies list_diff(label, left, right, missing).contains("  - "@ + left[i].listed + left[i].shown) && list_diff(label, left, right, missing).contains("  + "@ + left[i].listed + right[k].shown) by {
        lemma_find_unique(right, k);
        let d = thing_diff(find_thing(left, n), find_thing(right, n), missing);
        assert(d[0] == "  - "@ + left[i].listed + left[i].shown);
        assert(d[1] == "  + "@ + left[i].listed + right[k].shown);
        lemma_list_diff_shows(label, left, right, missing, n, d[0]);
        lemma_list_diff_shows(label, left, right, missing, n, d[1]);
    }
}

/// A variable, a file and a dependency are told by their name, and two of one
/// name are the same exactly if the value, the content and size, or the output
/// hash is.
pub proof fn law_things(env: Seq<(String, String)>, files: Seq<FileInputContribution>, deps: Seq<(TargetId, ContentHash)>)
    ensures
        env_things(env).len() == env.len() && file_things(files).len() == files.len() && dep_things(deps).len() == deps.len(),
        forall|i: int| 0 <= i < env.len() ==> (#[trigger] env_things(env)[i]).name == env[i].0@ && env_things(env)[i].shown == env[i].1@,
        forall|i: int, j: int| 0 <= i < env.len() && 0 <= j < env.len() ==> ((#[trigger] env_things(env)[i]).mark == (#[trigger] env_things(env)[j]).mark <==> env[i].1@ == env[j].1@),
        forall|i: int| 0 <= i < files.len() ==> (#[trigger] file_things(files)[i]).name == files[i].rel_path@ && file_things(files)[i].mark == files[i].content_hash@ && file_things(files)[i].size == files[i].size,
        forall|i: int| 0 <= i < deps.len() ==> (#[trigger] dep_things(deps)[i]).name == deps[i].0@ && dep_things(deps)[i].mark == deps[i].1@,
{
    assert forall|i: int, j: int| 0 <= i < env.len() && 0 <= j < env.len() implies ((#[trigger] env_things(env)[i]).mark == (#[trigger] env_things(env)[j]).mark <==> env[i].1@ == env[j].1@) by {
        if utf8(env[i].1@) == utf8(env[j].1@) {
            crate::text::lemma_utf8_injective(env[i].1@, env[j].1@);
        }
    }
}

/// A fingerprint input that differs, or that one side lacks, is shown with its
/// fingerprints.
pub proof fn law_structural_shown(left: Seq<StructuralContribution>, right: Seq<StructuralContribution>, i: int)
    requires
        0 <= i < left.len(),
        i < right.len() ==> left[i].fingerprint@ != right[i].fingerprint@,
    ensures
        structural_diff(left, right).contains("  - ["@ + decimal((i + 1) as nat) + "] "@ + hex_of(left[i].fingerprint@)),
        i < right.len() ==> structural_diff(left, right).contains("  + ["@ + decimal((i + 1) as nat) + "] "@ + hex_of(right[i].fingerprint@)),
        i >= right.len() ==> structural_diff(left, right).contains("  + ["@ + decimal((i + 1) as nat) + "] <absent>"@),
{
    let n = if left.len() >= right.len() {
        left.len() as int
    } else {
        right.len() as int
    };
    let d = structural_diff_at(left, right, i);
    let l = structural_side("  - ["@, i, structural_at(left, i));
    let r = structural_side("  + ["@, i, structural_at(right, i));
    assert(d =~= l + r);
    assert(d[0] == l[0]);
    assert(d[l.len() as int] == r[0]);
    lemma_structural_among(left, right, n, i, d[0]);
    lemma_structural_among(left, right, n, i, d[l.len() as int]);
}

proof fn lemma_structural_among(left: Seq<StructuralContribution>, right: Seq<StructuralContribution>, n: int, i: int, line: Seq<char>)
    requires
        0 <= i < n,
        n == left.len() || n == right.len(),
        n >= left.len() && n >= right.len(),
        structural_diff_at(left, right, i).contains(line),
    ensures
        structural_diff(left, right).contains(line),
{
    lemma_structural_in(left, right, n, i, line);
    let body = structural_diffs(left, right, n);
    let k = choose|k: int| 0 <= k < body.len() && body[k] == line;
    assert((seq![heading("structural inputs"@)] + body + seq![Seq::<char>::empty()])[k + 1] == line);
}

proof fn lemma_structural_in(left: Seq<StructuralContribution>, right: Seq<StructuralContribution>, n: int, i: int, line: Seq<char>)
    requires
        0 <= i < n,
        structural_diff_at(left, right, i).contains(line),
    ensures
        structural_diffs(left, right, n).contains(line),
    decreases n,
{
    let a = structural_diffs(left, right, n - 1);
    let b = structural_diff_at(left, right, n - 1);
    if i < n - 1 {
        lemma_structural_in(left, right, n - 1, i, line);
        let k = choose|k: int| 0 <= k < a.len() && a[k] == line;
        assert((a + b)[k] == line);
    } else {
        let k = choose|k: int| 0 <= k < b.len() && b[k] == line;
        assert((a + b)[a.len() + k] == line);
    }
}

proof fn lemma_either(a: Seq<Seq<char>>, b: Seq<Seq<char>>, x: Seq<char>)
    ensures
        a.contains(x) || b.contains(x) ==> (a + b).contains(x),
{
    let c = a + b;
    if a.contains(x) {
        let i = choose|i: int| 0 <= i < a.len() && a[i] == x;
        assert(c[i] == x);
    }
    if b.contains(x) {
        let i = choose|i: int| 0 <= i < b.len() && b[i] == x;
        assert(c[a.len() + i] == x);
    }
}

proof fn lemma_structural_listed(v: Seq<StructuralContribution>, i: int, x: Seq<char>)
    requires
        0 <= i < v.len(),
        structural_lines(i as nat, v[i]).contains(x),
    ensures
        all_structural_lines(v).contains(x),
    decreases v.len(),
{
    lemma_either(all_structural_lines(v.drop_last()), structural_lines((v.len() - 1) as nat, v.last()), x);
    if i < v.len() - 1 {
        assert(v.drop_last()[i] == v[i]);
        lemma_structural_listed(v.drop_last(), i, x);
    }
}

/// A line of a section stands in the explanation.
proof fn lemma_section_shown(id: Seq<char>, key: Seq<u8>, bd: CacheKeyBreakdown, ac: Option<AcEntry>, x: Seq<char>)
    ensures
        header_lines(id, key, ac).contains(x) || command_lines(bd).contains(x) || env_lines(bd).contains(x) || file_lines(
            bd.file_inputs@,
        ).contains(x) || structural_section(bd.structural_inputs@).contains(x) || dep_lines(bd.dep_outputs@).contains(x) ==> input_lines(
            id,
            key,
            bd,
            ac,
        ).contains(x),
{
    let a = header_lines(id, key, ac);
    let b = command_lines(bd);
    let c = env_lines(bd);
    let d = file_lines(bd.file_inputs@);
    let e = structural_section(bd.structural_inputs@);
    let f = dep_lines(bd.dep_outputs@);
    lemma_either(a, b, x);
    lemma_either(a + b, c, x);
    lemma_either(a + b + c, d, x);
    lemma_either(a + b + c + d, e, x);
    lemma_either(a + b + c + d + e, f, x);
}

/// An explanation shows everything that goes into the key: the label, the key,
/// the command, every variable, every file with its hash and size, every
/// fingerprint and the hash of every dependency.
pub proof fn law_all_inputs_shown(id: Seq<char>, key: Seq<u8>, bd: CacheKeyBreakdown, ac: Option<AcEntry>, i: int)
    ensures
        input_lines(id, key, bd, ac).contains("target:      "@ + id),
        input_lines(id, key, bd, ac).contains("cache key:   "@ + hex_of(key)),
        input_lines(id, key, bd, ac).contains("  "@ + bd.command@),
        bd.cwd@.len() > 0 ==> input_lines(id, key, bd, ac).contains("cwd:         "@ + bd.cwd@),
        0 <= i < bd.user_env@.len() ==> input_lines(id, key, bd, ac).contains("  "@ + bd.user_env@[i].0@ + "="@ + bd.user_env@[i].1@),
        0 <= i < bd.built_in_env@.len() ==> input_lines(id, key, bd, ac).contains(
            "  "@ + bd.built_in_env@[i].0@ + "="@ + bd.built_in_env@[i].1@ + "  (built-in)"@,
        ),
        0 <= i < bd.file_inputs@.len() ==> input_lines(id, key, bd, ac).contains(
            "  "@ + padded(bd.file_inputs@[i].rel_path@, 60) + " "@ + (short_hex(bd.file_inputs@[i].content_hash@) + "  "@ + size_text(
                bd.file_inputs@[i].size as nat,
            )),
        ),
        0 <= i < bd.structural_inputs@.len() ==> input_lines(id, key, bd, ac).contains(
            "      fingerprint: "@ + hex_of(bd.structural_inputs@[i].fingerprint@),
        ),
        0 <= i < bd.dep_outputs@.len() ==> input_lines(id, key, bd, ac).contains(
            "  "@ + bd.dep_outputs@[i].0@ + " "@ + short_hex(bd.dep_outputs@[i].1@),
        ),
{
    let head = header_lines(id, key, ac);
    lemma_section_shown(id, key, bd, ac, "target:      "@ + id);
    lemma_section_shown(id, key, bd, ac, "cache key:   "@ + hex_of(key));
    assert(head[0] == "target:      "@ + id && head[1] == "cache key:   "@ + hex_of(key));
    lemma_section_shown(id, key, bd, ac, "  "@ + bd.command@);
    assert(command_lines(bd)[1] == "  "@ + bd.command@);
    if bd.cwd@.len() > 0 {
        lemma_section_shown(id, key, bd, ac, "cwd:         "@ + bd.cwd@);
        assert(command_lines(bd)[3] == "cwd:         "@ + bd.cwd@);
    }
    if 0 <= i < bd.user_env@.len() {
        let x = "  "@ + bd.user_env@[i].0@ + "="@ + bd.user_env@[i].1@;
        assert(env_lines(bd)[1 + i] == x);
        lemma_section_shown(id, key, bd, ac, x);
    }
    if 0 <= i < bd.built_in_env@.len() {
        let x = "  "@ + bd.built_in_env@[i].0@ + "="@ + bd.built_in_env@[i].1@ + "  (built-in)"@;
        assert(env_lines(bd)[1 + bd.user_env@.len() + i] == x);
        lemma_section_shown(id, key, bd, ac, x);
    }
    if 0 <= i < bd.file_inputs@.len() {
        let f = bd.file_inputs@[i];
        let x = "  "@ + padded(f.rel_path@, 60) + " "@ + (short_hex(f.content_hash@) + "  "@ + size_text(f.size as nat));
        assert(file_lines(bd.file_inputs@)[1 + i] == x);
        lemma_section_shown(id, key, bd, ac, x);
    }
    if 0 <= i < bd.structural_inputs@.len() {
        let v = bd.structural_inputs@;
        let x = "      fingerprint: "@ + hex_of(v[i].fingerprint@);
        let own = structural_lines(i as nat, v[i]);
        assert(own[own.len() - 1] == x);
        lemma_structural_listed(v, i, x);
        let h = seq!["structural inputs ("@ + decimal(v.len()) + "):"@];
        lemma_either(h, all_structural_lines(v), x);
        lemma_either(h + all_structural_lines(v), none_line(v.len() == 0), x);
        lemma_either(h + all_structural_lines(v) + none_line(v.len() == 0), seq![Seq::<char>::empty()], x);
        lemma_section_shown(id, key, bd, ac, x);
    }
    if 0 <= i < bd.dep_outputs@.len() {
        let x = "  "@ + bd.dep_outputs@[i].0@ + " "@ + short_hex(bd.dep_outputs@[i].1@);
        assert(dep_lines(bd.dep_outputs@)[1 + i] == x);
        lemma_section_shown(id, key, bd, ac, x);
    }
}

/// Two texts that are the same make no section; two that differ are both shown.
pub proof fn law_text_difference_shown(label: Seq<char>, left: Seq<char>, right: Seq<char>)
    ensures
        scalar_diff(label, left, right).len() == 0 <==> left == right,
        left != right ==> scalar_diff(label, left, right).contains("  - "@ + left) && scalar_diff(label, left, right).contains("  + "@ + right),
{
    if left != right {
        let v = scalar_diff(label, left, right);
        assert(v[1] == "  - "@ + left && v[2] == "  + "@ + right);
    }
}

/// A comparison of two keys that differ holds the differences of all their parts.
pub proof fn law_all_differences_shown(
    left_id: Seq<char>,
    left_key: Seq<u8>,
    left: CacheKeyBreakdown,
    right_id: Seq<char>,
    right_key: Seq<u8>,
    right: CacheKeyBreakdown,
    x: Seq<char>,
)
    requires
        left_key != right_key,
        ({
            ||| left.command@ != right.command@ && (x == "  - "@ + left.command@ || x == "  + "@ + right.command@)
            ||| left.cwd@ != right.cwd@ && (x == "  - "@ + left.cwd@ || x == "  + "@ + right.cwd@)
            ||| list_diff("env (user)"@, env_things(left.user_env@), env_things(right.user_env@), "<unset>"@).contains(x)
            ||| list_diff("env (built-in)"@, env_things(left.built_in_env@), env_things(right.built_in_env@), "<unset>"@).contains(x)
            ||| list_diff("file inputs"@, file_things(left.file_inputs@), file_things(right.file_inputs@), "<absent>"@).contains(x)
            ||| list_diff("dep outputs"@, dep_things(left.dep_outputs@), dep_things(right.dep_outputs@), "<absent>"@).contains(x)
            ||| structural_diff(left.structural_inputs@, right.structural_inputs@).contains(x)
        }),
    ensures
        diff_lines(left_id, left_key, left, right_id, right_key, right).contains(x),
{
    let head = seq![
        "comparing:"@,
        "  -  "@ + left_id + "  ("@ + hex_of(left_key) + ")"@,
        "  +  "@ + right_id + "  ("@ + hex_of(right_key) + ")"@,
        Seq::<char>::empty(),
    ];
    law_text_difference_shown("command"@, left.command@, right.command@);
    law_text_difference_shown("cwd"@, left.cwd@, right.cwd@);
    let a = scalar_diff("command"@, left.command@, right.command@);
    let b = scalar_diff("cwd"@, left.cwd@, right.cwd@);
    let c = list_diff("env (user)"@, env_things(left.user_env@), env_things(right.user_env@), "<unset>"@);
    let d = list_diff("env (built-in)"@, env_things(left.built_in_env@), env_things(right.built_in_env@), "<unset>"@);
    let e = list_diff("file inputs"@, file_things(left.file_inputs@), file_things(right.file_inputs@), "<absent>"@);
    let f = list_diff("dep outputs"@, dep_things(left.dep_outputs@), dep_things(right.dep_outputs@), "<absent>"@);
    let g = structural_diff(left.structural_inputs@, right.structural_inputs@);
    lemma_either(head, a, x);
    lemma_either(head + a, b, x);
    lemma_either(head + a + b, c, x);
    lemma_either(head + a + b + c, d, x);
    lemma_either(head + a + b + c + d, e, x);
    lemma_either(head + a + b + c + d + e, f, x);
    lemma_either(head + a + b + c + d + e + f, g, x);
}

} // verus!

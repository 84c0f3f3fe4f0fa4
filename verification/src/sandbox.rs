//! The sandbox: what a command may touch, and how it is run.

use crate::config::SandboxConfig;
use crate::model::{out_paths_of, TargetSpec};
use crate::order::{ascending, lemma_push_contains, names_of, sorted_set};
use crate::outputs::{output_parent_to_create, parent_to_create};
use crate::key::env_views;
use crate::paths::{absolute, holds_path, is_absolute, joined, law_path_set, path_join, path_set, sort_paths, stays_below, OutputPath};
use crate::text::{cat2, chars_of, copy_strs, ends_with, has_prefix, has_suffix, owned, starts_with, strip_prefix, strs, text_of};
use crate::walk::{keep_flagged, kept};
use vstd::prelude::*;
use vstd::string::*;

verus! {

/// What every sandboxed command of a build may use.
#[derive(Debug, PartialEq, Eq)]
pub struct SandboxPolicy {
    /// The program that runs a command in the sandbox.
    pub helper: String,
    /// Directories to read and execute from.
    pub toolchain: Vec<String>,
    /// Paths outside the workspace to write to.
    pub rw: Vec<String>,
    /// Variables to pass on.
    pub env: Vec<String>,
}

/// The version of the sandbox description.
pub const SANDBOX_SPEC_SCHEMA: u32 = 1;

/// What one command may touch.
#[derive(Debug, PartialEq, Eq)]
pub struct SandboxSpec {
    pub schema: u32,
    pub cwd: String,
    pub ro: Vec<String>,
    pub rw: Vec<String>,
    pub toolchain: Vec<String>,
    pub env: Vec<String>,
    pub network: bool,
}

/// A letter or a digit of ASCII.
pub open spec fn is_alphanumeric(c: char) -> bool {
    ('0' <= c && c <= '9') || ('A' <= c && c <= 'Z') || ('a' <= c && c <= 'z')
}

/// The text with every other character made an underscore.
pub open spec fn sanitized(id: Seq<char>) -> Seq<char> {
    id.map_values(|c: char| if is_alphanumeric(c) { c } else { '_' })
}

/// Turns a label into a name for a file.
pub fn sanitize(id: &str) -> (r: String)
    ensures
        r@ == sanitized(id@),
{
    let v = chars_of(id);
    let mut out: Vec<char> = Vec::new();
    let mut i: usize = 0;
    while i < v.len()
        invariant
            i <= v.len(),
            v@ == id@,
            out.len() == i,
            forall|k: int| 0 <= k < i ==> #[trigger] out@[k] == (if is_alphanumeric(id@[k]) { id@[k] } else { '_' }),
        decreases v.len() - i,
    {
        let c: char = v[i];
        if ('0' <= c && c <= '9') || ('A' <= c && c <= 'Z') || ('a' <= c && c <= 'z') {
            out.push(c);
        } else {
            out.push('_');
        }
        i = i + 1;
    }
    let r = text_of(&out, 0, out.len());
    assert(r@ == sanitized(id@));
    r
}

/// A name that was made safe is one component that stays where it is put, and
/// making it safe again changes nothing.
pub proof fn law_sanitized_is_safe(id: Seq<char>)
    ensures
        sanitized(id).len() == id.len(),
        forall|i: int| 0 <= i < id.len() ==> #[trigger] sanitized(id)[i] != '/' && sanitized(id)[i] != '.',
        sanitized(sanitized(id)) == sanitized(id),
        stays_below(sanitized(id)),
{
    let s = sanitized(id);
    assert(sanitized(s) =~= s);
    lemma_unsplit(s);
    if crate::text::split_on(s, '/').contains(seq!['.', '.']) {
        let p = crate::text::split_on(s, '/');
        assert(p =~= seq![s]);
        assert(s == seq!['.', '.']);
        assert(s[0] == '.');
    }
}

proof fn lemma_unsplit(s: Seq<char>)
    requires
        forall|i: int| 0 <= i < s.len() ==> #[trigger] s[i] != '/',
    ensures
        crate::text::split_on(s, '/') == seq![s],
    decreases s.len(),
{
    if s.len() > 0 {
        let f = s.drop_last();
        assert forall|i: int| 0 <= i < f.len() implies #[trigger] f[i] != '/' by {
            assert(f[i] == s[i]);
        }
        lemma_unsplit(f);
        assert(s.last() != '/');
        assert(crate::text::split_on(s, '/') =~= seq![f.push(s.last())]);
        assert(f.push(s.last()) =~= s);
    } else {
        assert(s =~= Seq::<char>::empty());
    }
}

/// The directory of scratch files of a target.
pub fn scratch_dir(cache_root: &str, id: &str) -> (r: String)
    ensures
        r@ == joined(joined(joined(cache_root@, "sandbox"@), "scratch"@), sanitized(id@)),
{
    let a = path_join(cache_root, "sandbox");
    let b = path_join(a.as_str(), "scratch");
    let s = sanitize(id);
    path_join(b.as_str(), s.as_str())
}

/// Where the description for a target is written.
pub fn spec_path(cache_root: &str, id: &str) -> (r: String)
    ensures
        r@ == joined(joined(cache_root@, "sandbox"@), sanitized(id@) + ".json"@),
{
    let a = path_join(cache_root, "sandbox");
    let s = sanitize(id);
    let name = cat2(s.as_str(), ".json");
    path_join(a.as_str(), name.as_str())
}

/// The directories of the outputs, below the workspace.
pub open spec fn output_dirs(root: Seq<char>, outputs: Seq<Seq<char>>) -> Seq<Seq<char>>
    decreases outputs.len(),
{
    if outputs.len() == 0 {
        Seq::<Seq<char>>::empty()
    } else {
        let rest = output_dirs(root, outputs.drop_last());
        match parent_to_create(outputs.last()) {
            Some(d) => rest.push(joined(root, d)),
            None => rest,
        }
    }
}

fn dirs_of(root: &str, outputs: &Vec<OutputPath>) -> (r: Vec<String>)
    ensures
        strs(r@) == output_dirs(root@, out_paths_of(outputs@)),
{
    let ghost ov = out_paths_of(outputs@);
    let mut out: Vec<String> = Vec::new();
    let mut i: usize = 0;
    assert(strs(out@) == output_dirs(root@, ov.take(0)));
    while i < outputs.len()
        invariant
            i <= outputs.len(),
            ov == out_paths_of(outputs@),
            strs(out@) == output_dirs(root@, ov.take(i as int)),
        decreases outputs.len() - i,
    {
        let ghost before = strs(out@);
        assert(ov.take(i + 1).drop_last() == ov.take(i as int));
        assert(ov.take(i + 1).last() == ov[i as int]);
        assert(ov[i as int] == outputs@[i as int]@);
        match output_parent_to_create(outputs[i].as_str()) {
            Some(d) => {
                let p = path_join(root, d.as_str());
                let ghost pv = p@;
                out.push(p);
                assert(strs(out@) == before.push(pv));
            },
            None => {},
        }
        i = i + 1;
    }
    assert(ov.take(i as int) == ov);
    out
}

fn env_names(env: &Vec<(String, String)>) -> (r: Vec<String>)
    ensures
        strs(r@) == names_of(env_views(env@)),
{
    let mut out: Vec<String> = Vec::new();
    let mut i: usize = 0;
    while i < env.len()
        invariant
            i <= env.len(),
            out.len() == i,
            forall|k: int| 0 <= k < i ==> (#[trigger] out@[k])@ == env@[k].0@,
        decreases env.len() - i,
    {
        out.push(env[i].0.clone());
        i = i + 1;
    }
    assert(strs(out@) == names_of(env_views(env@)));
    out
}

/// The list `a` followed by `b`.
fn chain(a: &Vec<String>, b: &Vec<String>) -> (r: Vec<String>)
    ensures
        strs(r@) == strs(a@) + strs(b@),
{
    let mut out = copy_strs(a);
    let mut more = copy_strs(b);
    let ghost x = out@;
    let ghost y = more@;
    out.append(&mut more);
    assert(strs(out@) == strs(x) + strs(y));
    out
}

/// What the command of a target may touch: it reads the files its inputs
/// resolve to, writes where its outputs go, to its scratch directory and where
/// the policy says, and sees the variables of the policy and its own.
pub fn resolve_spec(spec: &TargetSpec, inputs: &Vec<String>, workspace_root: &str, cwd: String, policy: &SandboxPolicy, scratch: String) -> (r: SandboxSpec)
    ensures
        r.schema == SANDBOX_SPEC_SCHEMA,
        r.cwd == cwd,
        strs(r.ro@) == path_set(strs(inputs@)),
        strs(r.rw@) == path_set(output_dirs(workspace_root@, out_paths_of(spec.outputs@)).push(scratch@) + strs(policy.rw@)),
        strs(r.toolchain@) == strs(policy.toolchain@),
        ascending(strs(r.env@)),
        forall|x: Seq<char>| strs(r.env@).contains(x) <==> strs(policy.env@).contains(x) || names_of(env_views(spec.env@)).contains(x),
        r.network == spec.network,
        is_resolved(*spec, strs(inputs@), workspace_root@, *policy, scratch@, r),
{
    let ro = sort_paths(inputs);
    let mut dirs = dirs_of(workspace_root, &spec.outputs);
    let ghost dv = strs(dirs@);
    let ghost sv = scratch@;
    dirs.push(scratch);
    assert(strs(dirs@) == dv.push(sv));
    let writable = chain(&dirs, &policy.rw);
    let rw = sort_paths(&writable);
    let own = env_names(&spec.env);
    let all = chain(&policy.env, &own);
    let env = sorted_set(&all);
    proof {
        let a = strs(policy.env@);
        let b = strs(own@);
        assert forall|x: Seq<char>| (a + b).contains(x) <==> a.contains(x) || b.contains(x) by {
            lemma_concat_contains(a, b, x);
        }
    }
    SandboxSpec {
        schema: SANDBOX_SPEC_SCHEMA,
        cwd,
        ro,
        rw,
        toolchain: copy_strs(&policy.toolchain),
        env,
        network: spec.network,
    }
}

proof fn lemma_concat_contains(a: Seq<Seq<char>>, b: Seq<Seq<char>>, x: Seq<char>)
    ensures
        (a + b).contains(x) <==> a.contains(x) || b.contains(x),
{
    let c = a + b;
    if a.contains(x) {
        let i = choose|i: int| 0 <= i < a.len() && a[i] == x;
        assert(c[i] == x);
    }
    if b.contains(x) {
        let i = choose|i: int| 0 <= i < b.len() && b[i] == x;
        assert(c[a.len() + i] == x);
    }
    if c.contains(x) {
        let i = choose|i: int| 0 <= i < c.len() && c[i] == x;
        if i < a.len() {
            assert(a[i] == x);
        } else {
            assert(b[i - a.len()] == x);
        }
    }
}

/// `r` is what the command of `spec` may touch.
pub open spec fn is_resolved(spec: TargetSpec, inputs: Seq<Seq<char>>, root: Seq<char>, policy: SandboxPolicy, scratch: Seq<char>, r: SandboxSpec) -> bool {
    &&& strs(r.ro@) == path_set(inputs)
    &&& strs(r.rw@) == path_set(output_dirs(root, out_paths_of(spec.outputs@)).push(scratch) + strs(policy.rw@))
    &&& strs(r.toolchain@) == strs(policy.toolchain@)
    &&& forall|x: Seq<char>| #[trigger] strs(r.env@).contains(x) <==> strs(policy.env@).contains(x) || names_of(env_views(spec.env@)).contains(x)
    &&& r.network == spec.network
}

proof fn lemma_output_dirs(root: Seq<char>, outputs: Seq<Seq<char>>, x: Seq<char>)
    ensures
        output_dirs(root, outputs).contains(x) <==> exists|i: int| 0 <= i < outputs.len() && (parent_to_create(#[trigger] outputs[i]) matches Some(d) && x == joined(root, d)),
    decreases outputs.len(),
{
    if outputs.len() > 0 {
        let front = outputs.drop_last();
        let rest = output_dirs(root, front);
        lemma_output_dirs(root, front, x);
        match parent_to_create(outputs.last()) {
            Some(d) => {
                lemma_push_contains(rest, joined(root, d), x);
            },
            None => {},
        }
        if rest.contains(x) {
            let i = choose|i: int| 0 <= i < front.len() && (parent_to_create(#[trigger] front[i]) matches Some(d) && x == joined(root, d));
            assert(outputs[i] == front[i]);
        }
        if exists|i: int| 0 <= i < outputs.len() && (parent_to_create(#[trigger] outputs[i]) matches Some(d) && x == joined(root, d)) {
            let i = choose|i: int| 0 <= i < outputs.len() && (parent_to_create(#[trigger] outputs[i]) matches Some(d) && x == joined(root, d));
            if i < front.len() {
                assert(front[i] == outputs[i]);
            }
        }
        if parent_to_create(outputs.last()) matches Some(d) && x == joined(root, d) {
            assert(outputs[outputs.len() - 1] == outputs.last());
        }
    }
}

/// A command can write where its outputs go: the directory of every declared
/// output is granted for writing.
pub proof fn law_outputs_writable(spec: TargetSpec, inputs: Seq<Seq<char>>, root: Seq<char>, policy: SandboxPolicy, scratch: Seq<char>, r: SandboxSpec, i: int, dir: Seq<char>)
    requires
        is_resolved(spec, inputs, root, policy, scratch, r),
        0 <= i < spec.outputs@.len(),
        parent_to_create(spec.outputs@[i]@) == Some(dir),
    ensures
        holds_path(strs(r.rw@), joined(root, dir)),
{
    let ov = out_paths_of(spec.outputs@);
    assert(ov[i] == spec.outputs@[i]@);
    lemma_output_dirs(root, ov, joined(root, dir));
    let all = output_dirs(root, ov).push(scratch) + strs(policy.rw@);
    lemma_push_contains(output_dirs(root, ov), scratch, joined(root, dir));
    lemma_held(output_dirs(root, ov).push(scratch), strs(policy.rw@), joined(root, dir));
}

proof fn lemma_held(a: Seq<Seq<char>>, b: Seq<Seq<char>>, x: Seq<char>)
    requires
        a.contains(x) || b.contains(x),
    ensures
        holds_path(path_set(a + b), x),
{
    lemma_concat_contains(a, b, x);
    let c = a + b;
    let i = choose|i: int| 0 <= i < c.len() && c[i] == x;
    law_path_set(c);
    assert(holds_path(path_set(c), c[i]));
}

/// A command can write to its scratch directory and where the policy says, and
/// can read every file its inputs resolve to.
pub proof fn law_sandbox_grants(spec: TargetSpec, inputs: Seq<Seq<char>>, root: Seq<char>, policy: SandboxPolicy, scratch: Seq<char>, r: SandboxSpec)
    requires
        is_resolved(spec, inputs, root, policy, scratch, r),
    ensures
        holds_path(strs(r.rw@), scratch),
        forall|x: Seq<char>| strs(policy.rw@).contains(x) ==> #[trigger] holds_path(strs(r.rw@), x),
        forall|x: Seq<char>| inputs.contains(x) ==> #[trigger] holds_path(strs(r.ro@), x),
        forall|i: int| 0 <= i < policy.toolchain@.len() ==> strs(r.toolchain@).contains((#[trigger] policy.toolchain@[i])@),
        forall|i: int| 0 <= i < spec.env@.len() ==> strs(r.env@).contains((#[trigger] spec.env@[i]).0@),
        forall|i: int| 0 <= i < policy.env@.len() ==> strs(r.env@).contains((#[trigger] policy.env@[i])@),
        r.network <==> spec.network,
{
    let dirs = output_dirs(root, out_paths_of(spec.outputs@));
    lemma_push_contains(dirs, scratch, scratch);
    lemma_held(dirs.push(scratch), strs(policy.rw@), scratch);
    assert forall|x: Seq<char>| strs(policy.rw@).contains(x) implies #[trigger] holds_path(strs(r.rw@), x) by {
        lemma_held(dirs.push(scratch), strs(policy.rw@), x);
    }
    assert forall|x: Seq<char>| inputs.contains(x) implies #[trigger] holds_path(strs(r.ro@), x) by {
        law_path_set(inputs);
        let i = choose|i: int| 0 <= i < inputs.len() && inputs[i] == x;
        assert(holds_path(path_set(inputs), inputs[i]));
    }
    assert forall|i: int| 0 <= i < policy.toolchain@.len() implies strs(r.toolchain@).contains((#[trigger] policy.toolchain@[i])@) by {
        assert(strs(policy.toolchain@)[i] == policy.toolchain@[i]@);
    }
    assert forall|i: int| 0 <= i < spec.env@.len() implies strs(r.env@).contains((#[trigger] spec.env@[i]).0@) by {
        assert(names_of(env_views(spec.env@))[i] == spec.env@[i].0@);
        assert(names_of(env_views(spec.env@)).contains(spec.env@[i].0@));
    }
    assert forall|i: int| 0 <= i < policy.env@.len() implies strs(r.env@).contains((#[trigger] policy.env@[i])@) by {
        assert(strs(policy.env@)[i] == policy.env@[i]@);
        assert(strs(policy.env@).contains(policy.env@[i]@));
    }
}

/// A command is granted nothing else: what it may write is the directory of a
/// declared output, its scratch directory or a path of the policy, what it may
/// read is a file its inputs resolve to, and what it sees is a variable of the
/// policy or its own.
pub proof fn law_sandbox_grants_no_more(spec: TargetSpec, inputs: Seq<Seq<char>>, root: Seq<char>, policy: SandboxPolicy, scratch: Seq<char>, r: SandboxSpec, x: Seq<char>)
    requires
        is_resolved(spec, inputs, root, policy, scratch, r),
    ensures
        strs(r.rw@).contains(x) ==> x == scratch || strs(policy.rw@).contains(x) || exists|i: int| 0 <= i < spec.outputs@.len() && (parent_to_create((#[trigger] spec.outputs@[i])@) matches Some(d) && x == joined(root, d)),
        strs(r.ro@).contains(x) ==> inputs.contains(x),
        strs(r.toolchain@).contains(x) ==> strs(policy.toolchain@).contains(x),
        strs(r.env@).contains(x) ==> strs(policy.env@).contains(x) || exists|i: int| 0 <= i < spec.env@.len() && (#[trigger] spec.env@[i]).0@ == x,
{
    let ov = out_paths_of(spec.outputs@);
    let dirs = output_dirs(root, ov);
    let all = dirs.push(scratch) + strs(policy.rw@);
    if strs(r.rw@).contains(x) {
        law_path_set(all);
        let k = choose|k: int| 0 <= k < path_set(all).len() && path_set(all)[k] == x;
        assert(all.contains(path_set(all)[k]));
        lemma_concat_contains(dirs.push(scratch), strs(policy.rw@), x);
        lemma_push_contains(dirs, scratch, x);
        lemma_output_dirs(root, ov, x);
        if dirs.contains(x) {
            let i = choose|i: int| 0 <= i < ov.len() && (parent_to_create(#[trigger] ov[i]) matches Some(d) && x == joined(root, d));
            assert(ov[i] == spec.outputs@[i]@);
        }
    }
    if strs(r.ro@).contains(x) {
        law_path_set(inputs);
        let k = choose|k: int| 0 <= k < path_set(inputs).len() && path_set(inputs)[k] == x;
        assert(inputs.contains(path_set(inputs)[k]));
    }
    if strs(r.env@).contains(x) && !strs(policy.env@).contains(x) {
        let n = names_of(env_views(spec.env@));
        let i = choose|i: int| 0 <= i < n.len() && n[i] == x;
        assert(n[i] == spec.env@[i].0@);
    }
}

/// The command that runs `command` in the sandbox, with its arguments.
pub fn wrapped_command(policy: &SandboxPolicy, spec_file: &str, command: &str) -> (r: Vec<String>)
    ensures
        strs(r@) == seq![policy.helper@, "run"@, "--spec"@, spec_file@, "--"@, "sh"@, "-c"@, command@],
{
    let mut out: Vec<String> = Vec::new();
    out.push(policy.helper.clone());
    out.push(owned("run"));
    out.push(owned("--spec"));
    out.push(owned(spec_file));
    out.push(owned("--"));
    out.push(owned("sh"));
    out.push(owned("-c"));
    out.push(owned(command));
    assert(strs(out@) == seq![policy.helper@, "run"@, "--spec"@, spec_file@, "--"@, "sh"@, "-c"@, command@]);
    out
}

/// Everything the sandbox grants: a path outside it was not declared.
pub fn granted_paths(sb: &SandboxSpec) -> (r: Vec<String>)
    ensures
        strs(r@) == strs(sb.ro@) + strs(sb.rw@) + strs(sb.toolchain@),
{
    let a = chain(&sb.ro, &sb.rw);
    chain(&a, &sb.toolchain)
}

/// A path of the configuration: `~/` is the home directory, anything else that
/// is not absolute is below the workspace.
pub open spec fn sb_path(p: Seq<char>, workspace: Seq<char>, home: Option<Seq<char>>) -> Seq<char> {
    if has_prefix(p, "~/"@) {
        match home {
            Some(h) => joined(h, p.skip(2)),
            None => p,
        }
    } else if is_absolute(p) {
        p
    } else {
        joined(workspace, p)
    }
}

/// Resolves a path of the configuration.
pub fn resolve_sb_path(p: &str, workspace_root: &str, home: &Option<String>) -> (r: String)
    ensures
        r@ == sb_path(p@, workspace_root@, crate::session::text_view(*home)),
{
    proof {
        reveal_strlit("~/");
    }
    match strip_prefix(p, "~/") {
        Some(rest) => match home {
            Some(h) => path_join(h.as_str(), rest),
            None => owned(p),
        },
        None => {
            if absolute(p) {
                owned(p)
            } else {
                path_join(workspace_root, p)
            }
        },
    }
}

pub open spec fn sb_paths(v: Seq<Seq<char>>, workspace: Seq<char>, home: Option<Seq<char>>) -> Seq<Seq<char>> {
    v.map_values(|p: Seq<char>| sb_path(p, workspace, home))
}

fn resolve_all(v: &Vec<String>, workspace_root: &str, home: &Option<String>) -> (r: Vec<String>)
    ensures
        strs(r@) == sb_paths(strs(v@), workspace_root@, crate::session::text_view(*home)),
{
    let mut out: Vec<String> = Vec::new();
    let mut i: usize = 0;
    while i < v.len()
        invariant
            i <= v.len(),
            out.len() == i,
            forall|k: int| 0 <= k < i ==> (#[trigger] out@[k])@ == sb_path(v@[k]@, workspace_root@, crate::session::text_view(*home)),
        decreases v.len() - i,
    {
        out.push(resolve_sb_path(v[i].as_str(), workspace_root, home));
        i = i + 1;
    }
    assert(strs(out@) == sb_paths(strs(v@), workspace_root@, crate::session::text_view(*home)));
    out
}

/// The directories every command may read and execute from.
pub open spec fn default_roots() -> Seq<Seq<char>> {
    seq!["/usr"@, "/bin"@, "/lib"@, "/lib64"@, "/etc"@]
}

/// The devices every command may use.
pub open spec fn default_devices() -> Seq<Seq<char>> {
    seq!["/dev/null"@, "/dev/zero"@, "/dev/full"@, "/dev/random"@, "/dev/urandom"@, "/dev/tty"@]
}

/// The variables every command may see; one that ends in a star stands for all
/// that start with it.
pub open spec fn default_env() -> Seq<Seq<char>> {
    seq![
        "PATH"@,
        "HOME"@,
        "USER"@,
        "SHELL"@,
        "TERM"@,
        "TZ"@,
        "TMPDIR"@,
        "LANG"@,
        "LC_*"@,
        "SSL_CERT_FILE"@,
        "SSL_CERT_DIR"@,
        "PKG_CONFIG_PATH"@,
        "LD_LIBRARY_PATH"@,
        "GIANT_*"@,
    ]
}

/// The roots of a configuration, present or not.
pub fn root_candidates(cfg: &SandboxConfig, workspace_root: &str, home: &Option<String>) -> (r: Vec<String>)
    ensures
        strs(r@) == sb_paths(default_roots() + strs(cfg.roots@), workspace_root@, crate::session::text_view(*home)),
{
    let mut base: Vec<String> = Vec::new();
    base.push(owned("/usr"));
    base.push(owned("/bin"));
    base.push(owned("/lib"));
    base.push(owned("/lib64"));
    base.push(owned("/etc"));
    assert(strs(base@) == default_roots());
    let all = chain(&base, &cfg.roots);
    resolve_all(&all, workspace_root, home)
}

/// The writable paths of a configuration, present or not.
pub fn rw_candidates(cfg: &SandboxConfig, workspace_root: &str, home: &Option<String>) -> (r: Vec<String>)
    ensures
        strs(r@) == sb_paths(default_devices() + strs(cfg.rw@), workspace_root@, crate::session::text_view(*home)),
{
    let mut base: Vec<String> = Vec::new();
    base.push(owned("/dev/null"));
    base.push(owned("/dev/zero"));
    base.push(owned("/dev/full"));
    base.push(owned("/dev/random"));
    base.push(owned("/dev/urandom"));
    base.push(owned("/dev/tty"));
    assert(strs(base@) == default_devices());
    let all = chain(&base, &cfg.rw);
    resolve_all(&all, workspace_root, home)
}

/// The pattern stands for the variable: it is its name, or it ends in a star
/// and the variable is set and starts with what is before.
pub open spec fn pattern_names(pattern: Seq<char>, ambient: Seq<Seq<char>>, x: Seq<char>) -> bool {
    if has_suffix(pattern, "*"@) {
        ambient.contains(x) && has_prefix(x, pattern.drop_last())
    } else {
        x == pattern
    }
}

/// Some pattern of the list stands for the variable.
pub open spec fn any_pattern_names(patterns: Seq<Seq<char>>, ambient: Seq<Seq<char>>, x: Seq<char>) -> bool {
    exists|i: int| 0 <= i < patterns.len() && pattern_names(#[trigger] patterns[i], ambient, x)
}

proof fn lemma_pattern_push(patterns: Seq<Seq<char>>, p: Seq<char>, ambient: Seq<Seq<char>>, x: Seq<char>)
    ensures
        any_pattern_names(patterns.push(p), ambient, x) <==> any_pattern_names(patterns, ambient, x) || pattern_names(p, ambient, x),
{
    let q = patterns.push(p);
    if any_pattern_names(patterns, ambient, x) {
        let i = choose|i: int| 0 <= i < patterns.len() && pattern_names(#[trigger] patterns[i], ambient, x);
        assert(pattern_names(q[i], ambient, x));
    }
    if pattern_names(p, ambient, x) {
        assert(pattern_names(q[patterns.len() as int], ambient, x));
    }
    if any_pattern_names(q, ambient, x) {
        let i = choose|i: int| 0 <= i < q.len() && pattern_names(#[trigger] q[i], ambient, x);
        if i < patterns.len() {
            assert(pattern_names(patterns[i], ambient, x));
        }
    }
}

/// Adds the variables that a pattern stands for.
fn add_named(names: &mut Vec<String>, pattern: &str, ambient: &Vec<String>)
    ensures
        forall|x: Seq<char>| strs(final(names)@).contains(x) <==> strs(old(names)@).contains(x) || pattern_names(pattern@, strs(ambient@), x),
{
    let ghost start = strs(names@);
    proof {
        reveal_strlit("*");
    }
    if !ends_with(pattern, "*") {
        names.push(owned(pattern));
        proof {
            assert(strs(names@) == start.push(pattern@));
            assert forall|x: Seq<char>| strs(names@).contains(x) <==> start.contains(x) || pattern_names(pattern@, strs(ambient@), x) by {
                lemma_push_contains(start, pattern@, x);
            }
        }
        return;
    }
    let v = chars_of(pattern);
    let prefix = text_of(&v, 0, v.len() - 1);
    assert(prefix@ == pattern@.drop_last());
    let ghost av = strs(ambient@);
    let mut i: usize = 0;
    while i < ambient.len()
        invariant
            i <= ambient.len(),
            av == strs(ambient@),
            prefix@ == pattern@.drop_last(),
            forall|x: Seq<char>| #[trigger] strs(names@).contains(x) <==> start.contains(x) || (av.take(i as int).contains(x) && has_prefix(x, prefix@)),
        decreases ambient.len() - i,
    {
        let ghost before = strs(names@);
        let ghost a = av[i as int];
        assert(a == ambient@[i as int]@);
        assert(av.take(i + 1) == av.take(i as int).push(a));
        let hit: bool = starts_with(ambient[i].as_str(), prefix.as_str());
        if hit {
            names.push(ambient[i].clone());
            assert(strs(names@) == before.push(a));
        }
        proof {
            assert forall|x: Seq<char>| #[trigger] strs(names@).contains(x) <==> start.contains(x) || (av.take(i + 1).contains(x) && has_prefix(x, prefix@)) by {
                lemma_push_contains(av.take(i as int), a, x);
                if hit {
                    lemma_push_contains(before, a, x);
                }
                assert(before.contains(x) <==> start.contains(x) || (av.take(i as int).contains(x) && has_prefix(x, prefix@)));
            }
        }
        i = i + 1;
    }
    assert(av.take(i as int) == av);
}

/// The names that the patterns stand for in the environment, sorted.
pub fn expand_env_patterns(patterns: &Vec<String>, ambient: &Vec<String>) -> (r: Vec<String>)
    ensures
        ascending(strs(r@)),
        forall|x: Seq<char>| strs(r@).contains(x) <==> any_pattern_names(strs(patterns@), strs(ambient@), x),
{
    let ghost pv = strs(patterns@);
    let ghost av = strs(ambient@);
    let mut names: Vec<String> = Vec::new();
    let mut i: usize = 0;
    proof {
        assert forall|x: Seq<char>| #[trigger] strs(names@).contains(x) <==> any_pattern_names(pv.take(0), av, x) by {
            assert(strs(names@).len() == 0);
        }
    }
    while i < patterns.len()
        invariant
            i <= patterns.len(),
            pv == strs(patterns@),
            av == strs(ambient@),
            forall|x: Seq<char>| #[trigger] strs(names@).contains(x) <==> any_pattern_names(pv.take(i as int), av, x),
        decreases patterns.len() - i,
    {
        let ghost before = strs(names@);
        assert(pv[i as int] == patterns@[i as int]@);
        assert(pv.take(i + 1) == pv.take(i as int).push(pv[i as int]));
        add_named(&mut names, patterns[i].as_str(), ambient);
        proof {
            assert forall|x: Seq<char>| #[trigger] strs(names@).contains(x) <==> any_pattern_names(pv.take(i + 1), av, x) by {
                lemma_pattern_push(pv.take(i as int), pv[i as int], av, x);
                assert(before.contains(x) <==> any_pattern_names(pv.take(i as int), av, x));
            }
        }
        i = i + 1;
    }
    assert(pv.take(i as int) == pv);
    sorted_set(&names)
}

/// The patterns of a configuration.
fn env_patterns(cfg: &SandboxConfig) -> (r: Vec<String>)
    ensures
        strs(r@) == default_env() + strs(cfg.env@),
{
    let mut base: Vec<String> = Vec::new();
    base.push(owned("PATH"));
    base.push(owned("HOME"));
    base.push(owned("USER"));
    base.push(owned("SHELL"));
    base.push(owned("TERM"));
    base.push(owned("TZ"));
    base.push(owned("TMPDIR"));
    base.push(owned("LANG"));
    base.push(owned("LC_*"));
    base.push(owned("SSL_CERT_FILE"));
    base.push(owned("SSL_CERT_DIR"));
    base.push(owned("PKG_CONFIG_PATH"));
    base.push(owned("LD_LIBRARY_PATH"));
    base.push(owned("GIANT_*"));
    assert(strs(base@) == default_env());
    chain(&base, &cfg.env)
}

/// What is there on the machine that a policy is made for.
#[derive(Debug)]
pub struct Machine {
    pub linux: bool,
    /// The helper, if it was found.
    pub helper: Option<String>,
    pub home: Option<String>,
    /// For each of `root_candidates`, whether it exists.
    pub roots: Vec<bool>,
    /// For each of `rw_candidates`, whether it exists.
    pub rw: Vec<bool>,
    /// The names of the variables that are set.
    pub ambient: Vec<String>,
}

/// The policy of a build, or none if the sandbox is off. It is an error if the
/// machine cannot sandbox: a command never runs unprotected instead.
pub fn resolve_sandbox(enabled: bool, cfg: &SandboxConfig, workspace_root: &str, machine: &Machine) -> (r: Result<Option<SandboxPolicy>, String>)
    requires
        machine.roots@.len() == default_roots().len() + cfg.roots@.len(),
        machine.rw@.len() == default_devices().len() + cfg.rw@.len(),
    ensures
        r is Ok <==> !enabled || (machine.linux && machine.helper is Some),
        r matches Ok(p) ==> (p is Some <==> enabled),
        r matches Err(e) ==> e@ == (if !machine.linux {
            "--sandbox is only supported on Linux"@
        } else {
            "--sandbox needs the `giant-sandbox` helper on PATH, but it was not found"@
        }),
        r matches Ok(Some(p)) ==> {
            let home = crate::session::text_view(machine.home);
            &&& p.helper@ == machine.helper->0@
            &&& strs(p.toolchain@) == kept(sb_paths(default_roots() + strs(cfg.roots@), workspace_root@, home), machine.roots@)
            &&& strs(p.rw@) == kept(sb_paths(default_devices() + strs(cfg.rw@), workspace_root@, home), machine.rw@)
            &&& ascending(strs(p.env@))
            &&& forall|x: Seq<char>| strs(p.env@).contains(x) <==> any_pattern_names(default_env() + strs(cfg.env@), strs(machine.ambient@), x)
        },
{
    if !enabled {
        return Ok(None);
    }
    if !machine.linux {
        return Err(owned("--sandbox is only supported on Linux"));
    }
    match &machine.helper {
        None => Err(owned("--sandbox needs the `giant-sandbox` helper on PATH, but it was not found")),
        Some(helper) => {
            let roots = root_candidates(cfg, workspace_root, &machine.home);
            assert(strs(roots@).len() == roots@.len());
            let toolchain = keep_flagged(&roots, &machine.roots);
            let devices = rw_candidates(cfg, workspace_root, &machine.home);
            assert(strs(devices@).len() == devices@.len());
            let rw = keep_flagged(&devices, &machine.rw);
            let patterns = env_patterns(cfg);
            let env = expand_env_patterns(&patterns, &machine.ambient);
            Ok(Some(SandboxPolicy { helper: helper.clone(), toolchain, rw, env }))
        },
    }
}

/// A name that was made safe keeps the letters and digits of ASCII where they
/// stand and has an underscore for everything else.
pub proof fn law_sanitized_keeps(id: Seq<char>, i: int)
    requires
        0 <= i < id.len(),
    ensures
        ('0' <= id[i] <= '9') || ('A' <= id[i] <= 'Z') || ('a' <= id[i] <= 'z') ==> sanitized(id)[i] == id[i],
        !(('0' <= id[i] <= '9') || ('A' <= id[i] <= 'Z') || ('a' <= id[i] <= 'z')) ==> sanitized(id)[i] == '_',
{
}

/// A path of the configuration lies below the home directory behind `~/`, stays
/// where it is absolute, and otherwise lies below the workspace.
pub proof fn law_sb_path(p: Seq<char>, rest: Seq<char>, workspace: Seq<char>, home: Option<Seq<char>>)
    ensures
        home matches Some(h) ==> sb_path("~/"@ + rest, workspace, home) == joined(h, rest),
        p.len() > 0 && p[0] == '/' ==> sb_path(p, workspace, home) == p,
        p.len() == 0 || (p[0] != '/' && p[0] != '~') ==> sb_path(p, workspace, home) == joined(workspace, p),
{
    reveal_strlit("~/");
    let a = "~/"@ + rest;
    assert(a.take(2) =~= "~/"@);
    assert(a.skip(2) =~= rest);
    if has_prefix(p, "~/"@) {
        assert(p.take(2)[0] == p[0]);
    }
}

/// Every path of the configuration is resolved, in its place.
pub proof fn law_sb_paths(v: Seq<Seq<char>>, workspace: Seq<char>, home: Option<Seq<char>>)
    ensures
        sb_paths(v, workspace, home).len() == v.len(),
        forall|i: int| 0 <= i < v.len() ==> #[trigger] sb_paths(v, workspace, home)[i] == sb_path(v[i], workspace, home),
{
}

/// A variable is passed on exactly if its name is listed, or it is set and its
/// name starts with what stands before the star of a listed one.
pub proof fn law_env_passed(patterns: Seq<Seq<char>>, ambient: Seq<Seq<char>>, x: Seq<char>)
    ensures
        any_pattern_names(patterns, ambient, x) <==> exists|i: int|
            0 <= i < patterns.len() && {
                let p = #[trigger] patterns[i];
                if p.len() > 0 && p.last() == '*' {
                    ambient.contains(x) && has_prefix(x, p.drop_last())
                } else {
                    x == p
                }
            },
{
    reveal_strlit("*");
    assert forall|p: Seq<char>| #[trigger] has_suffix(p, "*"@) <==> p.len() > 0 && p.last() == '*' by {
        if p.len() > 0 && p.last() == '*' {
            assert(p.skip(p.len() - 1) =~= "*"@);
        }
        if has_suffix(p, "*"@) {
            assert(p.skip(p.len() - 1)[0] == p.last());
        }
    }
    if any_pattern_names(patterns, ambient, x) {
        let i = choose|i: int| 0 <= i < patterns.len() && pattern_names(#[trigger] patterns[i], ambient, x);
        assert(has_suffix(patterns[i], "*"@) <==> patterns[i].len() > 0 && patterns[i].last() == '*');
    }
    if exists|i: int|
        0 <= i < patterns.len() && {
            let p = #[trigger] patterns[i];
            if p.len() > 0 && p.last() == '*' {
                ambient.contains(x) && has_prefix(x, p.drop_last())
            } else {
                x == p
            }
        } {
        let i = choose|i: int|
            0 <= i < patterns.len() && {
                let p = #[trigger] patterns[i];
                if p.len() > 0 && p.last() == '*' {
                    ambient.contains(x) && has_prefix(x, p.drop_last())
                } else {
                    x == p
                }
            };
        assert(has_suffix(patterns[i], "*"@) <==> patterns[i].len() > 0 && patterns[i].last() == '*');
        assert(pattern_names(patterns[i], ambient, x));
    }
}

} // verus!

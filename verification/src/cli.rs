//! The command line: its arguments, help, and the dispatch to other programs.

use crate::key::{env_views, sort_env};
use crate::order::{ascending, lemma_push_contains, names_of, sorted_pairs, sorted_set};
use crate::paths::{joined, path_join};
use crate::selection::TestMode;
use crate::text::{cat2, cat3, cat4, contains, has_prefix, lines, lines_of, occurs_in, owned, starts_with, str_eq, strip_prefix, strs, trim, trimmed};
use vstd::prelude::*;
use vstd::string::*;

verus! {

/// Flags that stand before the subcommand.
#[derive(Debug, Clone)]
pub struct GlobalFlags {
    pub config: Option<String>,
    /// Ignore what is cached.
    pub fresh: bool,
    pub sandbox: bool,
}

/// A failure of which the user was already told.
#[derive(Debug)]
pub struct SilentExit;

#[derive(Debug)]
pub struct SessionArgs {
    pub events: String,
}

#[derive(Debug)]
pub struct CleanArgs {
    pub yes: bool,
    pub dry_run: bool,
}

#[derive(Debug)]
pub struct CompletionsArgs {
    pub shell: ShellChoice,
}

#[derive(Debug, Clone, Copy, PartialEq, Eq, Structural)]
pub enum ShellChoice {
    Bash,
    Zsh,
    Fish,
    Powershell,
    Elvish,
    Nushell,
}

#[derive(Debug)]
pub struct ExplainArgs {
    pub target: String,
    /// Another target to compare with.
    pub diff: Option<String>,
}

#[derive(Debug)]
pub struct LogsArgs {
    pub target: String,
    /// The key of an entry; the target's current one where there is none.
    pub key: Option<String>,
    pub stdout_only: bool,
    pub stderr_only: bool,
    /// Both streams to standard output.
    pub merged: bool,
}

#[derive(Debug)]
pub struct BuildArgs {
    pub patterns: Vec<String>,
    pub jobs: Option<usize>,
    pub affected: bool,
    pub base: Option<String>,
    pub file: Vec<String>,
    pub quiet: bool,
    pub tags: Vec<String>,
    pub no_tags: Vec<String>,
    pub show_toolchains: bool,
    pub watch: bool,
    pub with_tests: bool,
    pub quiet_ms: u64,
    pub max_delay_ms: u64,
}

#[derive(Debug)]
pub struct TestArgs {
    pub build: BuildArgs,
}

#[derive(Debug)]
pub struct VerifyArgs {
    pub build: BuildArgs,
}

/// What a run of the build command is to do.
#[derive(Debug)]
pub struct BuildRequest {
    pub build: BuildArgs,
    pub flags: GlobalFlags,
    pub mode: TestMode,
    /// Build in a throwaway checkout of the committed state.
    pub isolated: bool,
}

impl GlobalFlags {
    fn duplicate(&self) -> (r: GlobalFlags)
        ensures
            r.config is Some <==> self.config is Some,
            r.config is Some ==> r.config->0@ == self.config->0@,
            r.fresh == self.fresh,
            r.sandbox == self.sandbox,
    {
        GlobalFlags {
            config: match &self.config {
                Some(c) => Some(owned(c.as_str())),
                None => None,
            },
            fresh: self.fresh,
            sandbox: self.sandbox,
        }
    }
}

impl BuildArgs {
    /// `giant build`: tests are left out.
    pub fn request(self, flags: &GlobalFlags) -> (r: BuildRequest)
        ensures
            r.build == self,
            r.mode is Exclude,
            !r.isolated,
            r.flags.fresh == flags.fresh && r.flags.sandbox == flags.sandbox,
            r.flags.config is Some <==> flags.config is Some,
            r.flags.config is Some ==> r.flags.config->0@ == flags.config->0@,
    {
        BuildRequest { build: self, flags: flags.duplicate(), mode: TestMode::Exclude, isolated: false }
    }
}

impl TestArgs {
    /// `giant test`: only tests.
    pub fn request(self, flags: &GlobalFlags) -> (r: BuildRequest)
        ensures
            r.build == self.build,
            r.mode is Only,
            !r.isolated,
            r.flags.fresh == flags.fresh && r.flags.sandbox == flags.sandbox,
            r.flags.config is Some <==> flags.config is Some,
            r.flags.config is Some ==> r.flags.config->0@ == flags.config->0@,
    {
        BuildRequest { build: self.build, flags: flags.duplicate(), mode: TestMode::Only, isolated: false }
    }
}

impl VerifyArgs {
    /// `giant verify`: every target, tests too, in the sandbox and past the
    /// cache, whatever the flags say, and away from the working files.
    pub fn request(self, flags: &GlobalFlags) -> (r: BuildRequest)
        ensures
            r.build == self.build,
            r.mode is Include,
            r.isolated,
            r.flags.fresh && r.flags.sandbox,
            r.flags.config is Some <==> flags.config is Some,
            r.flags.config is Some ==> r.flags.config->0@ == flags.config->0@,
    {
        let mut forced = flags.duplicate();
        forced.fresh = true;
        forced.sandbox = true;
        BuildRequest { build: self.build, flags: forced, mode: TestMode::Include, isolated: true }
    }
}

impl SessionArgs {
    /// Whether the session can start: it speaks one format, and not to a
    /// terminal.
    pub fn refusal(&self, terminal: bool) -> (r: Option<String>)
        ensures
            r is None <==> self.events@ == "ndjson"@ && !terminal,
            r matches Some(m) ==> m@ == (if self.events@ != "ndjson"@ {
                "unsupported --events format: "@ + self.events@
            } else {
                "giant session writes the protocol stream to stdout - pipe it (`giant session | jq` or via a porcelain like `giant tui`), don't run it interactively"@
            }),
    {
        if !str_eq(self.events.as_str(), "ndjson") {
            return Some(cat2("unsupported --events format: ", self.events.as_str()));
        }
        if terminal {
            return Some(
                owned(
                    "giant session writes the protocol stream to stdout - pipe it (`giant session | jq` or via a porcelain like `giant tui`), don't run it interactively",
                ),
            );
        }
        None
    }
}

/// The version of the protocol that a session speaks.
pub const PROTOCOL: u32 = 2;

/// The queries that a session answers.
pub fn capabilities() -> (r: Vec<String>)
    ensures
        strs(r@) == seq!["query.status"@, "logs.get"@, "query.explain"@],
{
    let mut out: Vec<String> = Vec::new();
    out.push(owned("query.status"));
    out.push(owned("logs.get"));
    out.push(owned("query.explain"));
    assert(strs(out@) == seq!["query.status"@, "logs.get"@, "query.explain"@]);
    out
}

/// The argument asks for help.
pub open spec fn is_help_word(a: Seq<char>) -> bool {
    a == "--help"@ || a == "-h"@ || a == "help"@
}

/// The argument is a flag of `giant` itself that takes a value.
pub open spec fn takes_value(a: Seq<char>) -> bool {
    has_prefix(a, "--config"@) || has_prefix(a, "--log"@)
}

/// The arguments have the help shown: one before the subcommand asks for it,
/// or there is no subcommand. Nothing behind `--` counts.
pub open spec fn asks_help(args: Seq<Seq<char>>) -> bool
    decreases args.len(),
{
    if args.len() == 0 || args[0] == "--"@ {
        true
    } else if is_help_word(args[0]) {
        true
    } else if takes_value(args[0]) {
        if occurs_in(args[0], "="@) {
            asks_help(args.skip(1))
        } else if args.len() > 1 && args[1] != "--"@ {
            asks_help(args.skip(2))
        } else {
            true
        }
    } else if has_prefix(args[0], "-"@) {
        asks_help(args.skip(1))
    } else {
        false
    }
}

/// Whether the help will be shown.
pub fn is_help_invocation(args: &Vec<String>) -> (r: bool)
    ensures
        r == asks_help(strs(args@)),
{
    let ghost av = strs(args@);
    let mut i: usize = 0;
    assert(av.skip(0) == av);
    while i < args.len()
        invariant
            i <= args.len(),
            av == strs(args@),
            asks_help(av) == asks_help(av.skip(i as int)),
        decreases args.len() - i,
    {
        let a = args[i].as_str();
        let ghost rest = av.skip(i as int);
        assert(rest[0] == a@);
        assert(rest.skip(1) == av.skip(i + 1));
        if str_eq(a, "--") {
            return true;
        }
        if str_eq(a, "--help") || str_eq(a, "-h") || str_eq(a, "help") {
            return true;
        }
        if starts_with(a, "--config") || starts_with(a, "--log") {
            if contains(a, "=") {
                i = i + 1;
            } else {
                if i + 1 >= args.len() {
                    return true;
                }
                assert(rest[1] == args@[i + 1]@);
                if str_eq(args[i + 1].as_str(), "--") {
                    return true;
                }
                assert(rest.skip(2) == av.skip(i + 2));
                i = i + 2;
            }
        } else if starts_with(a, "-") {
            i = i + 1;
        } else {
            return false;
        }
    }
    true
}

/// The first of the lines that is a description.
pub open spec fn about_in(text: Seq<Seq<char>>) -> Option<Seq<char>>
    decreases text.len(),
{
    if text.len() == 0 {
        None
    } else {
        let l = trimmed(text[0]);
        if l.len() > 0 && !has_prefix(l, "Usage:"@) {
            Some(l)
        } else {
            about_in(text.drop_first())
        }
    }
}

/// A program's description in what it prints as its help.
pub fn about_line(help: &str) -> (r: Option<String>)
    ensures
        match r {
            Some(l) => about_in(lines_of(help@)) == Some(l@),
            None => about_in(lines_of(help@)) is None,
        },
{
    let text = lines(help);
    let ghost tv = strs(text@);
    let mut i: usize = 0;
    assert(tv.skip(0) == tv);
    while i < text.len()
        invariant
            i <= text.len(),
            tv == strs(text@),
            tv == lines_of(help@),
            about_in(tv) == about_in(tv.skip(i as int)),
        decreases text.len() - i,
    {
        assert(tv.skip(i as int)[0] == text@[i as int]@);
        assert(tv.skip(i as int).drop_first() == tv.skip(i + 1));
        let l = trim(text[i].as_str());
        if !str_eq(l.as_str(), "") && !starts_with(l.as_str(), "Usage:") {
            proof {
                reveal_strlit("");
                assert(l@ != ""@);
                if l@.len() == 0 {
                    assert(l@ =~= ""@);
                }
            }
            return Some(l);
        }
        proof {
            reveal_strlit("");
        }
        i = i + 1;
    }
    None
}

/// The subcommand that a file's name stands for.
pub open spec fn porcelain_name(file: Seq<char>) -> Option<Seq<char>> {
    if has_prefix(file, "giant-"@) {
        let name = file.skip("giant-"@.len() as int);
        if name.len() == 0 || name == "session"@ || name == "completions"@ {
            None
        } else {
            Some(name)
        }
    } else {
        None
    }
}

/// A file in a directory of `PATH`.
#[derive(Debug)]
pub struct PathFile {
    pub name: String,
    pub path: String,
    pub executable: bool,
}

/// The subcommands among the files, each as it comes first.
pub open spec fn porcelains_in(files: Seq<PathFile>) -> Seq<(Seq<char>, Seq<char>)>
    decreases files.len(),
{
    if files.len() == 0 {
        Seq::<(Seq<char>, Seq<char>)>::empty()
    } else {
        let rest = porcelains_in(files.drop_last());
        let f = files.last();
        match porcelain_name(f.name@) {
            Some(n) => if f.executable && !names_of(rest).contains(n) {
                rest.push((n, f.path@))
            } else {
                rest
            },
            None => rest,
        }
    }
}

fn named(v: &Vec<(String, String)>, name: &str) -> (r: bool)
    ensures
        r == names_of(env_views(v@)).contains(name@),
{
    let ghost nv = names_of(env_views(v@));
    let mut i: usize = 0;
    while i < v.len()
        invariant
            i <= v.len(),
            nv == names_of(env_views(v@)),
            nv.len() == v.len(),
            forall|k: int| 0 <= k < i ==> #[trigger] nv[k] != name@,
        decreases v.len() - i,
    {
        assert(nv[i as int] == v@[i as int].0@);
        if str_eq(v[i].0.as_str(), name) {
            return true;
        }
        i = i + 1;
    }
    false
}

/// The subcommand that a file's name stands for: `giant-` and the subcommand's
/// name, which is none of the built-in ones.
fn subcommand(file: &str) -> (r: Option<&str>)
    ensures
        match r {
            Some(n) => porcelain_name(file@) == Some(n@),
            None => porcelain_name(file@) is None,
        },
{
    proof {
        reveal_strlit("");
    }
    match strip_prefix(file, "giant-") {
        None => None,
        Some(n) => {
            if str_eq(n, "") {
                return None;
            }
            assert(n@.len() > 0) by {
                if n@.len() == 0 {
                    assert(n@ =~= ""@);
                }
            }
            if str_eq(n, "session") || str_eq(n, "completions") {
                None
            } else {
                Some(n)
            }
        },
    }
}

/// The programs that add subcommands, by name. The files come in the order of
/// `PATH`, and the first executable one of a name counts.
pub fn detect_porcelains(files: &Vec<PathFile>) -> (r: Vec<(String, String)>)
    ensures
        env_views(r@) == sorted_pairs(porcelains_in(files@)),
{
    let mut found: Vec<(String, String)> = Vec::new();
    let mut i: usize = 0;
    assert(env_views(found@) == porcelains_in(files@.take(0)));
    while i < files.len()
        invariant
            i <= files.len(),
            env_views(found@) == porcelains_in(files@.take(i as int)),
        decreases files.len() - i,
    {
        let ghost before = env_views(found@);
        assert(files@.take(i + 1).drop_last() == files@.take(i as int));
        assert(files@.take(i + 1).last() == files@[i as int]);
        if let Some(n) = subcommand(files[i].name.as_str()) {
            if files[i].executable && !named(&found, n) {
                found.push((owned(n), files[i].path.clone()));
                assert(env_views(found@) == before.push((n@, files@[i as int].path@)));
            }
        }
        i = i + 1;
    }
    assert(files@.take(i as int) == files@);
    sort_env(&found)
}

/// No two of the subcommands have one name.
pub proof fn law_porcelains_distinct(files: Seq<PathFile>, i: int, j: int)
    requires
        0 <= i < j < porcelains_in(files).len(),
    ensures
        porcelains_in(files)[i].0 != porcelains_in(files)[j].0,
    decreases files.len(),
{
    let rest = porcelains_in(files.drop_last());
    if j < rest.len() {
        law_porcelains_distinct(files.drop_last(), i, j);
    } else {
        assert(names_of(rest)[i] == rest[i].0);
    }
}

/// Whether a file can be run: what it is, and its mode. `None` where nothing
/// could be learned of it.
pub fn is_executable(meta: Option<(bool, u32)>) -> (r: bool)
    ensures
        r <==> (meta matches Some((file, mode)) && file && mode & 0o111 != 0),
{
    match meta {
        Some((file, mode)) => file && mode & 0o111 != 0,
        None => false,
    }
}

/// The places of a program, in the order in which they are tried.
pub open spec fn places_of(dirs: Seq<Seq<char>>, name: Seq<char>) -> Seq<Seq<char>> {
    dirs.map_values(|d: Seq<char>| joined(d, name))
}

/// Where a program may stand: in each of the directories, in order.
pub fn path_candidates(dirs: &Vec<String>, name: &str) -> (r: Vec<String>)
    ensures
        strs(r@) == places_of(strs(dirs@), name@),
{
    let mut out: Vec<String> = Vec::new();
    let mut i: usize = 0;
    while i < dirs.len()
        invariant
            i <= dirs.len(),
            out.len() == i,
            forall|k: int| 0 <= k < i ==> (#[trigger] out@[k])@ == joined(dirs@[k]@, name@),
        decreases dirs.len() - i,
    {
        out.push(path_join(dirs[i].as_str(), name));
        i = i + 1;
    }
    assert(strs(out@) == places_of(strs(dirs@), name@));
    out
}

/// The first of the candidates that can be run.
pub fn find_on_path(candidates: &Vec<String>, executable: &Vec<bool>) -> (r: Option<String>)
    requires
        candidates.len() == executable.len(),
    ensures
        r is None <==> forall|k: int| 0 <= k < executable.len() ==> !#[trigger] executable@[k],
        r matches Some(p) ==> exists|k: int|
            0 <= k < executable.len() && #[trigger] executable@[k] && p@ == candidates@[k]@ && forall|j: int|
                0 <= j < k ==> !#[trigger] executable@[j],
{
    let mut i: usize = 0;
    while i < candidates.len()
        invariant
            i <= candidates.len(),
            candidates.len() == executable.len(),
            forall|k: int| 0 <= k < i ==> !#[trigger] executable@[k],
        decreases candidates.len() - i,
    {
        if executable[i] {
            let p = candidates[i].clone();
            assert(executable@[i as int] && p@ == candidates@[i as int]@);
            return Some(p);
        }
        i = i + 1;
    }
    None
}

/// The complaint about a name that no program has.
pub open spec fn no_subcommand_text(name: Seq<char>) -> Seq<char> {
    "no such subcommand '"@ + name + "': not a built-in and no '"@ + ("giant-"@ + name) + ("' found beside giant or on PATH.\nhint: to run a task named '"@ + name
        + "', use `giant task "@ + (name + "`."@))
}

/// The file name of the program that handles a subcommand.
pub fn program_of(name: &str) -> (r: String)
    ensures
        r@ == "giant-"@ + name@,
{
    cat2("giant-", name)
}

/// What to run for a name that is not built in: the program beside `giant`, or
/// else the first on `PATH`. There is no other way out.
pub fn dispatch(name: &str, sibling: Option<String>, on_path: Option<String>) -> (r: Result<String, String>)
    ensures
        r matches Ok(p) ==> (sibling matches Some(s) && p == s) || (sibling is None && on_path == Some(p)),
        r is Ok <==> sibling is Some || on_path is Some,
        r matches Err(e) ==> e@ == no_subcommand_text(name@),
{
    match sibling {
        Some(p) => Ok(p),
        None => match on_path {
            Some(p) => Ok(p),
            None => {
                let prog = program_of(name);
                let end = cat2(name, "`.");
                let hint = cat4("' found beside giant or on PATH.\nhint: to run a task named '", name, "', use `giant task ", end.as_str());
                let head = cat3("no such subcommand '", name, "': not a built-in and no '");
                let r = cat3(head.as_str(), prog.as_str(), hint.as_str());
                Err(r)
            },
        },
    }
}

/// The labels that complete a word, sorted.
pub fn complete_target_ids(ids: &Vec<String>, current: &str) -> (r: Vec<String>)
    ensures
        ascending(strs(r@)),
        forall|x: Seq<char>| #[trigger] strs(r@).contains(x) <==> strs(ids@).contains(x) && has_prefix(x, current@),
{
    let all = sorted_set(ids);
    let ghost av = strs(all@);
    let mut out: Vec<String> = Vec::new();
    let mut i: usize = 0;
    while i < all.len()
        invariant
            i <= all.len(),
            av == strs(all@),
            ascending(av),
            ascending(strs(out@)),
            forall|x: Seq<char>| #[trigger] strs(out@).contains(x) <==> av.take(i as int).contains(x) && has_prefix(x, current@),
            forall|k: int| 0 <= k < out.len() ==> av.take(i as int).contains(#[trigger] strs(out@)[k]),
        decreases all.len() - i,
    {
        let ghost before = strs(out@);
        let ghost upto = av.take(i as int);
        let ghost x0 = av[i as int];
        assert(av.take(i + 1) == upto.push(x0));
        let keep: bool = starts_with(all[i].as_str(), current);
        if keep {
            out.push(all[i].clone());
            assert(strs(out@) == before.push(x0));
        }
        proof {
            assert forall|x: Seq<char>| #[trigger] strs(out@).contains(x) <==> av.take(i + 1).contains(x) && has_prefix(x, current@) by {
                lemma_push_contains(upto, x0, x);
                lemma_push_contains(before, x0, x);
                assert(before.contains(x) <==> upto.contains(x) && has_prefix(x, current@));
            }
            assert forall|k: int| 0 <= k < out.len() implies av.take(i + 1).contains(#[trigger] strs(out@)[k]) by {
                assert(strs(out@).contains(strs(out@)[k]));
            }
            assert forall|a: int, b: int| 0 <= a < b < strs(out@).len() implies crate::text::str_lt(
                #[trigger] strs(out@)[a],
                #[trigger] strs(out@)[b],
            ) by {
                if b < before.len() {
                    assert(crate::text::str_lt(before[a], before[b]));
                } else {
                    assert(upto.contains(before[a]));
                    let m = choose|m: int| 0 <= m < upto.len() && upto[m] == before[a];
                    assert(av[m] == before[a]);
                    assert(crate::text::str_lt(av[m], av[i as int]));
                }
            }
        }
        i = i + 1;
    }
    assert(av.take(i as int) == av);
    out
}

/// Every program on the path whose name starts with `giant-` is a subcommand,
/// but for the two that are none, and of several of one name the first counts.
pub proof fn law_porcelain_listed(files: Seq<PathFile>, i: int, n: Seq<char>)
    requires
        0 <= i < files.len(),
        files[i].executable,
        files[i].name@ == "giant-"@ + n,
        n.len() > 0,
        n != "session"@,
        n != "completions"@,
        forall|j: int| 0 <= j < i && (#[trigger] files[j]).executable ==> files[j].name@ != "giant-"@ + n,
    ensures
        porcelains_in(files).contains((n, files[i].path@)),
    decreases files.len(),
{
    let f = files.drop_last();
    let rest = porcelains_in(f);
    let last = files.last();
    lemma_porcelain_name(n);
    if i < f.len() {
        assert(f[i] == files[i]);
        assert forall|j: int| 0 <= j < i && (#[trigger] f[j]).executable implies f[j].name@ != "giant-"@ + n by {
            assert(f[j] == files[j]);
        }
        law_porcelain_listed(f, i, n);
        let k = choose|k: int| 0 <= k < rest.len() && rest[k] == (n, files[i].path@);
        assert(porcelains_in(files)[k] == rest[k]);
    } else {
        if names_of(rest).contains(n) {
            let k = choose|k: int| 0 <= k < names_of(rest).len() && names_of(rest)[k] == n;
            assert(rest[k].0 == n);
            lemma_porcelain_source(f, k);
            let j = choose|j: int| 0 <= j < f.len() && (#[trigger] f[j]).executable && porcelain_name(f[j].name@) == Some(rest[k].0) && f[j].path@ == rest[k].1;
            lemma_porcelain_file(f[j].name@, n);
            assert(files[j] == f[j]);
        }
        assert(porcelains_in(files)[rest.len() as int] == (n, files[i].path@));
    }
}

/// Nothing else is a subcommand: each is the name of an executable file of the
/// path behind `giant-`.
pub proof fn law_porcelain_source(files: Seq<PathFile>, k: int)
    requires
        0 <= k < porcelains_in(files).len(),
    ensures
        exists|j: int| 0 <= j < files.len() && (#[trigger] files[j]).executable && files[j].name@ == "giant-"@ + porcelains_in(files)[k].0 && files[j].path@ == porcelains_in(files)[k].1,
{
    lemma_porcelain_source(files, k);
    let j = choose|j: int| 0 <= j < files.len() && (#[trigger] files[j]).executable && porcelain_name(files[j].name@) == Some(porcelains_in(files)[k].0) && files[j].path@ == porcelains_in(files)[k].1;
    lemma_porcelain_file(files[j].name@, porcelains_in(files)[k].0);
}

proof fn lemma_porcelain_source(files: Seq<PathFile>, k: int)
    requires
        0 <= k < porcelains_in(files).len(),
    ensures
        exists|j: int| 0 <= j < files.len() && (#[trigger] files[j]).executable && porcelain_name(files[j].name@) == Some(porcelains_in(files)[k].0) && files[j].path@ == porcelains_in(files)[k].1,
    decreases files.len(),
{
    let f = files.drop_last();
    let rest = porcelains_in(f);
    if k < rest.len() {
        assert(porcelains_in(files)[k] == rest[k]);
        lemma_porcelain_source(f, k);
        let j = choose|j: int| 0 <= j < f.len() && (#[trigger] f[j]).executable && porcelain_name(f[j].name@) == Some(rest[k].0) && f[j].path@ == rest[k].1;
        assert(files[j] == f[j]);
    } else {
        assert(files[files.len() - 1] == files.last());
    }
}

proof fn lemma_porcelain_name(n: Seq<char>)
    requires
        n.len() > 0,
        n != "session"@,
        n != "completions"@,
    ensures
        porcelain_name("giant-"@ + n) == Some(n),
{
    let s = "giant-"@ + n;
    assert(s.take("giant-"@.len() as int) =~= "giant-"@);
    assert(s.skip("giant-"@.len() as int) =~= n);
}

proof fn lemma_porcelain_file(file: Seq<char>, n: Seq<char>)
    requires
        porcelain_name(file) == Some(n),
    ensures
        file == "giant-"@ + n,
{
    let p = "giant-"@;
    assert(file =~= file.take(p.len() as int) + file.skip(p.len() as int));
}

/// The description of a program is the first line of its help that says
/// anything and is not the usage.
pub proof fn law_about(text: Seq<Seq<char>>, i: int)
    requires
        0 <= i < text.len(),
        trimmed(text[i]).len() > 0,
        !has_prefix(trimmed(text[i]), "Usage:"@),
        forall|j: int| 0 <= j < i ==> trimmed(#[trigger] text[j]).len() == 0 || has_prefix(trimmed(text[j]), "Usage:"@),
    ensures
        about_in(text) == Some(trimmed(text[i])),
    decreases i,
{
    if i > 0 {
        let t = text.drop_first();
        assert(trimmed(text[0]).len() == 0 || has_prefix(trimmed(text[0]), "Usage:"@));
        assert forall|j: int| 0 <= j < i - 1 implies trimmed(#[trigger] t[j]).len() == 0 || has_prefix(trimmed(t[j]), "Usage:"@) by {
            assert(t[j] == text[j + 1]);
        }
        law_about(t, i - 1);
    }
}

/// Help is shown where it is asked for or there is no subcommand: an option is
/// passed over, with its value where it takes one, and the first other argument
/// is the subcommand.
pub proof fn law_help(first: Seq<char>, value: Seq<char>, rest: Seq<Seq<char>>)
    ensures
        asks_help(Seq::<Seq<char>>::empty()),
        asks_help(seq!["--"@] + rest) && asks_help(seq!["--help"@] + rest) && asks_help(seq!["-h"@] + rest) && asks_help(seq!["help"@] + rest),
        first.len() > 0 && first[0] != '-' && first != "help"@ ==> !asks_help(seq![first] + rest),
        value != "--"@ ==> asks_help(seq!["--config"@, value] + rest) == asks_help(rest),
        value != "--"@ ==> asks_help(seq!["--log"@, value] + rest) == asks_help(rest),
        asks_help(seq!["-v"@] + rest) == asks_help(rest),
{
    reveal_strlit("--");
    reveal_strlit("--help");
    reveal_strlit("-h");
    reveal_strlit("-v");
    reveal_strlit("help");
    reveal_strlit("--config");
    reveal_strlit("--log");
    reveal_strlit("-");
    reveal_strlit("=");
    assert((seq!["--"@] + rest)[0] == "--"@);
    assert((seq!["--help"@] + rest)[0] == "--help"@);
    assert((seq!["-h"@] + rest)[0] == "-h"@);
    assert((seq!["help"@] + rest)[0] == "help"@);
    let p = seq![first] + rest;
    assert(p[0] == first);
    if first.len() > 0 && first[0] != '-' {
        lemma_no_dash(first);
    }
    let c = "--config"@;
    let l = "--log"@;
    if value != "--"@ {
        lemma_flag_value(c, value, rest);
        lemma_flag_value(l, value, rest);
    }
    let v = seq!["-v"@] + rest;
    assert(v[0] == "-v"@);
    assert(v.skip(1) =~= rest);
    assert("-v"@.take(1) =~= "-"@);
    assert("-v"@ != "-h"@) by {
        assert("-v"@[1] != "-h"@[1]);
    }
    assert("-v"@ != "--"@) by {
        assert("-v"@[1] != "--"@[1]);
    }
    assert(!takes_value("-v"@));
}

proof fn lemma_no_dash(first: Seq<char>)
    requires
        first.len() > 0,
        first[0] != '-',
    ensures
        !has_prefix(first, "-"@),
        !takes_value(first),
        first != "--"@ && first != "--help"@ && first != "-h"@,
{
    reveal_strlit("--");
    reveal_strlit("--help");
    reveal_strlit("-h");
    reveal_strlit("--config");
    reveal_strlit("--log");
    reveal_strlit("-");
    if has_prefix(first, "-"@) {
        assert(first.take(1)[0] == first[0]);
    }
    if has_prefix(first, "--config"@) {
        assert(first.take(8)[0] == first[0]);
    }
    if has_prefix(first, "--log"@) {
        assert(first.take(5)[0] == first[0]);
    }
    assert("--"@[0] == '-' && "--help"@[0] == '-' && "-h"@[0] == '-');
}

proof fn lemma_flag_value(flag: Seq<char>, value: Seq<char>, rest: Seq<Seq<char>>)
    requires
        flag == "--config"@ || flag == "--log"@,
        value != "--"@,
    ensures
        asks_help(seq![flag, value] + rest) == asks_help(rest),
{
    reveal_strlit("--");
    reveal_strlit("--help");
    reveal_strlit("-h");
    reveal_strlit("help");
    reveal_strlit("--config");
    reveal_strlit("--log");
    reveal_strlit("=");
    let a = seq![flag, value] + rest;
    assert(a[0] == flag && a[1] == value);
    assert(a.skip(2) =~= rest);
    assert("--config"@.take(8) =~= "--config"@);
    assert("--log"@.take(5) =~= "--log"@);
    assert(takes_value(flag));
    assert(flag.len() == 8 || flag.len() == 5);
    assert(flag != "--help"@) by {
        assert("--help"@.len() == 6);
    }
    assert(flag != "help"@ && flag != "-h"@ && flag != "--"@);
    if occurs_in(flag, "="@) {
        let i = choose|i: int| crate::text::occurs_at(flag, "="@, i);
        assert(flag.subrange(i, i + 1)[0] == flag[i]);
    }
}

} // verus!

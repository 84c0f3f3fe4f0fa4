//! The file system monitor: which paths changed since the last run.
//!
//! The monitor is given a token and answers with a new one and the paths that
//! changed since, or that it does not know.

use crate::paths::{components, is_below, joined, path_is_below, path_join, same_path};

use crate::session::text_view;
use crate::text::{byte_views, owned, split_bytes, split_bytes_on, str_eq, strs, text_from_utf8, trim_end_char, without_trailing};
use vstd::prelude::*;
use vstd::string::*;
use vstd::utf8::{decode_utf8, valid_utf8};

verus! {

/// What changed since the last token.
#[derive(Debug, PartialEq, Eq)]
pub enum ChangeSet {
    /// Anything may have changed.
    FreshInstance,
    /// Only these workspace-relative paths changed.
    Delta(Vec<String>),
}

impl ChangeSet {
    /// The file at `path` may have changed.
    pub open spec fn file_changed(&self, path: Seq<char>) -> bool {
        match *self {
            ChangeSet::FreshInstance => true,
            ChangeSet::Delta(set) => exists|i: int| 0 <= i < set@.len() && components(#[trigger] strs(set@)[i]) == components(path),
        }
    }

    /// Something in the directory at `path` may have changed.
    pub open spec fn dir_changed(&self, path: Seq<char>) -> bool {
        match *self {
            ChangeSet::FreshInstance => true,
            ChangeSet::Delta(set) => exists|i: int| 0 <= i < set@.len() && is_below(#[trigger] strs(set@)[i], path),
        }
    }

    /// A path that may have changed as a file may have changed as a directory.
    pub proof fn law_file_is_dir(&self, path: Seq<char>)
        requires
            self.file_changed(path),
        ensures
            self.dir_changed(path),
    {
        if let ChangeSet::Delta(set) = *self {
            let i = choose|i: int| 0 <= i < set@.len() && components(#[trigger] strs(set@)[i]) == components(path);
            let p = components(strs(set@)[i]);
            assert(p.take(p.len() as int) == p);
            assert(is_below(strs(set@)[i], path));
        }
    }

    /// A change in a directory is a change in every directory above it.
    pub proof fn law_change_spreads_up(&self, path: Seq<char>, above: Seq<char>)
        requires
            self.dir_changed(path),
            is_below(path, above),
        ensures
            self.dir_changed(above),
    {
        if let ChangeSet::Delta(set) = *self {
            let i = choose|i: int| 0 <= i < set@.len() && is_below(#[trigger] strs(set@)[i], path);
            let f = components(strs(set@)[i]);
            let p = components(path);
            let a = components(above);
            assert(f.take(a.len() as int) == f.take(p.len() as int).take(a.len() as int));
            assert(is_below(strs(set@)[i], above));
        }
    }

    pub fn file_might_have_changed(&self, path: &str) -> (r: bool)
        ensures
            r == self.file_changed(path@),
    {
        match self {
            ChangeSet::FreshInstance => true,
            ChangeSet::Delta(set) => lists(set, path),
        }
    }

    pub fn dir_might_have_changed(&self, path: &str) -> (r: bool)
        ensures
            r == self.dir_changed(path@),
    {
        match self {
            ChangeSet::FreshInstance => true,
            ChangeSet::Delta(set) => lists_below(set, path),
        }
    }

    /// Whether nothing changed.
    pub fn is_empty(&self) -> (r: bool)
        ensures
            r == (*self matches ChangeSet::Delta(s) && s@.len() == 0),
    {
        match self {
            ChangeSet::FreshInstance => false,
            ChangeSet::Delta(s) => s.len() == 0,
        }
    }
}

/// Whether one of the paths is `path`.
fn lists(set: &Vec<String>, path: &str) -> (r: bool)
    ensures
        r <==> exists|i: int| 0 <= i < set@.len() && components(#[trigger] strs(set@)[i]) == components(path@),
{
    let mut i: usize = 0;
    while i < set.len()
        invariant
            i <= set.len(),
            forall|k: int| 0 <= k < i ==> components(#[trigger] strs(set@)[k]) != components(path@),
        decreases set.len() - i,
    {
        assert(strs(set@)[i as int] == set@[i as int]@);
        if same_path(set[i].as_str(), path) {
            return true;
        }
        i = i + 1;
    }
    false
}

/// Whether one of the paths is `path` or below it.
fn lists_below(set: &Vec<String>, path: &str) -> (r: bool)
    ensures
        r <==> exists|i: int| 0 <= i < set@.len() && is_below(#[trigger] strs(set@)[i], path@),
{
    let mut i: usize = 0;
    while i < set.len()
        invariant
            i <= set.len(),
            forall|k: int| 0 <= k < i ==> !is_below(#[trigger] strs(set@)[k], path@),
        decreases set.len() - i,
    {
        assert(strs(set@)[i as int] == set@[i as int]@);
        if path_is_below(set[i].as_str(), path) {
            return true;
        }
        i = i + 1;
    }
    false
}

/// How the monitor is asked.
#[derive(Debug, PartialEq, Eq)]
pub enum Backend {
    /// The daemon that comes with git.
    BuiltinDaemon,
    /// A script, called with the protocol version and the token.
    HookScript(String),
}

/// The backend that the setting `core.fsmonitor` chooses.
pub fn choose_backend(setting: &Option<String>) -> (r: Option<Backend>)
    ensures
        r is None <==> (setting is None || setting->0@ == ""@ || setting->0@ == "false"@ || setting->0@ == "0"@),
        r matches Some(b) ==> (b is BuiltinDaemon <==> setting->0@ == "true"@ || setting->0@ == "1"@),
        r matches Some(b) ==> (b matches Backend::HookScript(p) ==> p@ == setting->0@),
{
    match setting {
        None => None,
        Some(s) => {
            let s = s.as_str();
            if str_eq(s, "") || str_eq(s, "false") || str_eq(s, "0") {
                None
            } else if str_eq(s, "true") || str_eq(s, "1") {
                Some(Backend::BuiltinDaemon)
            } else {
                Some(Backend::HookScript(owned(s)))
            }
        },
    }
}

/// The record stands for a path that is not one: the mark of a fresh instance,
/// or bytes that are no text.
pub open spec fn is_fresh_record(rec: Seq<u8>) -> bool {
    rec == seq![0x2fu8] || !valid_utf8(rec)
}

/// The answer says that anything may have changed.
pub open spec fn is_fresh(records: Seq<Seq<u8>>) -> bool {
    !valid_utf8(records[0]) || exists|i: int| 1 <= i < records.len() && is_fresh_record(#[trigger] records[i])
}

/// The paths of an answer: the records behind the token that are not empty.
pub open spec fn answered_paths(records: Seq<Seq<u8>>) -> Seq<Seq<char>>
    decreases records.len(),
{
    if records.len() <= 1 {
        Seq::<Seq<char>>::empty()
    } else {
        let rest = answered_paths(records.drop_last());
        if records.last().len() == 0 {
            rest
        } else {
            rest.push(decode_utf8(records.last()))
        }
    }
}

fn is_slash(rec: &Vec<u8>) -> (r: bool)
    ensures
        r == (rec@ == seq![0x2fu8]),
{
    let r: bool = rec.len() == 1 && rec[0] == 0x2f;
    assert(r ==> rec@ =~= seq![0x2fu8]);
    r
}

/// Reads an answer: records that end in a zero byte, the new token first.
pub fn parse_response(stdout: &[u8], new_token_out: &mut Option<String>) -> (r: ChangeSet)
    ensures
        r is FreshInstance <==> is_fresh(split_bytes_on(stdout@, 0)),
        r matches ChangeSet::Delta(paths) ==> strs(paths@) == answered_paths(split_bytes_on(stdout@, 0)),
        valid_utf8(split_bytes_on(stdout@, 0)[0]) ==> (*final(new_token_out) matches Some(t) && t@ == decode_utf8(split_bytes_on(stdout@, 0)[0])),
        !valid_utf8(split_bytes_on(stdout@, 0)[0]) ==> *final(new_token_out) == *old(new_token_out),
{
    let records = split_bytes(stdout, 0);
    let ghost rv = byte_views(records@);
    assert(rv[0] == records@[0]@);
    match text_from_utf8(records[0].as_slice()) {
        None => {
            return ChangeSet::FreshInstance;
        },
        Some(t) => {
            *new_token_out = Some(t);
        },
    }
    let mut paths: Vec<String> = Vec::new();
    let mut i: usize = 1;
    assert(strs(paths@) == answered_paths(rv.take(1)));
    let ghost token = *new_token_out;
    while i < records.len()
        invariant
            1 <= i <= records.len(),
            rv == byte_views(records@),
            rv == split_bytes_on(stdout@, 0),
            valid_utf8(rv[0]),
            token matches Some(t) && t@ == decode_utf8(rv[0]),
            *new_token_out == token,
            forall|k: int| 1 <= k < i ==> !is_fresh_record(#[trigger] rv[k]),
            strs(paths@) == answered_paths(rv.take(i as int)),
        decreases records.len() - i,
    {
        assert(rv[i as int] == records@[i as int]@);
        assert(rv.take(i + 1).drop_last() == rv.take(i as int));
        assert(rv.take(i + 1).last() == rv[i as int]);
        let ghost before = strs(paths@);
        if records[i].len() > 0 {
            if is_slash(&records[i]) {
                assert(is_fresh_record(rv[i as int]));
                return ChangeSet::FreshInstance;
            }
            match text_from_utf8(records[i].as_slice()) {
                None => {
                    assert(is_fresh_record(rv[i as int]));
                    return ChangeSet::FreshInstance;
                },
                Some(s) => {
                    let ghost sv = s@;
                    paths.push(s);
                    assert(strs(paths@) == before.push(sv));
                },
            }
        } else {
            assert(rv[i as int] =~= Seq::<u8>::empty());
            assert(valid_utf8(rv[i as int]));
            assert(rv[i as int].len() != seq![0x2fu8].len());
        }
        i = i + 1;
    }
    assert(rv.take(i as int) == rv);
    ChangeSet::Delta(paths)
}

/// A client of the monitor.
pub struct FsmonitorClient {
    state_dir: String,
    backend: Backend,
    last_token: Option<String>,
    new_token: Option<String>,
}

/// The name of the file that keeps the token.
pub fn token_path(state_dir: &str) -> (r: String)
    ensures
        r@ == joined(state_dir@, "fsmonitor-token"@),
{
    path_join(state_dir, "fsmonitor-token")
}

impl FsmonitorClient {
    pub closed spec fn backend(&self) -> Backend {
        self.backend
    }

    pub closed spec fn last_token(&self) -> Option<Seq<char>> {
        text_view(self.last_token)
    }

    pub closed spec fn new_token(&self) -> Option<Seq<char>> {
        text_view(self.new_token)
    }

    pub closed spec fn state_dir(&self) -> Seq<char> {
        self.state_dir@
    }

    /// A client with the kept token, as read from its file.
    pub fn open(state_dir: String, backend: Backend, kept: &Option<String>) -> (r: FsmonitorClient)
        ensures
            r.backend() == backend,
            r.state_dir() == state_dir@,
            r.last_token() == (match *kept {
                Some(t) => Some(without_trailing(t@, '\n')),
                None => None,
            }),
            r.new_token() is None,
    {
        let last_token = match kept {
            Some(t) => Some(trim_end_char(t.as_str(), '\n')),
            None => None,
        };
        FsmonitorClient { state_dir, backend, last_token, new_token: None }
    }

    /// The program that asks the monitor, and its arguments.
    pub fn query_command(&self) -> (r: Vec<String>)
        ensures
            strs(r@) == ({
                let token = match self.last_token() {
                    Some(t) => t,
                    None => Seq::<char>::empty(),
                };
                match self.backend() {
                    Backend::BuiltinDaemon => seq!["git"@, "fsmonitor--daemon"@, "query"@, token],
                    Backend::HookScript(path) => seq![path@, "2"@, token],
                }
            }),
    {
        let token = match &self.last_token {
            Some(t) => t.clone(),
            None => String::new(),
        };
        let ghost tv = token@;
        let mut out: Vec<String> = Vec::new();
        match &self.backend {
            Backend::BuiltinDaemon => {
                out.push(owned("git"));
                out.push(owned("fsmonitor--daemon"));
                out.push(owned("query"));
                out.push(token);
                assert(strs(out@) == seq!["git"@, "fsmonitor--daemon"@, "query"@, tv]);
            },
            Backend::HookScript(path) => {
                out.push(path.clone());
                out.push(owned("2"));
                out.push(token);
                assert(strs(out@) == seq![path@, "2"@, tv]);
            },
        }
        out
    }

    /// Takes the answer. A query that failed in any way says that anything may
    /// have changed, and leaves the token.
    pub fn answered(&mut self, stdout: Option<&[u8]>) -> (r: ChangeSet)
        ensures
            final(self).backend() == old(self).backend(),
            final(self).last_token() == old(self).last_token(),
            final(self).state_dir() == old(self).state_dir(),
            stdout is None ==> r is FreshInstance && final(self).new_token() == old(self).new_token(),
            stdout matches Some(b) ==> {
                &&& r is FreshInstance <==> is_fresh(split_bytes_on(b@, 0))
                &&& (r matches ChangeSet::Delta(paths) ==> strs(paths@) == answered_paths(split_bytes_on(b@, 0)))
                &&& final(self).new_token() == (if valid_utf8(split_bytes_on(b@, 0)[0]) {
                    Some(decode_utf8(split_bytes_on(b@, 0)[0]))
                } else {
                    old(self).new_token()
                })
            },
    {
        match stdout {
            None => ChangeSet::FreshInstance,
            Some(b) => parse_response(b, &mut self.new_token),
        }
    }

    /// What to keep at the end of a build: the file and the token, if a new one
    /// came.
    pub fn token_to_persist(&self) -> (r: Option<(String, String)>)
        ensures
            r is Some <==> self.new_token() is Some,
            r matches Some(p) ==> p.0@ == joined(self.state_dir(), "fsmonitor-token"@) && Some(p.1@) == self.new_token(),
    {
        match &self.new_token {
            Some(t) => Some((token_path(self.state_dir.as_str()), t.clone())),
            None => None,
        }
    }
}

/// The paths of an answer are the records behind the token, in order; an empty
/// record is no path.
pub proof fn law_answered_paths(records: Seq<Seq<u8>>)
    requires
        records.len() >= 1,
    ensures
        answered_paths(records) == records.skip(1).filter(|r: Seq<u8>| r.len() > 0).map_values(|r: Seq<u8>| decode_utf8(r)),
    decreases records.len(),
{
    reveal(Seq::filter);
    let t = records.skip(1);
    if records.len() > 1 {
        let front = records.drop_last();
        law_answered_paths(front);
        assert(t.drop_last() =~= front.skip(1));
        assert(t.last() == records.last());
        let f = t.drop_last().filter(|r: Seq<u8>| r.len() > 0);
        assert(f.push(t.last()).map_values(|r: Seq<u8>| decode_utf8(r)) =~= f.map_values(|r: Seq<u8>| decode_utf8(r)).push(decode_utf8(t.last())));
    } else {
        assert(answered_paths(records) =~= t.filter(|r: Seq<u8>| r.len() > 0).map_values(|r: Seq<u8>| decode_utf8(r)));
    }
}

/// Anything may have changed exactly if the token is no text, or a record behind
/// it is a lone slash or no text.
pub proof fn law_fresh_answer(records: Seq<Seq<u8>>)
    requires
        records.len() >= 1,
    ensures
        is_fresh(records) <==> !valid_utf8(records[0]) || exists|i: int| 1 <= i < records.len() && (#[trigger] records[i] == seq![0x2fu8] || !valid_utf8(records[i])),
{
    if exists|i: int| 1 <= i < records.len() && (#[trigger] records[i] == seq![0x2fu8] || !valid_utf8(records[i])) {
        let i = choose|i: int| 1 <= i < records.len() && (#[trigger] records[i] == seq![0x2fu8] || !valid_utf8(records[i]));
        assert(is_fresh_record(records[i]));
    }
    if exists|i: int| 1 <= i < records.len() && is_fresh_record(#[trigger] records[i]) {
        let i = choose|i: int| 1 <= i < records.len() && is_fresh_record(#[trigger] records[i]);
        assert(records[i] == seq![0x2fu8] || !valid_utf8(records[i]));
    }
}

/// Every path that the monitor names may have changed, and so may every
/// directory above it; of others neither is said.
pub proof fn law_named_paths_changed(set: Vec<String>, i: int, path: Seq<char>)
    requires
        0 <= i < set@.len(),
    ensures
        ChangeSet::Delta(set).file_changed(set@[i]@),
        is_below(set@[i]@, path) ==> ChangeSet::Delta(set).dir_changed(path),
        (forall|k: int| 0 <= k < set@.len() ==> components((#[trigger] set@[k])@) != components(path)) ==> !ChangeSet::Delta(set).file_changed(path),
        (forall|k: int| 0 <= k < set@.len() ==> !is_below((#[trigger] set@[k])@, path)) ==> !ChangeSet::Delta(set).dir_changed(path),
{
    let v = strs(set@);
    assert(v[i] == set@[i]@);
    if ChangeSet::Delta(set).file_changed(path) {
        let k = choose|k: int| 0 <= k < set@.len() && components(#[trigger] strs(set@)[k]) == components(path);
        assert(strs(set@)[k] == set@[k]@);
    }
    if ChangeSet::Delta(set).dir_changed(path) {
        let k = choose|k: int| 0 <= k < set@.len() && is_below(#[trigger] strs(set@)[k], path);
        assert(strs(set@)[k] == set@[k]@);
    }
}

} // verus!

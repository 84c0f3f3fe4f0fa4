//! The captured output of a past run.

use crate::cli::LogsArgs;
use crate::digest::{is_digest_hex, unhex};
use crate::executor::{code_string, code_text};
use crate::model::{CacheKey, ContentHash, TargetId};
use crate::outputs::AcEntry;
use crate::text::{cat2, cat3, cat5, owned, utf8};
use crate::walk::{quoted, str_debug};
use vstd::prelude::*;
use vstd::string::*;

verus! {

/// The text is the hexadecimal form of a hash.
pub open spec fn is_hash_text(s: Seq<char>) -> bool {
    is_digest_hex(utf8(s))
}

/// Reads the key of an entry from the command line.
pub fn parse_cache_key(hex: &str) -> (r: Result<CacheKey, String>)
    ensures
        r is Ok <==> is_hash_text(hex@),
        r matches Ok(k) ==> k@ == unhex(utf8(hex@)),
        r matches Err(e) ==> e@ == "--key must be 64 hex chars (32 bytes), got "@ + str_debug(hex@),
{
    match ContentHash::from_hex(hex) {
        Some(h) => Ok(CacheKey::new(h)),
        None => {
            let q = quoted(hex);
            Err(cat2("--key must be 64 hex chars (32 bytes), got ", q.as_str()))
        },
    }
}

/// A stream to write out: the hash of what it held, and whether it goes to
/// standard error.
#[derive(Debug)]
pub struct LogPiece {
    pub hex: String,
    pub to_stderr: bool,
}

/// The views of the pieces.
pub open spec fn piece_views(v: Seq<LogPiece>) -> Seq<(Seq<char>, bool)> {
    v.map_values(|p: LogPiece| (p.hex@, p.to_stderr))
}

/// The pieces of a stream: one if it was captured and is wanted.
pub open spec fn stream_pieces(blob: Option<String>, wanted: bool, to_stderr: bool) -> Seq<(Seq<char>, bool)> {
    match blob {
        Some(h) => if wanted {
            seq![(h@, to_stderr)]
        } else {
            Seq::<(Seq<char>, bool)>::empty()
        },
        None => Seq::<(Seq<char>, bool)>::empty(),
    }
}

/// The streams to write out, standard output first. Each goes where it came
/// from, or both to standard output where they are merged.
pub fn log_pieces(args: &LogsArgs, entry: &AcEntry) -> (r: Vec<LogPiece>)
    ensures
        piece_views(r@) == stream_pieces(entry.stdout_blob, !args.stderr_only, false) + stream_pieces(entry.stderr_blob, !args.stdout_only, !args.merged),
{
    let mut out: Vec<LogPiece> = Vec::new();
    if !args.stderr_only {
        if let Some(h) = &entry.stdout_blob {
            out.push(LogPiece { hex: owned(h.as_str()), to_stderr: false });
        }
    }
    assert(piece_views(out@) == stream_pieces(entry.stdout_blob, !args.stderr_only, false));
    let ghost first = piece_views(out@);
    if !args.stdout_only {
        if let Some(h) = &entry.stderr_blob {
            out.push(LogPiece { hex: owned(h.as_str()), to_stderr: !args.merged });
            assert(piece_views(out@) == first.push((h@, !args.merged)));
        }
    }
    assert(piece_views(out@) == first + stream_pieces(entry.stderr_blob, !args.stdout_only, !args.merged));
    out
}

/// The hash of a captured stream.
pub fn blob_hash(hex: &str) -> (r: Result<ContentHash, String>)
    ensures
        r is Ok <==> is_hash_text(hex@),
        r matches Ok(h) ==> h@ == unhex(utf8(hex@)),
        r matches Err(e) ==> e@ == "malformed cache-key hex in AC entry: "@ + hex@,
{
    match ContentHash::from_hex(hex) {
        Some(h) => Ok(h),
        None => Err(cat2("malformed cache-key hex in AC entry: ", hex)),
    }
}

/// The complaint about a captured stream that is gone.
pub fn missing_blob(hex: &str) -> (r: String)
    ensures
        r@ == "log blob "@ + hex@ + " missing from CAS (evicted?)"@,
{
    cat3("log blob ", hex, " missing from CAS (evicted?)")
}

/// The complaint where nothing was recorded.
pub fn missing_entry(id: &TargetId, key: &CacheKey) -> (r: String)
    ensures
        r@ == "no cached AC entry for "@ + id@ + " at key "@ + crate::digest::hex_of(key@) + "\n(run the target first, or check capture_logs is on)"@,
{
    let k = key.to_hex();
    cat5("no cached AC entry for ", id.as_str(), " at key ", k.as_str(), "\n(run the target first, or check capture_logs is on)")
}

/// The remark where a run was recorded and nothing of it captured.
pub fn nothing_captured(id: &TargetId, key: &CacheKey, entry: &AcEntry) -> (r: Option<String>)
    ensures
        r is Some <==> entry.stdout_blob is None && entry.stderr_blob is None,
        r matches Some(m) ==> m@ == "no captured logs for "@ + id@ + " (cache_key="@ + crate::digest::hex_of(key@) + (", exit_code="@ + code_text(entry.exit_code)
            + "). cache.capture_logs may have been off when this entry was written."@),
{
    if entry.stdout_blob.is_some() || entry.stderr_blob.is_some() {
        return None;
    }
    let k = key.to_hex();
    let c = code_string(entry.exit_code);
    let tail = cat3(", exit_code=", c.as_str(), "). cache.capture_logs may have been off when this entry was written.");
    Some(cat5("no captured logs for ", id.as_str(), " (cache_key=", k.as_str(), tail.as_str()))
}

/// What of a run is written out: standard output unless only standard error is
/// wanted, and standard error unless only standard output is, each as far as it
/// was captured and in this order.
pub proof fn law_pieces(stdout: Option<String>, stderr: Option<String>, stdout_only: bool, stderr_only: bool, merged: bool)
    ensures
        ({
            let v = stream_pieces(stdout, !stderr_only, false) + stream_pieces(stderr, !stdout_only, !merged);
            let out = stdout is Some && !stderr_only;
            let err = stderr is Some && !stdout_only;
            &&& v.len() == (if out { 1int } else { 0 }) + (if err { 1int } else { 0 })
            &&& out ==> v[0].0 == stdout->0@ && !v[0].1
            &&& err ==> v.last().0 == stderr->0@ && (v.last().1 <==> !merged)
        }),
{
}

} // verus!

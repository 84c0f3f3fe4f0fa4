//! The course of a run: from the sandbox to the upload, one step after the
//! other. Whoever does a step reports how it went and is told the next.

use crate::digest::hex_of;
use crate::executor::{granted, run_error, run_failure, stores_stream, uploads, LogCapture, RunEnd, TargetResult};
use crate::model::{out_paths_of, CacheKey, ContentHash, TargetSpec};
use crate::outputs::{ac_entry, entry_records, output_parent_to_create, parent_to_create, AcEntry, OutputFile, AC_SCHEMA};
use crate::paths::{is_below, path_is_below, path_relative, path_set, relative_to, sort_paths, OutputPath};
use crate::remote::UploadJob;
use crate::text::{cat3, strs};
use crate::walk::{quoted, str_debug};
use vstd::prelude::*;
use vstd::string::*;

verus! {

/// What to do next for a target that runs.
#[derive(Debug)]
pub enum RunStep {
    /// Set up the sandbox and wrap the command for it.
    Wrap,
    /// Make these directories below the workspace, then start the command.
    Start { dirs: Vec<String> },
    /// Wait for the command.
    Wait,
    /// Hash and store what the command produced.
    Capture,
    /// Store what a stream wrote.
    Store { bytes: Vec<u8> },
    /// Write the cache entry.
    Write,
    /// Read the blobs of these hashes back, for the uploader.
    Upload { hashes: Vec<ContentHash> },
    End(TargetResult),
}

/// How far a run has come.
#[derive(Debug, Clone, Copy, PartialEq, Eq, Structural)]
pub enum Stage {
    Wrapping,
    Starting,
    Waiting,
    Capturing,
    StoringStdout,
    StoringStderr,
    Writing,
    Uploading,
    Over,
}

/// A run of a target.
#[derive(Debug)]
pub struct TargetRun<'a> {
    spec: &'a TargetSpec,
    key: CacheKey,
    log: LogCapture,
    uploader: bool,
    stage: Stage,
    allowed: Option<Vec<String>>,
    stdout: Vec<u8>,
    stderr: Vec<u8>,
    outputs: Vec<OutputFile>,
    stdout_blob: Option<ContentHash>,
    stderr_blob: Option<ContentHash>,
    entry: Option<AcEntry>,
}

/// The directories to make before a command runs, in the order of its outputs.
pub open spec fn dirs_to_create(outputs: Seq<Seq<char>>) -> Seq<Seq<char>>
    decreases outputs.len(),
{
    if outputs.len() == 0 {
        Seq::<Seq<char>>::empty()
    } else {
        let rest = dirs_to_create(outputs.drop_last());
        match parent_to_create(outputs.last()) {
            Some(d) => rest.push(d),
            None => rest,
        }
    }
}

fn create_dirs(outputs: &Vec<OutputPath>) -> (r: Vec<String>)
    ensures
        strs(r@) == dirs_to_create(out_paths_of(outputs@)),
{
    let ghost ov = out_paths_of(outputs@);
    let mut out: Vec<String> = Vec::new();
    let mut i: usize = 0;
    assert(strs(out@) == dirs_to_create(ov.take(0)));
    while i < outputs.len()
        invariant
            i <= outputs.len(),
            ov == out_paths_of(outputs@),
            strs(out@) == dirs_to_create(ov.take(i as int)),
        decreases outputs.len() - i,
    {
        let text = outputs[i].as_str();
        assert(ov.take(i + 1).drop_last() == ov.take(i as int));
        assert(ov.take(i + 1).last() == text@);
        let ghost before = strs(out@);
        match output_parent_to_create(text) {
            Some(d) => {
                let ghost dv = d@;
                out.push(d);
                assert(strs(out@) == before.push(dv));
            },
            None => {},
        }
        i = i + 1;
    }
    assert(ov.take(i as int) == ov);
    out
}

/// A hash as the text by which an entry names it.
pub open spec fn hash_text(h: Option<ContentHash>) -> Option<Seq<char>> {
    match h {
        Some(x) => Some(hex_of(x@)),
        None => None,
    }
}

/// A text, if there is one.
pub open spec fn text_in(s: Option<String>) -> Option<Seq<char>> {
    match s {
        Some(x) => Some(x@),
        None => None,
    }
}

fn hash_string(h: &Option<ContentHash>) -> (r: Option<String>)
    ensures
        text_in(r) == hash_text(*h),
{
    match h {
        Some(x) => Some(x.to_hex()),
        None => None,
    }
}

/// The hashes of what goes to the uploader: the outputs, then the streams that
/// were stored.
pub open spec fn shipped(outputs: Seq<OutputFile>, stdout: Option<ContentHash>, stderr: Option<ContentHash>) -> Seq<ContentHash> {
    let files = outputs.map_values(|o: OutputFile| o.content_hash);
    let first = match stdout {
        Some(h) => files.push(h),
        None => files,
    };
    match stderr {
        Some(h) => first.push(h),
        None => first,
    }
}

/// The blobs that could be read back, each with its hash.
pub open spec fn found_blobs(hashes: Seq<ContentHash>, read: Seq<Option<Vec<u8>>>) -> Seq<(ContentHash, Vec<u8>)>
    decreases read.len(),
{
    if read.len() == 0 {
        Seq::<(ContentHash, Vec<u8>)>::empty()
    } else {
        let rest = found_blobs(hashes, read.drop_last());
        match read.last() {
            Some(b) => rest.push((hashes[read.len() - 1], b)),
            None => rest,
        }
    }
}

impl RunStep {
    /// The run failed, with this message.
    pub open spec fn fails(&self, message: Seq<char>) -> bool {
        *self matches RunStep::End(TargetResult::Failed { error }) && error@ == message
    }

    /// The run succeeded.
    pub open spec fn builds(&self, ms: u64, files: Seq<OutputFile>) -> bool {
        *self matches RunStep::End(TargetResult::Built { duration_ms, outputs }) && duration_ms == ms && outputs@ == files
    }

    /// The command starts once these directories are there.
    pub open spec fn starts(&self, names: Seq<Seq<char>>) -> bool {
        *self matches RunStep::Start { dirs } && strs(dirs@) == names
    }

    /// What a stream wrote is stored.
    pub open spec fn stores(&self, content: Seq<u8>) -> bool {
        *self matches RunStep::Store { bytes } && bytes@ == content
    }
}

impl<'a> TargetRun<'a> {
    pub closed spec fn spec(&self) -> TargetSpec {
        *self.spec
    }

    pub closed spec fn key(&self) -> CacheKey {
        self.key
    }

    pub closed spec fn log(&self) -> LogCapture {
        self.log
    }

    pub closed spec fn uploader(&self) -> bool {
        self.uploader
    }

    pub closed spec fn stage(&self) -> Stage {
        self.stage
    }

    /// The paths that a sandboxed command was granted.
    pub closed spec fn allowed(&self) -> Option<Seq<Seq<char>>> {
        granted(self.allowed)
    }

    /// What the streams wrote, until it is stored.
    pub closed spec fn stdout(&self) -> Seq<u8> {
        self.stdout@
    }

    pub closed spec fn stderr(&self) -> Seq<u8> {
        self.stderr@
    }

    pub closed spec fn outputs(&self) -> Seq<OutputFile> {
        self.outputs@
    }

    /// The hashes under which the streams were stored.
    pub closed spec fn stdout_blob(&self) -> Option<ContentHash> {
        self.stdout_blob
    }

    pub closed spec fn stderr_blob(&self) -> Option<ContentHash> {
        self.stderr_blob
    }

    /// The cache entry.
    pub closed spec fn made(&self) -> Option<AcEntry> {
        self.entry
    }

    /// What never changes in the course of a run.
    pub open spec fn same_run(&self, other: TargetRun<'a>) -> bool {
        &&& self.spec() == other.spec()
        &&& self.key() == other.key()
        &&& self.log() == other.log()
        &&& self.uploader() == other.uploader()
    }

    /// A stream that wrote something is stored where capturing is on.
    pub open spec fn keeps(&self, bytes: Seq<u8>) -> bool {
        self.log().capture && bytes.len() > 0
    }

    /// `e` is the entry of this run: of its target and key, with its outputs
    /// and streams.
    pub open spec fn entry_fits(&self, e: AcEntry) -> bool {
        &&& e.schema == AC_SCHEMA
        &&& e.target_id@ == self.spec().id@
        &&& e.cache_key@ == hex_of(self.key()@)
        &&& e.command@ == self.spec().command@
        &&& e.cwd@ == self.spec().cwd@
        &&& entry_records(e, self.outputs())
        &&& text_in(e.stdout_blob) == hash_text(self.stdout_blob())
        &&& text_in(e.stderr_blob) == hash_text(self.stderr_blob())
        &&& e.exit_code == 0
        &&& e.built_by is None
    }

    /// There is an entry from the moment it is to be written, and only of a
    /// target that takes part in caching; the streams go to the store only of
    /// such a target, and the entry to the uploader only where there is one.
    pub closed spec fn well_formed(&self) -> bool {
        &&& self.entry is Some <==> self.stage is Writing || self.stage is Uploading
        &&& self.entry matches Some(e) ==> self.entry_fits(e)
        &&& self.stage is StoringStdout || self.stage is StoringStderr || self.stage is Writing || self.stage is Uploading ==> self.spec.cacheable()
        &&& self.stage is Uploading ==> self.spec.remote_cache && self.uploader
        &&& !(self.stage is StoringStderr || self.stage is Writing || self.stage is Uploading || self.stage is Over) ==> self.stdout_blob is None
        &&& !(self.stage is Writing || self.stage is Uploading || self.stage is Over) ==> self.stderr_blob is None
    }

    /// Nothing is kept of a target that takes no part in caching: neither its
    /// streams nor an entry nor an upload. What is written is the entry of the
    /// outputs that were captured, and what is uploaded was written before.
    pub proof fn law_what_is_kept(&self)
        requires
            self.well_formed(),
        ensures
            !self.spec().cacheable() ==> self.made() is None && !(self.stage() is StoringStdout) && !(self.stage() is StoringStderr) && !(self.stage() is Writing) && !(self.stage() is Uploading),
            self.stage() is Writing || self.stage() is Uploading ==> self.made() is Some && self.entry_fits(self.made()->0),
            self.stage() is Uploading ==> self.spec().remote_cache && self.uploader(),
    {
    }

    /// A run begins. `sandbox` says whether commands run in the sandbox; a
    /// target may be exempt.
    pub fn begin(spec: &'a TargetSpec, key: CacheKey, log: LogCapture, uploader: bool, sandbox: bool) -> (r: (TargetRun<'a>, RunStep))
        ensures
            r.0.well_formed(),
            r.0.spec() == *spec,
            r.0.key() == key,
            r.0.log() == log,
            r.0.uploader() == uploader,
            r.0.allowed() is None,
            if sandbox && spec.sandbox {
                r.0.stage() is Wrapping && r.1 is Wrap
            } else {
                r.0.stage() is Starting && r.1.starts(dirs_to_create(out_paths_of(spec.outputs@)))
            },
    {
        let wrap = sandbox && spec.sandbox;
        let run = TargetRun {
            spec,
            key,
            log,
            uploader,
            stage: if wrap { Stage::Wrapping } else { Stage::Starting },
            allowed: None,
            stdout: Vec::new(),
            stderr: Vec::new(),
            outputs: Vec::new(),
            stdout_blob: None,
            stderr_blob: None,
            entry: None,
        };
        if wrap {
            (run, RunStep::Wrap)
        } else {
            (run, RunStep::Start { dirs: create_dirs(&spec.outputs) })
        }
    }

    fn fail(&mut self, end: RunEnd) -> (r: RunStep)
        requires
            old(self).well_formed(),
            !(end is Exited),
        ensures
            final(self).well_formed(),
            final(self).same_run(*old(self)),
            final(self).stage() is Over,
            run_error(end, old(self).spec().timeout_secs, old(self).allowed(), old(self).stderr(), old(self).spec().network) matches Some(m) && r.fails(m),
    {
        self.stage = Stage::Over;
        self.entry = None;
        match run_failure(&end, self.spec, &self.allowed, self.stderr.as_slice()) {
            Some(error) => RunStep::End(TargetResult::Failed { error }),
            None => RunStep::End(TargetResult::Failed { error: String::new() }),
        }
    }

    fn succeed(&mut self, elapsed_ms: u64) -> (r: RunStep)
        requires
            old(self).well_formed(),
        ensures
            final(self).well_formed(),
            final(self).same_run(*old(self)),
            final(self).stage() is Over,
            r.builds(elapsed_ms, old(self).outputs()),
    {
        self.stage = Stage::Over;
        self.entry = None;
        let mut outputs: Vec<OutputFile> = Vec::new();
        outputs.append(&mut self.outputs);
        RunStep::End(TargetResult::Built { duration_ms: elapsed_ms, outputs })
    }

    /// The sandbox is set up, with these paths granted, or could not be.
    pub fn wrapped(&mut self, r: Result<Vec<String>, String>) -> (step: RunStep)
        requires
            old(self).well_formed(),
            old(self).stage() is Wrapping,
        ensures
            final(self).well_formed(),
            final(self).same_run(*old(self)),
            match r {
                Ok(v) => {
                    &&& final(self).stage() is Starting
                    &&& final(self).allowed() == Some(strs(v@))
                    &&& step.starts(dirs_to_create(out_paths_of(old(self).spec().outputs@)))
                },
                Err(e) => final(self).stage() is Over && step.fails("sandbox setup failed: "@ + e@),
            },
    {
        match r {
            Ok(v) => {
                self.allowed = Some(v);
                self.stage = Stage::Starting;
                RunStep::Start { dirs: create_dirs(&self.spec.outputs) }
            },
            Err(e) => self.fail(RunEnd::SandboxSetup(e)),
        }
    }

    /// The command was started, or could not be.
    pub fn started(&mut self, r: Result<(), String>) -> (step: RunStep)
        requires
            old(self).well_formed(),
            old(self).stage() is Starting,
        ensures
            final(self).well_formed(),
            final(self).same_run(*old(self)),
            match r {
                Ok(_) => final(self).stage() is Waiting && final(self).allowed() == old(self).allowed() && step is Wait,
                Err(e) => final(self).stage() is Over && step.fails("spawn failed: "@ + e@),
            },
    {
        match r {
            Ok(_) => {
                self.stage = Stage::Waiting;
                RunStep::Wait
            },
            Err(e) => self.fail(RunEnd::Spawn(e)),
        }
    }

    /// The command ended, with what its streams wrote.
    pub fn ended(&mut self, end: RunEnd, stdout: Vec<u8>, stderr: Vec<u8>) -> (step: RunStep)
        requires
            old(self).well_formed(),
            old(self).stage() is Waiting,
        ensures
            final(self).well_formed(),
            final(self).same_run(*old(self)),
            match run_error(end, old(self).spec().timeout_secs, old(self).allowed(), stderr@, old(self).spec().network) {
                Some(m) => final(self).stage() is Over && step.fails(m),
                None => final(self).stage() is Capturing && final(self).stdout() == stdout@ && final(self).stderr() == stderr@ && step is Capture,
            },
    {
        self.stdout = stdout;
        self.stderr = stderr;
        match run_failure(&end, self.spec, &self.allowed, self.stderr.as_slice()) {
            Some(error) => {
                self.stage = Stage::Over;
                RunStep::End(TargetResult::Failed { error })
            },
            None => {
                self.stage = Stage::Capturing;
                RunStep::Capture
            },
        }
    }

    /// The entry, once everything that it names is stored.
    fn write(&mut self, elapsed_ms: u64, now: String) -> (step: RunStep)
        requires
            old(self).spec().cacheable(),
            !(old(self).stage() is Writing),
        ensures
            final(self).well_formed(),
            final(self).same_run(*old(self)),
            final(self).stage() is Writing,
            final(self).outputs() == old(self).outputs(),
            final(self).stdout_blob() == old(self).stdout_blob(),
            final(self).stderr_blob() == old(self).stderr_blob(),
            final(self).made() matches Some(e) && e.duration_ms == elapsed_ms && e.built_at == now,
            step is Write,
    {
        let out = hash_string(&self.stdout_blob);
        let err = hash_string(&self.stderr_blob);
        self.entry = Some(ac_entry(self.spec, &self.key, &self.outputs, out, err, elapsed_ms, now));
        self.stage = Stage::Writing;
        RunStep::Write
    }

    /// The second stream, or the entry.
    fn store_stderr(&mut self, elapsed_ms: u64, now: String) -> (step: RunStep)
        requires
            old(self).spec().cacheable(),
            old(self).made() is None,
            old(self).stderr_blob() is None,
            !(old(self).stage() is Writing),
        ensures
            final(self).well_formed(),
            final(self).same_run(*old(self)),
            final(self).outputs() == old(self).outputs(),
            final(self).stdout_blob() == old(self).stdout_blob(),
            final(self).stderr_blob() is None,
            if old(self).keeps(old(self).stderr()) {
                final(self).stage() is StoringStderr && step.stores(old(self).stderr())
            } else {
                &&& final(self).stage() is Writing
                &&& step is Write
                &&& final(self).made() matches Some(e) && e.duration_ms == elapsed_ms && e.built_at == now
            },
    {
        if stores_stream(self.spec, &self.log, &self.stderr) {
            self.stage = Stage::StoringStderr;
            let mut bytes: Vec<u8> = Vec::new();
            bytes.append(&mut self.stderr);
            RunStep::Store { bytes }
        } else {
            self.write(elapsed_ms, now)
        }
    }

    /// The outputs were captured, or could not be. Of a target that takes no
    /// part in caching that is all.
    pub fn captured(&mut self, r: Result<Vec<OutputFile>, String>, elapsed_ms: u64, now: String) -> (step: RunStep)
        requires
            old(self).well_formed(),
            old(self).stage() is Capturing,
        ensures
            final(self).well_formed(),
            final(self).same_run(*old(self)),
            match r {
                Err(e) => final(self).stage() is Over && step.fails("capture outputs: "@ + e@),
                Ok(v) => if !old(self).spec().cacheable() {
                    final(self).stage() is Over && step.builds(elapsed_ms, v@)
                } else {
                    &&& final(self).outputs() == v@
                    &&& final(self).stdout_blob() is None
                    &&& final(self).stderr_blob() is None
                    &&& if old(self).keeps(old(self).stdout()) {
                        final(self).stage() is StoringStdout && step.stores(old(self).stdout()) && final(self).stderr() == old(self).stderr()
                    } else if old(self).keeps(old(self).stderr()) {
                        final(self).stage() is StoringStderr && step.stores(old(self).stderr())
                    } else {
                        &&& final(self).stage() is Writing
                        &&& step is Write
                        &&& final(self).made() matches Some(e) && e.duration_ms == elapsed_ms && e.built_at == now
                    }
                },
            },
    {
        match r {
            Err(e) => self.fail(RunEnd::Capture(e)),
            Ok(v) => {
                self.outputs = v;
                if !self.spec.is_cacheable() {
                    self.succeed(elapsed_ms)
                } else if stores_stream(self.spec, &self.log, &self.stdout) {
                    self.stage = Stage::StoringStdout;
                    let mut bytes: Vec<u8> = Vec::new();
                    bytes.append(&mut self.stdout);
                    RunStep::Store { bytes }
                } else {
                    self.store_stderr(elapsed_ms, now)
                }
            },
        }
    }

    /// A stream was stored under this hash, or could not be.
    pub fn stored(&mut self, r: Result<ContentHash, String>, elapsed_ms: u64, now: String) -> (step: RunStep)
        requires
            old(self).well_formed(),
            old(self).stage() is StoringStdout || old(self).stage() is StoringStderr,
        ensures
            final(self).well_formed(),
            final(self).same_run(*old(self)),
            match r {
                Err(e) => final(self).stage() is Over && step.fails(if old(self).stage() is StoringStdout {
                    "write stdout blob: "@ + e@
                } else {
                    "write stderr blob: "@ + e@
                }),
                Ok(h) => {
                    &&& final(self).outputs() == old(self).outputs()
                    &&& if old(self).stage() is StoringStdout {
                        &&& final(self).stdout_blob() == Some(h)
                        &&& final(self).stderr_blob() is None
                    } else {
                        &&& final(self).stdout_blob() == old(self).stdout_blob()
                        &&& final(self).stderr_blob() == Some(h)
                    }
                    &&& if old(self).stage() is StoringStdout && old(self).keeps(old(self).stderr()) {
                        final(self).stage() is StoringStderr && step.stores(old(self).stderr())
                    } else {
                        &&& final(self).stage() is Writing
                        &&& step is Write
                        &&& final(self).made() matches Some(e) && e.duration_ms == elapsed_ms && e.built_at == now
                    }
                },
            },
    {
        match self.stage {
            Stage::StoringStdout => match r {
                Ok(h) => {
                    self.stdout_blob = Some(h);
                    self.store_stderr(elapsed_ms, now)
                },
                Err(e) => self.fail(RunEnd::StdoutBlob(e)),
            },
            _ => match r {
                Ok(h) => {
                    self.stderr_blob = Some(h);
                    self.write(elapsed_ms, now)
                },
                Err(e) => self.fail(RunEnd::StderrBlob(e)),
            },
        }
    }

    /// The entry to write.
    pub fn entry(&self) -> (r: Option<&AcEntry>)
        ensures
            r is Some <==> self.made() is Some,
            r matches Some(e) ==> self.made() == Some(*e),
    {
        self.entry.as_ref()
    }

    fn hashes(&self) -> (r: Vec<ContentHash>)
        ensures
            r@ == shipped(self.outputs(), self.stdout_blob(), self.stderr_blob()),
    {
        let ghost files = self.outputs@.map_values(|o: OutputFile| o.content_hash);
        let mut out: Vec<ContentHash> = Vec::new();
        let mut i: usize = 0;
        while i < self.outputs.len()
            invariant
                i <= self.outputs.len(),
                files == self.outputs@.map_values(|o: OutputFile| o.content_hash),
                out@ == files.take(i as int),
            decreases self.outputs.len() - i,
        {
            out.push(self.outputs[i].content_hash);
            assert(out@ == files.take(i + 1));
            i = i + 1;
        }
        assert(files.take(i as int) == files);
        match self.stdout_blob {
            Some(h) => {
                out.push(h);
            },
            None => {},
        }
        match self.stderr_blob {
            Some(h) => {
                out.push(h);
            },
            None => {},
        }
        out
    }

    /// The entry was written, or could not be.
    pub fn written(&mut self, r: Result<(), String>, elapsed_ms: u64) -> (step: RunStep)
        requires
            old(self).well_formed(),
            old(self).stage() is Writing,
        ensures
            final(self).well_formed(),
            final(self).same_run(*old(self)),
            match r {
                Err(e) => final(self).stage() is Over && step.fails("cache write: "@ + e@),
                Ok(_) => if old(self).spec().remote_cache && old(self).uploader() {
                    &&& final(self).stage() is Uploading
                    &&& final(self).outputs() == old(self).outputs()
                    &&& final(self).stdout_blob() == old(self).stdout_blob()
                    &&& final(self).stderr_blob() == old(self).stderr_blob()
                    &&& final(self).made() == old(self).made()
                    &&& step matches RunStep::Upload { hashes } && hashes@ == shipped(old(self).outputs(), old(self).stdout_blob(), old(self).stderr_blob())
                } else {
                    final(self).stage() is Over && step.builds(elapsed_ms, old(self).outputs())
                },
            },
    {
        match r {
            Err(e) => self.fail(RunEnd::CacheWrite(e)),
            Ok(_) => {
                if uploads(self.spec, self.uploader) {
                    self.stage = Stage::Uploading;
                    RunStep::Upload { hashes: self.hashes() }
                } else {
                    self.succeed(elapsed_ms)
                }
            },
        }
    }

    /// The blobs were read back, as far as they could be: the job for the
    /// uploader. A blob that is missing does not hold the others up.
    pub fn uploading(&mut self, read: Vec<Option<Vec<u8>>>, elapsed_ms: u64) -> (r: (Option<UploadJob>, RunStep))
        requires
            old(self).well_formed(),
            old(self).stage() is Uploading,
            read@.len() == shipped(old(self).outputs(), old(self).stdout_blob(), old(self).stderr_blob()).len(),
        ensures
            final(self).well_formed(),
            final(self).same_run(*old(self)),
            final(self).stage() is Over,
            r.0 matches Some(job) && {
                &&& job.cache_key == old(self).key()
                &&& old(self).made() == Some(job.ac_entry)
                &&& job.blobs@ == found_blobs(shipped(old(self).outputs(), old(self).stdout_blob(), old(self).stderr_blob()), read@)
            },
            r.1.builds(elapsed_ms, old(self).outputs()),
    {
        let hashes = self.hashes();
        let n: usize = hashes.len();
        let ghost all = read@;
        let mut blobs: Vec<(ContentHash, Vec<u8>)> = Vec::new();
        let mut i: usize = 0;
        assert(blobs@ == found_blobs(hashes@, all.take(0)));
        for found in it: read.into_iter()
            invariant
                it.seq() == all,
                i == it.index(),
                all.len() == n,
                hashes@.len() == n,
                blobs@ == found_blobs(hashes@, all.take(it.index() as int)),
        {
            assert(i < all.len());
            assert(all.take(i + 1).drop_last() == all.take(i as int));
            assert(all.take(i + 1).last() == found);
            match found {
                Some(b) => {
                    blobs.push((hashes[i], b));
                },
                None => {},
            }
            i = i + 1;
        }
        assert(all.take(all.len() as int) == all);
        let job = match self.entry.take() {
            Some(ac_entry) => Some(UploadJob { cache_key: self.key, ac_entry, blobs }),
            None => None,
        };
        self.stage = Stage::Over;
        let mut outputs: Vec<OutputFile> = Vec::new();
        outputs.append(&mut self.outputs);
        (job, RunStep::End(TargetResult::Built { duration_ms: elapsed_ms, outputs }))
    }
}

/// Why a file outside the workspace is no output.
pub open spec fn escaped_text(path: Seq<char>) -> Seq<char> {
    "captured output "@ + str_debug(path) + " escaped the workspace"@
}

/// The files to capture, in order and each once, with their paths below the
/// workspace. A file outside is an error.
pub fn captured_paths(files: &Vec<String>, workspace: &str) -> (r: Result<Vec<(String, String)>, String>)
    ensures
        r is Ok <==> forall|i: int| 0 <= i < path_set(strs(files@)).len() ==> is_below(#[trigger] path_set(strs(files@))[i], workspace@),
        r matches Ok(v) ==> v@.len() == path_set(strs(files@)).len() && forall|i: int| 0 <= i < v@.len() ==> (#[trigger] v@[i]).0@ == path_set(strs(files@))[i] && v@[i].1@ == relative_to(v@[i].0@, workspace@),
        r matches Err(m) ==> exists|i: int| #![trigger path_set(strs(files@))[i]] {
            &&& 0 <= i < path_set(strs(files@)).len()
            &&& !is_below(path_set(strs(files@))[i], workspace@)
            &&& forall|j: int| 0 <= j < i ==> is_below(#[trigger] path_set(strs(files@))[j], workspace@)
            &&& m@ == escaped_text(path_set(strs(files@))[i])
        },
{
    let sorted = sort_paths(files);
    let ghost sv = path_set(strs(files@));
    let mut out: Vec<(String, String)> = Vec::new();
    let mut i: usize = 0;
    while i < sorted.len()
        invariant
            i <= sorted.len(),
            sv == path_set(strs(files@)),
            sv == strs(sorted@),
            out.len() == i,
            forall|k: int| 0 <= k < i ==> is_below(#[trigger] sv[k], workspace@),
            forall|k: int| 0 <= k < i ==> (#[trigger] out@[k]).0@ == sv[k] && out@[k].1@ == relative_to(out@[k].0@, workspace@),
        decreases sorted.len() - i,
    {
        assert(sv[i as int] == sorted@[i as int]@);
        if !path_is_below(sorted[i].as_str(), workspace) {
            let q = quoted(sorted[i].as_str());
            let m = cat3("captured output ", q.as_str(), " escaped the workspace");
            assert(m@ == escaped_text(sv[i as int]));
            return Err(m);
        }
        let rel = path_relative(sorted[i].as_str(), workspace);
        out.push((sorted[i].clone(), rel));
        i = i + 1;
    }
    Ok(out)
}

/// Every directory that an output needs is made before the command runs, and no
/// other.
pub proof fn law_dirs_to_create(outputs: Seq<Seq<char>>, x: Seq<char>)
    ensures
        dirs_to_create(outputs).contains(x) <==> exists|i: int| 0 <= i < outputs.len() && parent_to_create(#[trigger] outputs[i]) == Some(x),
    decreases outputs.len(),
{
    if outputs.len() > 0 {
        let f = outputs.drop_last();
        let rest = dirs_to_create(f);
        law_dirs_to_create(f, x);
        match parent_to_create(outputs.last()) {
            Some(d) => {
                crate::order::lemma_push_contains(rest, d, x);
                if d == x {
                    assert(parent_to_create(outputs[outputs.len() - 1]) == Some(x));
                }
            },
            None => {},
        }
        if rest.contains(x) {
            let i = choose|i: int| 0 <= i < f.len() && parent_to_create(#[trigger] f[i]) == Some(x);
            assert(outputs[i] == f[i]);
        }
        if exists|i: int| 0 <= i < outputs.len() && parent_to_create(#[trigger] outputs[i]) == Some(x) {
            let i = choose|i: int| 0 <= i < outputs.len() && parent_to_create(#[trigger] outputs[i]) == Some(x);
            if i < f.len() {
                assert(f[i] == outputs[i]);
            }
        }
    }
}

/// What goes to the uploader is the content of every output and both streams,
/// where they were stored, and nothing else.
pub proof fn law_shipped(outputs: Seq<OutputFile>, stdout: Option<ContentHash>, stderr: Option<ContentHash>, x: ContentHash)
    ensures
        shipped(outputs, stdout, stderr).contains(x) <==> stdout == Some(x) || stderr == Some(x) || exists|i: int| 0 <= i < outputs.len() && (#[trigger] outputs[i]).content_hash == x,
        shipped(outputs, stdout, stderr).len() == outputs.len() + (if stdout is Some { 1int } else { 0 }) + (if stderr is Some { 1int } else { 0 }),
{
    let files = outputs.map_values(|o: OutputFile| o.content_hash);
    let first = match stdout {
        Some(h) => files.push(h),
        None => files,
    };
    if let Some(h) = stdout {
        crate::order::lemma_push_contains(files, h, x);
    }
    if let Some(h) = stderr {
        crate::order::lemma_push_contains(first, h, x);
    }
    if files.contains(x) {
        let i = choose|i: int| 0 <= i < files.len() && files[i] == x;
        assert(outputs[i].content_hash == x);
    }
    if exists|i: int| 0 <= i < outputs.len() && (#[trigger] outputs[i]).content_hash == x {
        let i = choose|i: int| 0 <= i < outputs.len() && (#[trigger] outputs[i]).content_hash == x;
        assert(files[i] == x);
    }
}

/// Every blob that could be read back is uploaded under its own hash.
pub proof fn law_found_blobs(hashes: Seq<ContentHash>, read: Seq<Option<Vec<u8>>>, i: int, b: Vec<u8>)
    requires
        hashes.len() == read.len(),
        0 <= i < read.len(),
        read[i] == Some(b),
    ensures
        found_blobs(hashes, read).contains((hashes[i], b)),
{
    lemma_found_blobs(hashes, read, i, b);
}

proof fn lemma_found_blobs(hashes: Seq<ContentHash>, read: Seq<Option<Vec<u8>>>, i: int, b: Vec<u8>)
    requires
        hashes.len() >= read.len(),
        0 <= i < read.len(),
        read[i] == Some(b),
    ensures
        found_blobs(hashes, read).contains((hashes[i], b)),
    decreases read.len(),
{
    let f = read.drop_last();
    let rest = found_blobs(hashes, f);
    if i < f.len() {
        assert(f[i] == read[i]);
        lemma_found_blobs(hashes, f, i, b);
    }
    match read.last() {
        Some(c) => {
            crate::order::lemma_push_contains(rest, (hashes[read.len() - 1], c), (hashes[i], b));
        },
        None => {},
    }
}

/// The entry that a run writes is the entry of that run: it names the target, the
/// key and the command, every output under its path with its hash, and the streams
/// under the hashes by which they were stored.
pub proof fn law_entry_of_run(run: TargetRun, e: AcEntry, i: int)
    requires
        run.well_formed(),
        run.made() == Some(e),
    ensures
        e.target_id@ == run.spec().id@,
        e.command@ == run.spec().command@,
        e.cwd@ == run.spec().cwd@,
        e.cache_key@ == hex_of(run.key()@),
        e.exit_code == 0,
        e.outputs@.len() == run.outputs().len(),
        0 <= i < run.outputs().len() ==> e.outputs@[i].path@ == run.outputs()[i].rel_path@ && e.outputs@[i].content_hash@ == hex_of(
            run.outputs()[i].content_hash@,
        ) && e.outputs@[i].mode@ == run.outputs()[i].mode@ && e.outputs@[i].symlink_target is None,
        run.stdout_blob() matches Some(h) ==> e.stdout_blob is Some && e.stdout_blob->0@ == hex_of(h@),
        run.stderr_blob() matches Some(h) ==> e.stderr_blob is Some && e.stderr_blob->0@ == hex_of(h@),
        run.stdout_blob() is None ==> e.stdout_blob is None,
        run.stderr_blob() is None ==> e.stderr_blob is None,
{
    assert(run.entry_fits(e));
    if 0 <= i < run.outputs().len() {
        assert(run.outputs()[i].recorded_as(e.outputs@[i]));
    }
}

/// What a stream wrote is stored exactly if capturing is on and it wrote something.
pub proof fn law_stream_kept(run: TargetRun, bytes: Seq<u8>)
    ensures
        run.keeps(bytes) <==> run.log().capture && bytes.len() > 0,
{
}

} // verus!

//! Restoring a target from a cache, local or remote, one step after the other.
//! Whoever does a step reports how it went and is told the next.

use crate::digest::{hex_of, sha256, unhex};
use crate::events::LogStream;
use crate::executor::{result_hash, LogCapture, TargetResult};
use crate::model::{CacheKey, ContentHash};
use crate::outputs::{blob_matches, entry_records, is_hash_text, output_views, outputs_bytes, AcEntry, OutputFile};
use crate::text::{cat2, owned, utf8};
use vstd::prelude::*;
use vstd::string::*;

verus! {

/// What to do next to restore a target from the local cache.
#[derive(Debug)]
pub enum HitStep {
    /// See whether the blob is there.
    Probe { hash: ContentHash },
    /// See whether this output is in the workspace as it should be.
    Look { at: usize, hash: ContentHash },
    /// Write this output from its blob.
    Restore { at: usize, hash: ContentHash },
    /// There is nothing to restore; look elsewhere.
    Miss,
    /// The entry is broken.
    Corrupt { path: String, detail: String },
    Hit(TargetResult),
}

/// How far a restore has come.
#[derive(Debug, Clone, Copy, PartialEq, Eq, Structural)]
pub enum HitStage {
    Probing,
    Looking,
    Restoring,
    Over,
}

/// A restore from the local cache.
#[derive(Debug)]
pub struct LocalHit {
    entry: AcEntry,
    key: CacheKey,
    stage: HitStage,
    at: usize,
    found: usize,
}

/// `s` names the hash `h`.
pub open spec fn names_hash(s: Seq<char>, h: ContentHash) -> bool {
    is_hash_text(s) && h@ == unhex(utf8(s))
}

/// Every output of the entry names a hash.
pub open spec fn outputs_named(e: AcEntry) -> bool {
    forall|i: int| 0 <= i < e.outputs@.len() ==> is_hash_text((#[trigger] e.outputs@[i]).content_hash@)
}

impl LocalHit {
    pub closed spec fn source(&self) -> AcEntry {
        self.entry
    }

    pub closed spec fn key(&self) -> CacheKey {
        self.key
    }

    pub closed spec fn stage(&self) -> HitStage {
        self.stage
    }

    /// The output in question.
    pub closed spec fn at(&self) -> int {
        self.at as int
    }

    /// How many blobs were found.
    pub closed spec fn found(&self) -> int {
        self.found as int
    }

    /// There is an output in question, and from the time on at which the
    /// workspace is touched every output names a hash and every blob was found.
    pub closed spec fn well_formed(&self) -> bool {
        &&& self.stage is Probing ==> self.found == self.at
        &&& self.stage is Looking || self.stage is Restoring ==> self.found == self.entry.outputs.len()
        &&& !(self.stage is Over) ==> self.at < self.entry.outputs.len()
        &&& !(self.stage is Over) ==> is_hash_text(self.entry.outputs@[self.at as int].content_hash@)
        &&& self.stage is Probing ==> forall|i: int| 0 <= i <= self.at ==> is_hash_text((#[trigger] self.entry.outputs@[i]).content_hash@)
        &&& self.stage is Looking || self.stage is Restoring ==> outputs_named(self.entry)
    }

    pub open spec fn same_hit(&self, other: LocalHit) -> bool {
        self.source() == other.source() && self.key() == other.key()
    }

    /// The end of a restore: the hash over all outputs is what the targets
    /// downstream see.
    pub open spec fn ends(&self, step: HitStep) -> bool {
        &&& self.stage() is Over
        &&& if is_hash_text(self.source().outputs_content_hash@) {
            step matches HitStep::Hit(TargetResult::CacheHit { output_hash }) && names_hash(self.source().outputs_content_hash@, output_hash)
        } else {
            step matches HitStep::Corrupt { path, detail } && path@ == "ac/"@ + hex_of(self.key()@) && detail@ == "outputs_content_hash field is not 32-byte hex"@
        }
    }

    /// Output `i` is looked at next; behind the last one the restore ends.
    pub open spec fn looks(&self, step: HitStep, i: int) -> bool {
        if i < self.source().outputs@.len() {
            &&& self.stage() is Looking
            &&& self.at() == i
            &&& step matches HitStep::Look { at, hash } && at == i && names_hash(self.source().outputs@[i].content_hash@, hash)
        } else {
            self.ends(step)
        }
    }

    /// The blob of output `i` is probed next; behind the last one the outputs
    /// are looked at.
    pub open spec fn probes(&self, step: HitStep, i: int) -> bool {
        if i < self.source().outputs@.len() {
            if is_hash_text(self.source().outputs@[i].content_hash@) {
                &&& self.stage() is Probing
                &&& self.at() == i
                &&& step matches HitStep::Probe { hash } && names_hash(self.source().outputs@[i].content_hash@, hash)
            } else {
                self.stage() is Over && step is Miss
            }
        } else {
            self.looks(step, 0)
        }
    }

    /// Nothing in the workspace is touched before every blob was found.
    pub proof fn law_probed_first(&self)
        requires
            self.well_formed(),
            self.stage() is Looking || self.stage() is Restoring,
        ensures
            self.found() == self.source().outputs@.len(),
            outputs_named(self.source()),
    {
    }

    /// A restore of what the entry names.
    pub fn begin(entry: AcEntry, key: CacheKey) -> (r: (LocalHit, HitStep))
        ensures
            r.0.well_formed(),
            r.0.source() == entry,
            r.0.key() == key,
            r.0.found() == 0,
            r.0.probes(r.1, 0),
    {
        let mut hit = LocalHit { entry, key, stage: HitStage::Over, at: 0, found: 0 };
        let step = hit.probe(0);
        (hit, step)
    }

    fn end(&mut self) -> (step: HitStep)
        ensures
            final(self).well_formed(),
            final(self).same_hit(*old(self)),
            final(self).found() == old(self).found(),
            final(self).ends(step),
    {
        self.stage = HitStage::Over;
        match ContentHash::from_hex(self.entry.outputs_content_hash.as_str()) {
            Some(output_hash) => HitStep::Hit(TargetResult::CacheHit { output_hash }),
            None => {
                let hex = self.key.to_hex();
                HitStep::Corrupt { path: cat2("ac/", hex.as_str()), detail: owned("outputs_content_hash field is not 32-byte hex") }
            },
        }
    }

    fn look(&mut self, i: usize) -> (step: HitStep)
        requires
            outputs_named(old(self).source()),
            old(self).found() == old(self).source().outputs@.len(),
        ensures
            final(self).well_formed(),
            final(self).same_hit(*old(self)),
            final(self).found() == old(self).found(),
            final(self).looks(step, i as int),
    {
        if i < self.entry.outputs.len() {
            self.stage = HitStage::Looking;
            self.at = i;
            assert(is_hash_text(self.entry.outputs@[i as int].content_hash@));
            match ContentHash::from_hex(self.entry.outputs[i].content_hash.as_str()) {
                Some(hash) => HitStep::Look { at: i, hash },
                None => HitStep::Miss,
            }
        } else {
            self.end()
        }
    }

    fn probe(&mut self, i: usize) -> (step: HitStep)
        requires
            forall|k: int| 0 <= k < i ==> is_hash_text((#[trigger] old(self).source().outputs@[k]).content_hash@),
            i == old(self).found() <= old(self).source().outputs@.len(),
        ensures
            final(self).well_formed(),
            final(self).same_hit(*old(self)),
            final(self).found() == old(self).found(),
            final(self).probes(step, i as int),
    {
        if i < self.entry.outputs.len() {
            match ContentHash::from_hex(self.entry.outputs[i].content_hash.as_str()) {
                Some(hash) => {
                    self.stage = HitStage::Probing;
                    self.at = i;
                    HitStep::Probe { hash }
                },
                None => {
                    self.stage = HitStage::Over;
                    HitStep::Miss
                },
            }
        } else {
            self.look(0)
        }
    }

    fn miss(&mut self) -> (step: HitStep)
        ensures
            final(self).well_formed(),
            final(self).same_hit(*old(self)),
            final(self).stage() is Over,
            step is Miss,
    {
        self.stage = HitStage::Over;
        HitStep::Miss
    }

    /// Whether the blob was there. One that is not makes it a miss.
    pub fn probed(&mut self, present: bool) -> (step: HitStep)
        requires
            old(self).well_formed(),
            old(self).stage() is Probing,
        ensures
            final(self).well_formed(),
            final(self).same_hit(*old(self)),
            if present {
                final(self).found() == old(self).found() + 1 && final(self).probes(step, old(self).at() + 1)
            } else {
                final(self).stage() is Over && step is Miss
            },
    {
        if present {
            let i: usize = self.at + 1;
            self.found = i;
            self.probe(i)
        } else {
            self.miss()
        }
    }

    /// Whether the output is in the workspace as it should be; if so it stays
    /// untouched.
    pub fn looked(&mut self, current: bool) -> (step: HitStep)
        requires
            old(self).well_formed(),
            old(self).stage() is Looking,
        ensures
            final(self).well_formed(),
            final(self).same_hit(*old(self)),
            if current {
                final(self).looks(step, old(self).at() + 1)
            } else {
                &&& final(self).stage() is Restoring
                &&& final(self).at() == old(self).at()
                &&& step matches HitStep::Restore { at, hash } && at == old(self).at() && names_hash(old(self).source().outputs@[old(self).at()].content_hash@, hash)
            },
    {
        let i: usize = self.at;
        if current {
            self.look(i + 1)
        } else {
            match ContentHash::from_hex(self.entry.outputs[i].content_hash.as_str()) {
                Some(hash) => {
                    self.stage = HitStage::Restoring;
                    HitStep::Restore { at: i, hash }
                },
                None => self.miss(),
            }
        }
    }

    /// Whether the output was written from its blob. A blob that went missing
    /// makes it a miss.
    pub fn restored(&mut self, found: bool) -> (step: HitStep)
        requires
            old(self).well_formed(),
            old(self).stage() is Restoring,
        ensures
            final(self).well_formed(),
            final(self).same_hit(*old(self)),
            if found {
                final(self).looks(step, old(self).at() + 1)
            } else {
                final(self).stage() is Over && step is Miss
            },
    {
        if found {
            let i: usize = self.at + 1;
            self.look(i)
        } else {
            self.miss()
        }
    }

    /// The entry that is restored.
    pub fn entry(&self) -> (r: &AcEntry)
        ensures
            *r == self.source(),
    {
        &self.entry
    }
}

/// The streams that an entry names, by their hashes. One that names none is
/// left out.
pub open spec fn stream_hash(s: Option<String>) -> Option<Seq<u8>> {
    match s {
        Some(t) => if is_hash_text(t@) {
            Some(unhex(utf8(t@)))
        } else {
            None
        },
        None => None,
    }
}

/// The streams that an entry names, standard output first.
pub open spec fn streams_of(e: AcEntry) -> Seq<(LogStream, Seq<u8>)> {
    let first = match stream_hash(e.stdout_blob) {
        Some(h) => seq![(LogStream::Stdout, h)],
        None => Seq::<(LogStream, Seq<u8>)>::empty(),
    };
    match stream_hash(e.stderr_blob) {
        Some(h) => first.push((LogStream::Stderr, h)),
        None => first,
    }
}

/// Streams with their hashes as bytes.
pub open spec fn stream_views(v: Seq<(LogStream, ContentHash)>) -> Seq<(LogStream, Seq<u8>)> {
    v.map_values(|p: (LogStream, ContentHash)| (p.0, p.1@))
}

fn stream(s: &Option<String>) -> (r: Option<ContentHash>)
    ensures
        r is Some <==> stream_hash(*s) is Some,
        r matches Some(h) ==> stream_hash(*s) == Some(h@),
{
    match s {
        Some(t) => ContentHash::from_hex(t.as_str()),
        None => None,
    }
}

/// The streams that an entry names, standard output first.
pub fn entry_streams(e: &AcEntry) -> (r: Vec<(LogStream, ContentHash)>)
    ensures
        stream_views(r@) == streams_of(*e),
{
    let mut out: Vec<(LogStream, ContentHash)> = Vec::new();
    match stream(&e.stdout_blob) {
        Some(h) => {
            out.push((LogStream::Stdout, h));
        },
        None => {},
    }
    let ghost before = stream_views(out@);
    match stream(&e.stderr_blob) {
        Some(h) => {
            out.push((LogStream::Stderr, h));
            assert(stream_views(out@) == before.push((LogStream::Stderr, h@)));
        },
        None => {},
    }
    assert(stream_views(out@) == streams_of(*e));
    out
}

/// The streams to show again on a hit: those of the entry, where that is asked
/// for.
pub fn replayed_streams(log: &LogCapture, e: &AcEntry) -> (r: Vec<(LogStream, ContentHash)>)
    ensures
        stream_views(r@) == (if log.replay {
            streams_of(*e)
        } else {
            Seq::<(LogStream, Seq<u8>)>::empty()
        }),
{
    if log.replay {
        entry_streams(e)
    } else {
        let none: Vec<(LogStream, ContentHash)> = Vec::new();
        assert(stream_views(none@) == Seq::<(LogStream, Seq<u8>)>::empty());
        none
    }
}

/// What to do next to restore a target from the remote cache.
#[derive(Debug)]
pub enum RemoteStep {
    /// Fetch the blob of an output.
    Fetch { hash: ContentHash },
    /// Keep the blob, and write this output from it.
    Keep { at: usize, blob: Vec<u8> },
    /// See whether the blob of a stream is in the local cache.
    Probe { hash: ContentHash },
    /// Fetch the blob of a stream.
    FetchStream { hash: ContentHash },
    /// Keep the blob of a stream.
    KeepStream { blob: Vec<u8> },
    /// Keep the entry.
    KeepEntry,
    /// There is nothing to restore; look elsewhere.
    Miss,
    Hit(TargetResult),
}

/// How far a restore from the remote cache has come.
#[derive(Debug, Clone, Copy, PartialEq, Eq, Structural)]
pub enum RemoteStage {
    Fetching,
    Keeping,
    Probing,
    FetchingStream,
    KeepingStream,
    KeepingEntry,
    Over,
}

/// A restore from the remote cache.
#[derive(Debug)]
pub struct RemoteHit {
    entry: AcEntry,
    streams: Vec<(LogStream, ContentHash)>,
    stage: RemoteStage,
    at: usize,
    kept: usize,
}

impl RemoteHit {
    pub closed spec fn source(&self) -> AcEntry {
        self.entry
    }

    pub closed spec fn stage(&self) -> RemoteStage {
        self.stage
    }

    /// The output, or the stream, in question.
    pub closed spec fn at(&self) -> int {
        self.at as int
    }

    /// How many outputs are kept.
    pub closed spec fn kept(&self) -> int {
        self.kept as int
    }

    spec fn streams_match(&self) -> bool {
        stream_views(self.streams@) == streams_of(self.entry)
    }

    /// What is in question is there, and the streams and the entry come after
    /// every output was kept.
    pub closed spec fn well_formed(&self) -> bool {
        &&& self.streams_match()
        &&& self.stage is Fetching || self.stage is Keeping ==> self.kept == self.at
        &&& self.stage is Probing || self.stage is FetchingStream || self.stage is KeepingStream || self.stage is KeepingEntry ==> self.kept == self.entry.outputs.len()
        &&& self.stage is Fetching || self.stage is Keeping ==> self.at < self.entry.outputs.len() && is_hash_text(self.entry.outputs@[self.at as int].content_hash@)
        &&& self.stage is Probing || self.stage is FetchingStream || self.stage is KeepingStream ==> self.at < self.streams.len()
    }

    /// The end: the hash over all outputs is what the targets downstream see.
    pub open spec fn ends(&self, step: RemoteStep) -> bool {
        &&& self.stage() is Over
        &&& if is_hash_text(self.source().outputs_content_hash@) {
            step matches RemoteStep::Hit(TargetResult::RemoteCacheHit { output_hash }) && names_hash(self.source().outputs_content_hash@, output_hash)
        } else {
            step is Miss
        }
    }

    /// Stream `i` is probed next; behind the last one the entry is kept.
    pub open spec fn probes(&self, step: RemoteStep, i: int) -> bool {
        if i < streams_of(self.source()).len() {
            &&& self.stage() is Probing
            &&& self.at() == i
            &&& step matches RemoteStep::Probe { hash } && hash@ == streams_of(self.source())[i].1
        } else {
            self.stage() is KeepingEntry && step is KeepEntry
        }
    }

    /// The blob of output `i` is fetched next; behind the last one it is the
    /// turn of the streams.
    pub open spec fn fetches(&self, step: RemoteStep, i: int) -> bool {
        if i < self.source().outputs@.len() {
            if is_hash_text(self.source().outputs@[i].content_hash@) {
                &&& self.stage() is Fetching
                &&& self.at() == i
                &&& step matches RemoteStep::Fetch { hash } && names_hash(self.source().outputs@[i].content_hash@, hash)
            } else {
                self.stage() is Over && step is Miss
            }
        } else {
            self.probes(step, 0)
        }
    }

    /// The entry is kept only after every output: an entry in the local cache
    /// never names a blob that is not there.
    pub proof fn law_entry_last(&self)
        requires
            self.well_formed(),
            self.stage() is KeepingEntry,
        ensures
            self.kept() == self.source().outputs@.len(),
    {
    }

    /// A restore of what the entry names.
    pub fn begin(entry: AcEntry) -> (r: (RemoteHit, RemoteStep))
        ensures
            r.0.well_formed(),
            r.0.source() == entry,
            r.0.kept() == 0,
            r.0.fetches(r.1, 0),
    {
        let streams = entry_streams(&entry);
        let mut hit = RemoteHit { entry, streams, stage: RemoteStage::Over, at: 0, kept: 0 };
        let step = hit.fetch(0);
        (hit, step)
    }

    fn probe(&mut self, i: usize) -> (step: RemoteStep)
        requires
            old(self).streams_match(),
            old(self).kept() == old(self).source().outputs@.len(),
        ensures
            final(self).well_formed(),
            final(self).source() == old(self).source(),
            final(self).kept() == old(self).kept(),
            final(self).probes(step, i as int),
    {
        assert(stream_views(self.streams@).len() == self.streams@.len());
        if i < self.streams.len() {
            self.stage = RemoteStage::Probing;
            self.at = i;
            let hash = self.streams[i].1;
            assert(stream_views(self.streams@)[i as int].1 == hash@);
            RemoteStep::Probe { hash }
        } else {
            self.stage = RemoteStage::KeepingEntry;
            RemoteStep::KeepEntry
        }
    }

    fn fetch(&mut self, i: usize) -> (step: RemoteStep)
        requires
            old(self).streams_match(),
            i == old(self).kept() <= old(self).source().outputs@.len(),
        ensures
            final(self).well_formed(),
            final(self).source() == old(self).source(),
            final(self).kept() == old(self).kept(),
            final(self).fetches(step, i as int),
    {
        if i < self.entry.outputs.len() {
            match ContentHash::from_hex(self.entry.outputs[i].content_hash.as_str()) {
                Some(hash) => {
                    self.stage = RemoteStage::Fetching;
                    self.at = i;
                    RemoteStep::Fetch { hash }
                },
                None => self.miss(),
            }
        } else {
            self.probe(0)
        }
    }

    fn miss(&mut self) -> (step: RemoteStep)
        requires
            old(self).streams_match(),
        ensures
            final(self).well_formed(),
            final(self).source() == old(self).source(),
            final(self).kept() == old(self).kept(),
            final(self).stage() is Over,
            step is Miss,
    {
        self.stage = RemoteStage::Over;
        RemoteStep::Miss
    }

    /// The blob of the output, if the remote has it. It is kept only if it is
    /// what its hash names.
    pub fn fetched(&mut self, blob: Option<Vec<u8>>) -> (step: RemoteStep)
        requires
            old(self).well_formed(),
            old(self).stage() is Fetching,
        ensures
            final(self).well_formed(),
            final(self).source() == old(self).source(),
            final(self).kept() == old(self).kept(),
            if blob matches Some(b) && sha256(b@) == unhex(utf8(old(self).source().outputs@[old(self).at()].content_hash@)) {
                &&& final(self).stage() is Keeping
                &&& final(self).at() == old(self).at()
                &&& step matches RemoteStep::Keep { at, blob: k } && at == old(self).at() && k == blob->0
            } else {
                final(self).stage() is Over && step is Miss
            },
    {
        let i: usize = self.at;
        match blob {
            Some(b) => match ContentHash::from_hex(self.entry.outputs[i].content_hash.as_str()) {
                Some(hash) => {
                    if blob_matches(&hash, b.as_slice()) {
                        self.stage = RemoteStage::Keeping;
                        RemoteStep::Keep { at: i, blob: b }
                    } else {
                        self.miss()
                    }
                },
                None => self.miss(),
            },
            None => self.miss(),
        }
    }

    /// Whether the blob was kept and the output written. A failure makes it a
    /// miss.
    pub fn kept_output(&mut self, ok: bool) -> (step: RemoteStep)
        requires
            old(self).well_formed(),
            old(self).stage() is Keeping,
        ensures
            final(self).well_formed(),
            final(self).source() == old(self).source(),
            final(self).kept() == old(self).kept() + (if ok { 1int } else { 0int }),
            if ok {
                final(self).fetches(step, old(self).at() + 1)
            } else {
                final(self).stage() is Over && step is Miss
            },
    {
        if !ok {
            return self.miss();
        }
        let i: usize = self.at + 1;
        self.kept = i;
        self.fetch(i)
    }

    /// Whether the stream is in the local cache already.
    pub fn probed(&mut self, present: bool) -> (step: RemoteStep)
        requires
            old(self).well_formed(),
            old(self).stage() is Probing,
        ensures
            final(self).well_formed(),
            final(self).source() == old(self).source(),
            final(self).kept() == old(self).kept(),
            if present {
                final(self).probes(step, old(self).at() + 1)
            } else {
                &&& final(self).stage() is FetchingStream
                &&& final(self).at() == old(self).at()
                &&& step matches RemoteStep::FetchStream { hash } && hash@ == streams_of(old(self).source())[old(self).at()].1
            },
    {
        let i: usize = self.at;
        if present {
            self.probe(i + 1)
        } else {
            self.stage = RemoteStage::FetchingStream;
            let hash = self.streams[i].1;
            assert(stream_views(self.streams@)[i as int].1 == hash@);
            RemoteStep::FetchStream { hash }
        }
    }

    /// The blob of the stream, if the remote has it. One that is missing, or
    /// not what its hash names, is passed over.
    pub fn fetched_stream(&mut self, blob: Option<Vec<u8>>) -> (step: RemoteStep)
        requires
            old(self).well_formed(),
            old(self).stage() is FetchingStream,
        ensures
            final(self).well_formed(),
            final(self).source() == old(self).source(),
            final(self).kept() == old(self).kept(),
            if blob matches Some(b) && sha256(b@) == streams_of(old(self).source())[old(self).at()].1 {
                &&& final(self).stage() is KeepingStream
                &&& final(self).at() == old(self).at()
                &&& step matches RemoteStep::KeepStream { blob: k } && k == blob->0
            } else {
                final(self).probes(step, old(self).at() + 1)
            },
    {
        let i: usize = self.at;
        let hash = self.streams[i].1;
        assert(stream_views(self.streams@)[i as int].1 == hash@);
        match blob {
            Some(b) => {
                if blob_matches(&hash, b.as_slice()) {
                    self.stage = RemoteStage::KeepingStream;
                    RemoteStep::KeepStream { blob: b }
                } else {
                    self.probe(i + 1)
                }
            },
            None => self.probe(i + 1),
        }
    }

    /// Whether the blob of the stream was kept. A failure makes it a miss.
    pub fn kept_stream(&mut self, ok: bool) -> (step: RemoteStep)
        requires
            old(self).well_formed(),
            old(self).stage() is KeepingStream,
        ensures
            final(self).well_formed(),
            final(self).source() == old(self).source(),
            final(self).kept() == old(self).kept(),
            if ok {
                final(self).probes(step, old(self).at() + 1)
            } else {
                final(self).stage() is Over && step is Miss
            },
    {
        if !ok {
            return self.miss();
        }
        let i: usize = self.at + 1;
        self.probe(i)
    }

    /// Whether the entry was kept. A failure makes it a miss.
    pub fn kept_entry(&mut self, ok: bool) -> (step: RemoteStep)
        requires
            old(self).well_formed(),
            old(self).stage() is KeepingEntry,
        ensures
            final(self).well_formed(),
            final(self).source() == old(self).source(),
            final(self).kept() == old(self).kept(),
            if ok {
                final(self).ends(step)
            } else {
                final(self).stage() is Over && step is Miss
            },
    {
        if !ok {
            return self.miss();
        }
        self.stage = RemoteStage::Over;
        match ContentHash::from_hex(self.entry.outputs_content_hash.as_str()) {
            Some(output_hash) => RemoteStep::Hit(TargetResult::RemoteCacheHit { output_hash }),
            None => RemoteStep::Miss,
        }
    }

    /// The entry that is restored.
    pub fn entry(&self) -> (r: &AcEntry)
        ensures
            *r == self.source(),
    {
        &self.entry
    }
}

/// An entry names at most its two streams, standard output before standard
/// error, each where its text is a hash and by that hash.
pub proof fn law_streams(e: AcEntry)
    ensures
        forall|h: Seq<u8>| #[trigger] streams_of(e).contains((LogStream::Stdout, h)) <==> (e.stdout_blob matches Some(t) && is_hash_text(t@) && h == unhex(utf8(t@))),
        forall|h: Seq<u8>| #[trigger] streams_of(e).contains((LogStream::Stderr, h)) <==> (e.stderr_blob matches Some(t) && is_hash_text(t@) && h == unhex(utf8(t@))),
        streams_of(e).len() <= 2,
        streams_of(e).len() == 2 ==> streams_of(e)[0].0 is Stdout && streams_of(e)[1].0 is Stderr,
{
    let none = Seq::<(LogStream, Seq<u8>)>::empty();
    let s = streams_of(e);
    assert forall|h: Seq<u8>| #[trigger] s.contains((LogStream::Stdout, h)) <==> (e.stdout_blob matches Some(t) && is_hash_text(t@) && h == unhex(utf8(t@))) by {
        if stream_hash(e.stdout_blob) is Some {
            assert(s[0] == (LogStream::Stdout, stream_hash(e.stdout_blob)->0));
        }
    }
    assert forall|h: Seq<u8>| #[trigger] s.contains((LogStream::Stderr, h)) <==> (e.stderr_blob matches Some(t) && is_hash_text(t@) && h == unhex(utf8(t@))) by {
        if stream_hash(e.stderr_blob) is Some {
            assert(s[s.len() - 1] == (LogStream::Stderr, stream_hash(e.stderr_blob)->0));
        }
    }
}

/// What a build records, a hit gives back: the entry of some outputs names each of
/// them by its path and hash, and a restore that ends, from the local or from the
/// remote cache, reports the hash that the build itself reported.
pub proof fn law_hit_gives_built_hash(
    local: LocalHit,
    step: HitStep,
    remote: RemoteHit,
    remote_step: RemoteStep,
    outputs: Seq<OutputFile>,
    built: TargetResult,
    i: int,
)
    requires
        entry_records(local.source(), outputs),
        entry_records(remote.source(), outputs),
        local.ends(step),
        remote.ends(remote_step),
        built matches TargetResult::Built { outputs: v, .. } && v@ == outputs,
    ensures
        step matches HitStep::Hit(r) && result_hash(r) is Some && result_hash(r) == result_hash(built),
        remote_step matches RemoteStep::Hit(r) && result_hash(r) is Some && result_hash(r) == result_hash(built),
        local.source().outputs@.len() == outputs.len(),
        0 <= i < outputs.len() ==> local.source().outputs@[i].path@ == outputs[i].rel_path@ && names_hash(
            local.source().outputs@[i].content_hash@,
            outputs[i].content_hash,
        ),
        0 <= i < outputs.len() ==> local.source().outputs@[i].mode@ == outputs[i].mode@ && local.source().outputs@[i].size == outputs[i].size
            && local.source().outputs@[i].executable == outputs[i].executable,
{
    crate::digest::lemma_unhex_hex(sha256(outputs_bytes(output_views(outputs))));
    if 0 <= i < outputs.len() {
        assert(outputs[i].recorded_as(local.source().outputs@[i]));
        crate::model::law_hex_round_trip(outputs[i].content_hash);
    }
}

/// A restore looks for the blob of each output in turn, and only an output that
/// names no hash ends it early.
pub proof fn law_next_probe(hit: LocalHit, step: HitStep, i: int)
    requires
        hit.probes(step, i),
        0 <= i < hit.source().outputs@.len(),
    ensures
        step is Miss <==> !is_hash_text(hit.source().outputs@[i].content_hash@),
        !(step is Miss) ==> (step matches HitStep::Probe { hash } && hash@ == unhex(utf8(hit.source().outputs@[i].content_hash@))),
{
}

/// A restore from the remote cache fetches the blob of each output in turn, and
/// keeps the entry only once there is no output and no stream left.
pub proof fn law_next_fetch(hit: RemoteHit, step: RemoteStep, i: int)
    requires
        hit.fetches(step, i),
        i >= 0,
    ensures
        i < hit.source().outputs@.len() ==> !(step is KeepEntry) && (step is Miss <==> !is_hash_text(hit.source().outputs@[i].content_hash@)),
        i < hit.source().outputs@.len() && !(step is Miss) ==> (step matches RemoteStep::Fetch { hash } && hash@ == unhex(
            utf8(hit.source().outputs@[i].content_hash@),
        )),
        step is KeepEntry ==> i >= hit.source().outputs@.len() && streams_of(hit.source()).len() == 0,
{
}

} // verus!

//! The remote side: where a chunk lies in which pack, which packs a plan
//! needs, and the bookkeeping of a pack downloader.
//!
//! Nothing here touches the network. The caller fetches the bytes of a pack
//! from the address that [`AsyncDownloader::pack_url`] gives and hands them to
//! the [`PackDownloader`]; the decisions are made here.

use crate::chunk::{
    lemma_total_length_split, total_length, Chunk, FilePlan, Operation, SyncPlan,
};
use crate::error::Error;
use crate::manifest::FileRecord;
use crate::network::{
    all_chunks, ids_of, lemma_packs_partition, no_empty_chunk, pack_records, packs_partition,
    spec_packs, PackRecord, RemoteManifest,
};
use crate::text::{ends_with_slash, push_decimal, spec_decimal, spec_ends_with_slash};
use std::collections::HashMap;
use vstd::prelude::*;
use vstd::slice::{slice_subrange, slice_to_vec};
use vstd::string::StringExecFns;

verus! {

/// The size limit of the cache of downloaded packs unless another is asked
/// for: 100 MiB.
pub const DEFAULT_CACHE_LIMIT: u64 = 104857600;

/// The base of an address with a slash at its end.
pub open spec fn spec_base_url(base_url: Seq<char>) -> Seq<char> {
    if spec_ends_with_slash(base_url) {
        base_url
    } else {
        base_url.push('/')
    }
}

/// The addresses of what a remote source publishes.
#[derive(Debug)]
pub struct AsyncDownloader {
    /// The address of the source, with a slash at its end.
    pub base_url: String,
}

impl AsyncDownloader {
    /// The addresses below `base_url`. A slash is added to `base_url` if it
    /// does not end with one.
    pub fn new(base_url: &str) -> (downloader: AsyncDownloader)
        ensures
            downloader.base_url@ == spec_base_url(base_url@),
    {
        let mut base = String::from_str(base_url);
        if !ends_with_slash(base_url) {
            proof {
                reveal_strlit("/");
            }
            base.append("/");
            assert(base@ =~= base_url@.push('/'));
        }
        AsyncDownloader { base_url: base }
    }

    /// The address of the pack `pack_id`: the base, the identifier as a
    /// decimal number, and `.binpack`.
    pub fn pack_url(&self, pack_id: u64) -> (url: String)
        ensures
            url@ == self.base_url@ + spec_decimal(pack_id as nat) + ".binpack"@,
    {
        let mut url = self.base_url.clone();
        push_decimal(&mut url, pack_id);
        url.append(".binpack");
        url
    }

    /// The address of the remote manifest: the base and `manifest.binsync`.
    pub fn manifest_url(&self) -> (url: String)
        ensures
            url@ == self.base_url@ + "manifest.binsync"@,
    {
        let mut url = self.base_url.clone();
        url.append("manifest.binsync");
        url
    }
}

/// Where a chunk lies: in which pack, and at which offset of the pack.
#[derive(Clone, Copy, Debug, PartialEq, Eq, Structural)]
pub struct ChunkPackInfo {
    pub pack_id: u64,
    pub pack_length: u64,
    pub offset: u64,
    pub length: u64,
}

/// The length of each chunk by identifier. Of two chunks with the same
/// identifier the later one counts.
pub open spec fn lengths_by_id(chunks: Seq<Chunk>) -> Map<u64, u64>
    decreases chunks.len(),
{
    if chunks.len() == 0 {
        Map::empty()
    } else {
        lengths_by_id(chunks.drop_last()).insert(chunks.last().hash, chunks.last().length)
    }
}

/// How far the index of chunk locations has come, or why it cannot be built.
pub enum Indexing {
    /// The locations found so far, and the offset in the pack at hand.
    Located { map: Map<u64, ChunkPackInfo>, offset: nat },
    /// A pack lists a chunk that the manifest does not know.
    Missing(u64),
    /// The chunks of a pack are longer than an offset can tell.
    TooLong,
}

/// The index after the first `n` chunks of `pack` have been located, starting
/// from the index `start`: each chunk lies behind the chunks listed before it.
pub open spec fn index_pack(
    start: Map<u64, ChunkPackInfo>,
    lengths: Map<u64, u64>,
    pack: PackRecord,
    n: nat,
) -> Indexing
    decreases n,
{
    if n == 0 {
        Indexing::Located { map: start, offset: 0 }
    } else {
        match index_pack(start, lengths, pack, (n - 1) as nat) {
            Indexing::Located { map, offset } => {
                let id = pack.chunks[n - 1];
                if !lengths.contains_key(id) {
                    Indexing::Missing(id)
                } else if offset + lengths[id] > u64::MAX {
                    Indexing::TooLong
                } else {
                    Indexing::Located {
                        map: map.insert(
                            id,
                            ChunkPackInfo {
                                pack_id: pack.hash,
                                pack_length: pack.length,
                                offset: offset as u64,
                                length: lengths[id],
                            },
                        ),
                        offset: offset + lengths[id] as nat,
                    }
                }
            },
            failed => failed,
        }
    }
}

/// The index of the chunks of `packs`, pack after pack.
pub open spec fn index_packs(lengths: Map<u64, u64>, packs: Seq<PackRecord>) -> Indexing
    decreases packs.len(),
{
    if packs.len() == 0 {
        Indexing::Located { map: Map::empty(), offset: 0 }
    } else {
        match index_packs(lengths, packs.drop_last()) {
            Indexing::Located { map, offset } => index_pack(
                map,
                lengths,
                packs.last(),
                packs.last().chunks.len(),
            ),
            failed => failed,
        }
    }
}

/// The index of chunk locations of a remote manifest.
pub open spec fn spec_chunk_map(files: Seq<FileRecord>, packs: Seq<PackRecord>) -> Indexing {
    index_packs(lengths_by_id(all_chunks(files)), packs)
}

/// Chunks with the same identifier are equally long.
pub open spec fn lengths_settled(chunks: Seq<Chunk>) -> bool {
    forall|i: int, j: int|
        0 <= i < chunks.len() && 0 <= j < chunks.len() && (#[trigger] chunks[i]).hash == (
        #[trigger] chunks[j]).hash ==> chunks[i].length == chunks[j].length
}

/// `lengths` gives for the identifier of each of `chunks` the length of the
/// chunk.
pub open spec fn knows_lengths(lengths: Map<u64, u64>, chunks: Seq<Chunk>) -> bool {
    forall|j: int|
        0 <= j < chunks.len() ==> lengths.contains_key((#[trigger] chunks[j]).hash)
            && lengths[chunks[j].hash] == chunks[j].length
}

/// Where chunks with the same identifier are equally long, the lengths by
/// identifier are the lengths of the chunks.
pub proof fn lemma_lengths_by_id(chunks: Seq<Chunk>)
    requires
        lengths_settled(chunks),
    ensures
        knows_lengths(lengths_by_id(chunks), chunks),
    decreases chunks.len(),
{
    if chunks.len() > 0 {
        let rest = chunks.drop_last();
        let last = chunks.last();
        assert forall|i: int, j: int|
            0 <= i < rest.len() && 0 <= j < rest.len() && (#[trigger] rest[i]).hash == (
            #[trigger] rest[j]).hash implies rest[i].length == rest[j].length by {
            assert(rest[i] == chunks[i] && rest[j] == chunks[j]);
        }
        lemma_lengths_by_id(rest);
        assert forall|j: int| 0 <= j < chunks.len() implies lengths_by_id(chunks).contains_key(
            (#[trigger] chunks[j]).hash,
        ) && lengths_by_id(chunks)[chunks[j].hash] == chunks[j].length by {
            assert(last == chunks[chunks.len() - 1]);
            if chunks[j].hash != last.hash {
                assert(rest[j] == chunks[j]);
            }
        }
    }
}

/// A pack that lists a run of chunks whose lengths are known and add up to
/// an offset can be indexed, and the offset after its first chunks is their
/// total length.
pub proof fn lemma_index_pack_of_run(
    start: Map<u64, ChunkPackInfo>,
    lengths: Map<u64, u64>,
    pack: PackRecord,
    run: Seq<Chunk>,
    n: int,
)
    requires
        pack.chunks == ids_of(run),
        knows_lengths(lengths, run),
        total_length(run) <= u64::MAX,
        0 <= n <= run.len(),
    ensures
        index_pack(start, lengths, pack, n as nat) is Located,
        index_pack(start, lengths, pack, n as nat)->offset == total_length(run.take(n)),
    decreases n,
{
    if n == 0 {
        assert(run.take(0).len() == 0);
    } else {
        lemma_index_pack_of_run(start, lengths, pack, run, n - 1);
        assert(run.take(n).drop_last() =~= run.take(n - 1));
        assert(run.take(n).last() == run[n - 1]);
        assert(pack.chunks[n - 1] == run[n - 1].hash);
        lemma_total_length_split(run, n);
    }
}

/// Packs that cut chunks of known lengths into runs can be indexed.
pub proof fn lemma_partition_can_be_indexed(
    lengths: Map<u64, u64>,
    packs: Seq<PackRecord>,
    chunks: Seq<Chunk>,
)
    requires
        packs_partition(packs, chunks),
        knows_lengths(lengths, chunks),
    ensures
        index_packs(lengths, packs) is Located,
    decreases packs.len(),
{
    if packs.len() > 0 {
        let pack = packs.last();
        let start = chunks.len() - pack.chunks.len();
        let before = chunks.take(start);
        let run = chunks.skip(start);
        assert forall|j: int| 0 <= j < before.len() implies lengths.contains_key(
            (#[trigger] before[j]).hash,
        ) && lengths[before[j].hash] == before[j].length by {
            assert(before[j] == chunks[j]);
        }
        assert forall|j: int| 0 <= j < run.len() implies lengths.contains_key(
            (#[trigger] run[j]).hash,
        ) && lengths[run[j].hash] == run[j].length by {
            assert(run[j] == chunks[start + j]);
        }
        lemma_partition_can_be_indexed(lengths, packs.drop_last(), before);
        lemma_index_pack_of_run(
            index_packs(lengths, packs.drop_last())->map,
            lengths,
            pack,
            run,
            run.len() as int,
        );
    }
}

/// The packs that a manifest's chunks are grouped into can be indexed against
/// the manifest: every chunk of every pack is known, and no offset is too
/// long. This holds where no chunk is empty and chunks with the same
/// identifier are equally long.
pub proof fn lemma_packs_can_be_indexed(chunks: Seq<Chunk>, size: nat)
    requires
        size <= u64::MAX,
        no_empty_chunk(chunks),
        lengths_settled(chunks),
    ensures
        index_packs(lengths_by_id(chunks), spec_packs(chunks, size)) is Located,
{
    lemma_packs_partition(chunks, size);
    lemma_lengths_by_id(chunks);
    lemma_partition_can_be_indexed(lengths_by_id(chunks), spec_packs(chunks, size), chunks);
}

/// Collects the length of every chunk of a manifest by identifier.
fn chunk_lengths(manifest: &RemoteManifest) -> (lengths: HashMap<u64, u64>)
    ensures
        lengths@ == lengths_by_id(all_chunks(manifest.source@)),
{
    let files = &manifest.source.files;
    let ghost records = manifest.source@;
    let mut lengths: HashMap<u64, u64> = HashMap::new();
    let mut f: usize = 0;
    proof {
        assert(records.take(0) =~= Seq::<FileRecord>::empty());
    }
    while f < files.len()
        invariant
            f <= files@.len(),
            records == manifest.source@,
            files == &manifest.source.files,
            lengths@ == lengths_by_id(all_chunks(records.take(f as int))),
        decreases files@.len() - f,
    {
        let chunks = &files[f].chunks;
        let ghost done = all_chunks(records.take(f as int));
        let mut c: usize = 0;
        proof {
            assert(done + chunks@.take(0) =~= done);
        }
        while c < chunks.len()
            invariant
                c <= chunks@.len(),
                lengths@ == lengths_by_id(done + chunks@.take(c as int)),
            decreases chunks@.len() - c,
        {
            proof {
                let next = done + chunks@.take(c + 1);
                assert(next.drop_last() =~= done + chunks@.take(c as int));
                assert(next.last() == chunks@[c as int]);
            }
            lengths.insert(chunks[c].hash, chunks[c].length);
            c += 1;
        }
        proof {
            assert(chunks@.take(c as int) =~= chunks@);
            assert(records.take(f + 1).drop_last() =~= records.take(f as int));
            assert(records.take(f + 1).last() == records[f as int]);
            assert(records[f as int].chunks == chunks@);
        }
        f += 1;
    }
    proof {
        assert(records.take(f as int) =~= records);
    }
    lengths
}

/// Cuts the bytes of one chunk out of the bytes of its pack.
///
/// Fails with [`Error::Unspecified`] if the pack does not have the length the
/// manifest gives for it, or if the chunk does not lie within the pack.
pub fn slice_chunk(pack: &[u8], info: &ChunkPackInfo) -> (cut: Result<Vec<u8>, Error>)
    ensures
        match cut {
            Ok(data) => pack@.len() == info.pack_length && info.offset + info.length
                <= pack@.len() && data@ == pack@.subrange(
                info.offset as int,
                info.offset + info.length,
            ),
            Err(error) => error is Unspecified && (pack@.len() != info.pack_length || info.offset
                + info.length > pack@.len()),
        },
{
    let size: u64 = pack.len() as u64;
    if size != info.pack_length {
        return Err(Error::Unspecified("Pack length does not match".to_string()));
    }
    if info.offset > size || info.length > size - info.offset {
        return Err(Error::Unspecified("Could not find chunk after download".to_string()));
    }
    let start: usize = info.offset as usize;
    let end: usize = (info.offset + info.length) as usize;
    Ok(slice_to_vec(slice_subrange(pack, start, end)))
}

/// The state of the worker that downloads packs.
#[derive(Clone, Copy, Debug, PartialEq, Eq, Structural)]
pub enum WorkerState {
    /// Nothing is asked for.
    Idle,
    /// Requests wait, none is under way.
    Enqueued,
    /// A pack is being fetched.
    Fetching,
    /// A fetch has failed; the worker has stopped.
    Failed,
    /// The worker was told to stop.
    Exited,
}

/// A request for a pack. An urgent request is one that a caller waits for;
/// the others fetch ahead of need.
#[derive(Clone, Copy, Debug, PartialEq, Eq, Structural)]
pub struct PackRequest {
    pub pack_id: u64,
    pub length: u64,
    pub urgent: bool,
}

/// The sum of two sizes, or the largest size if the sum is larger.
pub open spec fn capped_sum(a: u64, b: u64) -> u64 {
    if a + b > u64::MAX {
        u64::MAX
    } else {
        (a + b) as u64
    }
}

/// The difference of two sizes, or zero if the second is larger.
pub open spec fn floored_difference(a: u64, b: u64) -> u64 {
    if a < b {
        0
    } else {
        (a - b) as u64
    }
}

/// The place in `queue` of the first urgent request, or the length of the
/// queue if none is urgent.
pub open spec fn first_urgent(queue: Seq<PackRequest>) -> int
    decreases queue.len(),
{
    if queue.len() == 0 {
        0
    } else if queue[0].urgent {
        0
    } else {
        1 + first_urgent(queue.skip(1))
    }
}

/// The place in `queue` of the request to serve next: the first urgent one,
/// or the first one if none is urgent.
pub open spec fn next_in_line(queue: Seq<PackRequest>) -> int {
    if first_urgent(queue) < queue.len() {
        first_urgent(queue)
    } else {
        0
    }
}

/// The books of the pack downloader: what waits, what is under way, what has
/// arrived.
pub struct PackDownloader {
    /// Requests to fetch ahead are turned down once the bytes cached and the
    /// bytes asked for reach this limit.
    pub cache_limit: u64,
    /// The packs that have arrived, by identifier.
    pub cache: HashMap<u64, Vec<u8>>,
    /// The number of bytes in the cache.
    pub cache_size: u64,
    /// The requests that wait, in the order in which they came.
    pub queue: Vec<PackRequest>,
    /// The number of bytes that the waiting requests and the one under way
    /// ask for.
    pub queued_size: u64,
    /// The request under way.
    pub fetching: Option<PackRequest>,
    /// The state of the worker.
    pub state: WorkerState,
}

impl PackDownloader {
    /// The state of the worker fits the books: a request is under way
    /// exactly while the worker fetches, and requests wait unserved only
    /// while it is enqueued, has failed or has left.
    pub open spec fn wf(&self) -> bool {
        &&& (self.state == WorkerState::Fetching) == (self.fetching is Some)
        &&& self.state == WorkerState::Idle ==> self.queue@.len() == 0
        &&& self.state == WorkerState::Enqueued ==> self.queue@.len() > 0
    }

    /// Whether the worker takes requests.
    pub open spec fn spec_alive(&self) -> bool {
        self.state != WorkerState::Failed && self.state != WorkerState::Exited
    }

    /// Whether the worker takes requests: it does until a fetch fails or it
    /// is told to stop.
    #[verifier::when_used_as_spec(spec_alive)]
    pub fn alive(&self) -> (alive: bool)
        ensures
            alive == self.spec_alive(),
    {
        self.state != WorkerState::Failed && self.state != WorkerState::Exited
    }

    /// A downloader with empty books and an idle worker.
    pub fn new(cache_limit: u64) -> (downloader: PackDownloader)
        ensures
            downloader.wf(),
            downloader.cache_limit == cache_limit,
            downloader.state == WorkerState::Idle,
            downloader.cache@.len() == 0,
            downloader.cache_size == 0,
            downloader.queue@.len() == 0,
            downloader.queued_size == 0,
    {
        PackDownloader {
            cache_limit,
            cache: HashMap::new(),
            cache_size: 0,
            queue: Vec::new(),
            queued_size: 0,
            fetching: None,
            state: WorkerState::Idle,
        }
    }

    /// Whether a request to fetch ahead finds room: the bytes cached and the
    /// bytes asked for are below the limit.
    pub open spec fn has_room(&self) -> bool {
        self.cache_size + self.queued_size < self.cache_limit
    }

    /// Puts a request at the end of the queue.
    fn enqueue(&mut self, request: PackRequest)
        requires
            old(self).wf(),
            old(self).spec_alive(),
        ensures
            final(self).wf(),
            final(self).queue@ == old(self).queue@.push(request),
            final(self).queued_size == capped_sum(old(self).queued_size, request.length),
            final(self).state == (if old(self).state == WorkerState::Idle {
                WorkerState::Enqueued
            } else {
                old(self).state
            }),
            final(self).cache == old(self).cache,
            final(self).cache_size == old(self).cache_size,
            final(self).cache_limit == old(self).cache_limit,
            final(self).fetching == old(self).fetching,
    {
        self.queue.push(request);
        self.queued_size = match self.queued_size.checked_add(request.length) {
            Some(sum) => sum,
            None => u64::MAX,
        };
        if self.state == WorkerState::Idle {
            self.state = WorkerState::Enqueued;
        }
    }

    /// Asks for a pack ahead of need. The request is turned down, and nothing
    /// changes, if the worker has stopped or there is no room.
    pub fn preload(&mut self, pack_id: u64, length: u64) -> (accepted: bool)
        requires
            old(self).wf(),
        ensures
            final(self).wf(),
            accepted == (old(self).spec_alive() && old(self).has_room()),
            accepted ==> final(self).queue@ == old(self).queue@.push(
                PackRequest { pack_id, length, urgent: false },
            ) && final(self).queued_size == capped_sum(old(self).queued_size, length) && final(self).state == (if old(self).state == WorkerState::Idle {
                WorkerState::Enqueued
            } else {
                old(self).state
            }),
            !accepted ==> final(self).queue@ == old(self).queue@ && final(self).queued_size == old(
                self,
            ).queued_size && final(self).state == old(self).state,
            final(self).cache == old(self).cache,
            final(self).cache_size == old(self).cache_size,
            final(self).cache_limit == old(self).cache_limit,
            final(self).fetching == old(self).fetching,
    {
        let used: u128 = self.cache_size as u128 + self.queued_size as u128;
        if !self.alive() || used >= self.cache_limit as u128 {
            return false;
        }
        self.enqueue(PackRequest { pack_id, length, urgent: false });
        true
    }

    /// Asks for a pack that is needed now. The request is taken whatever the
    /// cache holds; it is turned down only if the worker has stopped.
    pub fn download(&mut self, pack_id: u64, length: u64) -> (accepted: bool)
        requires
            old(self).wf(),
        ensures
            final(self).wf(),
            accepted == old(self).spec_alive(),
            accepted ==> final(self).queue@ == old(self).queue@.push(
                PackRequest { pack_id, length, urgent: true },
            ) && final(self).queued_size == capped_sum(old(self).queued_size, length) && final(self).state == (if old(self).state == WorkerState::Idle {
                WorkerState::Enqueued
            } else {
                old(self).state
            }),
            !accepted ==> final(self).queue@ == old(self).queue@ && final(self).queued_size == old(
                self,
            ).queued_size && final(self).state == old(self).state,
            final(self).cache == old(self).cache,
            final(self).cache_size == old(self).cache_size,
            final(self).cache_limit == old(self).cache_limit,
            final(self).fetching == old(self).fetching,
    {
        if !self.alive() {
            return false;
        }
        self.enqueue(PackRequest { pack_id, length, urgent: true });
        true
    }

    /// Finds the request to serve next.
    fn find_next(&self) -> (at: usize)
        requires
            self.queue@.len() > 0,
        ensures
            at == next_in_line(self.queue@),
            at < self.queue@.len(),
    {
        let mut i: usize = 0;
        proof {
            assert(self.queue@.skip(0) =~= self.queue@);
        }
        while i < self.queue.len()
            invariant
                i <= self.queue@.len(),
                forall|j: int| 0 <= j < i ==> !(#[trigger] self.queue@[j]).urgent,
            decreases self.queue@.len() - i,
        {
            if self.queue[i].urgent {
                proof {
                    lemma_first_urgent(self.queue@, i as int);
                }
                return i;
            }
            i += 1;
        }
        proof {
            lemma_none_urgent(self.queue@);
        }
        0
    }

    /// Takes the next request off the queue for the worker to fetch: an
    /// urgent request before any other, and among equals the one that has
    /// waited longest. `None`, and nothing changes, unless the worker is
    /// enqueued.
    pub fn next_request(&mut self) -> (next: Option<PackRequest>)
        requires
            old(self).wf(),
        ensures
            final(self).wf(),
            final(self).cache == old(self).cache,
            final(self).cache_size == old(self).cache_size,
            final(self).cache_limit == old(self).cache_limit,
            final(self).queued_size == old(self).queued_size,
            match next {
                Some(request) => {
                    &&& old(self).state == WorkerState::Enqueued
                    &&& request == old(self).queue@[next_in_line(old(self).queue@)]
                    &&& final(self).queue@ == old(self).queue@.remove(
                        next_in_line(old(self).queue@),
                    )
                    &&& final(self).state == WorkerState::Fetching
                    &&& final(self).fetching == Some(request)
                },
                None => {
                    &&& old(self).state != WorkerState::Enqueued
                    &&& final(self).queue@ == old(self).queue@
                    &&& final(self).state == old(self).state
                    &&& final(self).fetching == old(self).fetching
                },
            },
    {
        if self.state != WorkerState::Enqueued {
            return None;
        }
        let at = self.find_next();
        let request = self.queue.remove(at);
        self.fetching = Some(request);
        self.state = WorkerState::Fetching;
        Some(request)
    }

    /// Books the end of the fetch under way. With the bytes of the pack, the
    /// pack goes into the cache and the worker turns to what waits; without,
    /// the worker has failed and stops. Nothing changes unless a fetch is
    /// under way.
    pub fn complete(&mut self, data: Option<Vec<u8>>)
        requires
            old(self).wf(),
        ensures
            final(self).wf(),
            final(self).cache_limit == old(self).cache_limit,
            final(self).queue@ == old(self).queue@,
            match old(self).fetching {
                Some(request) => {
                    &&& final(self).fetching is None
                    &&& final(self).queued_size == floored_difference(
                        old(self).queued_size,
                        request.length,
                    )
                    &&& match data {
                        Some(bytes) => {
                            &&& final(self).cache@ == old(self).cache@.insert(
                                request.pack_id,
                                bytes,
                            )
                            &&& final(self).cache_size == capped_sum(
                                old(self).cache_size,
                                bytes@.len() as u64,
                            )
                            &&& final(self).state == (if old(self).queue@.len() == 0 {
                                WorkerState::Idle
                            } else {
                                WorkerState::Enqueued
                            })
                        },
                        None => {
                            &&& final(self).cache@ == old(self).cache@
                            &&& final(self).cache_size == old(self).cache_size
                            &&& final(self).state == WorkerState::Failed
                        },
                    }
                },
                None => {
                    &&& final(self).fetching is None
                    &&& final(self).queued_size == old(self).queued_size
                    &&& final(self).cache@ == old(self).cache@
                    &&& final(self).cache_size == old(self).cache_size
                    &&& final(self).state == old(self).state
                },
            },
    {
        let request = match self.fetching {
            Some(request) => request,
            None => {
                return ;
            },
        };
        self.fetching = None;
        self.queued_size = if self.queued_size < request.length {
            0
        } else {
            self.queued_size - request.length
        };
        match data {
            Some(bytes) => {
                self.cache_size = match self.cache_size.checked_add(bytes.len() as u64) {
                    Some(sum) => sum,
                    None => u64::MAX,
                };
                self.cache.insert(request.pack_id, bytes);
                self.state = if self.queue.len() == 0 {
                    WorkerState::Idle
                } else {
                    WorkerState::Enqueued
                };
            },
            None => {
                self.state = WorkerState::Failed;
            },
        }
    }

    /// Tells the worker to stop, whatever it is doing. What waits stays
    /// unserved; a fetch under way is given up.
    pub fn terminate(&mut self)
        ensures
            final(self).wf(),
            final(self).state == WorkerState::Exited,
            final(self).fetching is None,
            final(self).queue@ == old(self).queue@,
            final(self).queued_size == old(self).queued_size,
            final(self).cache == old(self).cache,
            final(self).cache_size == old(self).cache_size,
            final(self).cache_limit == old(self).cache_limit,
    {
        self.fetching = None;
        self.state = WorkerState::Exited;
    }

    /// The bytes of the pack `pack_id`, if it has arrived.
    pub fn get_pack(&self, pack_id: u64) -> (pack: Option<&Vec<u8>>)
        ensures
            match pack {
                Some(bytes) => self.cache@.contains_key(pack_id) && *bytes == self.cache@[pack_id],
                None => !self.cache@.contains_key(pack_id),
            },
    {
        self.cache.get(&pack_id)
    }
}

/// The packs that the fetches among `operations` need, added to `packs`:
/// each pack once, in the order in which the fetches first need them. A
/// fetch of a chunk that the index does not know adds nothing.
pub open spec fn packs_for_operations(
    packs: Seq<(u64, u64)>,
    chunk_map: Map<u64, ChunkPackInfo>,
    operations: Seq<Operation>,
) -> Seq<(u64, u64)>
    decreases operations.len(),
{
    if operations.len() == 0 {
        packs
    } else {
        let before = packs_for_operations(packs, chunk_map, operations.drop_last());
        match operations.last() {
            Operation::Fetch(chunk) => if chunk_map.contains_key(chunk.hash) {
                let pack = (chunk_map[chunk.hash].pack_id, chunk_map[chunk.hash].pack_length);
                if before.contains(pack) {
                    before
                } else {
                    before.push(pack)
                }
            } else {
                before
            },
            _ => before,
        }
    }
}

/// The packs that the fetches of `plan` need, each with its length: each
/// pack once, in the order in which the plan first needs them.
pub open spec fn packs_for_plan(chunk_map: Map<u64, ChunkPackInfo>, plan: Seq<FilePlan>) -> Seq<
    (u64, u64),
>
    decreases plan.len(),
{
    if plan.len() == 0 {
        Seq::empty()
    } else {
        packs_for_operations(
            packs_for_plan(chunk_map, plan.drop_last()),
            chunk_map,
            plan.last().operations,
        )
    }
}

/// The requests that wait, and the bytes they ask for.
pub struct Waiting {
    pub queue: Seq<PackRequest>,
    pub queued_size: u64,
}

/// What waits after each of `packs` has been asked for ahead of need, in
/// order, with `cache_size` bytes in a cache of `limit` bytes: a request is
/// taken while the bytes cached and the bytes asked for are below the limit.
pub open spec fn preload_all(
    start: Waiting,
    cache_size: u64,
    limit: u64,
    packs: Seq<(u64, u64)>,
) -> Waiting
    decreases packs.len(),
{
    if packs.len() == 0 {
        start
    } else {
        let before = preload_all(start, cache_size, limit, packs.drop_last());
        if cache_size + before.queued_size < limit {
            Waiting {
                queue: before.queue.push(
                    PackRequest { pack_id: packs.last().0, length: packs.last().1, urgent: false },
                ),
                queued_size: capped_sum(before.queued_size, packs.last().1),
            }
        } else {
            before
        }
    }
}

/// What a remote provider answers when it is asked for a chunk.
#[derive(Debug)]
pub enum Lookup {
    /// The bytes of the chunk.
    Ready(Vec<u8>),
    /// The pack of the chunk has not arrived yet; it is now asked for.
    Wanted(PackRequest),
}

/// Serves chunks out of packs that are downloaded from a remote source.
pub struct RemoteChunkProvider {
    /// Where each chunk lies.
    pub chunk_map: HashMap<u64, ChunkPackInfo>,
    /// The books of the downloader.
    pub downloader: PackDownloader,
    /// The addresses of the source.
    pub urls: AsyncDownloader,
}

impl RemoteChunkProvider {
    /// A provider for the chunks of `manifest`, published below `base_url`.
    ///
    /// The index tells for each chunk of each pack where it lies: a pack
    /// holds the bytes of its chunks one after the other, in the order of its
    /// list. Fails with [`Error::ChunkNotFound`] on the first chunk of a pack
    /// that the manifest does not know, and with [`Error::Unspecified`] if
    /// the chunks of a pack are longer than an offset can tell. Neither
    /// happens where the packs cut the chunks of the manifest into runs, as
    /// they do when they were made of the manifest, and chunks with the same
    /// identifier are equally long.
    pub fn new(base_url: &str, manifest: &RemoteManifest) -> (made: Result<RemoteChunkProvider, Error>)
        ensures
            match made {
                Ok(provider) => {
                    &&& spec_chunk_map(manifest.source@, pack_records(manifest.packs@))
                        matches Indexing::Located { map, offset }
                    &&& provider.chunk_map@ == map
                    &&& provider.urls.base_url@ == spec_base_url(base_url@)
                    &&& provider.downloader.wf()
                    &&& provider.downloader.state == WorkerState::Idle
                    &&& provider.downloader.cache_limit == DEFAULT_CACHE_LIMIT
                    &&& provider.downloader.cache@.len() == 0
                    &&& provider.downloader.queue@.len() == 0
                },
                Err(error) => match spec_chunk_map(manifest.source@, pack_records(manifest.packs@)) {
                    Indexing::Missing(id) => error == Error::ChunkNotFound(id),
                    Indexing::TooLong => error is Unspecified,
                    Indexing::Located { .. } => false,
                },
            },
            packs_partition(pack_records(manifest.packs@), all_chunks(manifest.source@))
                && lengths_settled(all_chunks(manifest.source@)) ==> made is Ok,
    {
        let lengths = chunk_lengths(manifest);
        let ghost packs = pack_records(manifest.packs@);
        let ghost owed = packs_partition(packs, all_chunks(manifest.source@)) && lengths_settled(
            all_chunks(manifest.source@),
        );
        let mut chunk_map: HashMap<u64, ChunkPackInfo> = HashMap::new();
        let mut p: usize = 0;
        proof {
            assert(packs.take(0) =~= Seq::<PackRecord>::empty());
            if owed {
                lemma_lengths_by_id(all_chunks(manifest.source@));
                lemma_partition_can_be_indexed(lengths@, packs, all_chunks(manifest.source@));
            }
        }
        while p < manifest.packs.len()
            invariant
                p <= manifest.packs@.len(),
                owed == (packs_partition(packs, all_chunks(manifest.source@)) && lengths_settled(
                    all_chunks(manifest.source@),
                )),
                owed ==> index_packs(lengths@, packs) is Located,
                packs == pack_records(manifest.packs@),
                lengths@ == lengths_by_id(all_chunks(manifest.source@)),
                index_packs(lengths@, packs.take(p as int)) matches Indexing::Located {
                    map,
                    offset,
                } && map == chunk_map@,
            decreases manifest.packs@.len() - p,
        {
            let pack = &manifest.packs[p];
            let ghost before = chunk_map@;
            let mut offset: u64 = 0;
            let mut c: usize = 0;
            proof {
                assert(packs.take(p + 1).drop_last() =~= packs.take(p as int));
                assert(packs.take(p + 1).last() == pack@);
            }
            while c < pack.chunks.len()
                invariant
                    c <= pack.chunks@.len(),
                    p < packs.len(),
                    owed == (packs_partition(packs, all_chunks(manifest.source@))
                        && lengths_settled(all_chunks(manifest.source@))),
                    owed ==> index_packs(lengths@, packs) is Located,
                    packs == pack_records(manifest.packs@),
                    lengths@ == lengths_by_id(all_chunks(manifest.source@)),
                    packs.take(p + 1).drop_last() == packs.take(p as int),
                    packs.take(p + 1).last() == pack@,
                    index_packs(lengths@, packs.take(p as int)) matches Indexing::Located {
                        map,
                        offset,
                    } && map == before,
                    index_pack(before, lengths@, pack@, c as nat) == (Indexing::Located {
                        map: chunk_map@,
                        offset: offset as nat,
                    }),
                decreases pack.chunks@.len() - c,
            {
                let id: u64 = pack.chunks[c];
                let length: u64 = match lengths.get(&id) {
                    Some(length) => *length,
                    None => {
                        proof {
                            lemma_index_pack_fails(before, lengths@, pack@, c + 1);
                            lemma_index_packs_fails(lengths@, packs, p + 1);
                        }
                        return Err(Error::ChunkNotFound(id));
                    },
                };
                let end: u64 = match offset.checked_add(length) {
                    Some(end) => end,
                    None => {
                        proof {
                            lemma_index_pack_fails(before, lengths@, pack@, c + 1);
                            lemma_index_packs_fails(lengths@, packs, p + 1);
                        }
                        return Err(
                            Error::Unspecified("the chunks of a pack are too long".to_string()),
                        );
                    },
                };
                chunk_map.insert(
                    id,
                    ChunkPackInfo { pack_id: pack.hash, pack_length: pack.length, offset, length },
                );
                offset = end;
                c += 1;
            }
            p += 1;
        }
        proof {
            assert(packs.take(p as int) =~= packs);
        }
        Ok(
            RemoteChunkProvider {
                chunk_map,
                downloader: PackDownloader::new(DEFAULT_CACHE_LIMIT),
                urls: AsyncDownloader::new(base_url),
            },
        )
    }

    /// Lists the packs that the fetches of `plan` need, each once with its
    /// length, in the order in which the plan first needs them.
    pub fn planned_packs(&self, plan: &SyncPlan) -> (packs: Vec<(u64, u64)>)
        ensures
            packs@ == packs_for_plan(self.chunk_map@, plan@),
    {
        let mut packs: Vec<(u64, u64)> = Vec::new();
        let mut f: usize = 0;
        proof {
            assert(plan@.take(0) =~= Seq::<FilePlan>::empty());
        }
        while f < plan.operations.len()
            invariant
                f <= plan.operations@.len(),
                packs@ == packs_for_plan(self.chunk_map@, plan@.take(f as int)),
            decreases plan.operations@.len() - f,
        {
            let operations = &plan.operations[f].1;
            let ghost listed = packs@;
            let mut i: usize = 0;
            proof {
                assert(plan@.take(f + 1).drop_last() =~= plan@.take(f as int));
                assert(plan@.take(f + 1).last() == plan@[f as int]);
                assert(operations@.take(0) =~= Seq::<Operation>::empty());
            }
            while i < operations.len()
                invariant
                    i <= operations@.len(),
                    packs@ == packs_for_operations(
                        listed,
                        self.chunk_map@,
                        operations@.take(i as int),
                    ),
                decreases operations@.len() - i,
            {
                proof {
                    assert(operations@.take(i + 1).drop_last() =~= operations@.take(i as int));
                    assert(operations@.take(i + 1).last() == operations@[i as int]);
                }
                if let Operation::Fetch(chunk) = operations[i] {
                    match self.chunk_map.get(&chunk.hash) {
                        Some(info) => {
                            let pack = (info.pack_id, info.pack_length);
                            if !listed_already(&packs, pack) {
                                packs.push(pack);
                            }
                        },
                        None => {},
                    }
                }
                i += 1;
            }
            proof {
                assert(operations@.take(i as int) =~= operations@);
            }
            f += 1;
        }
        proof {
            assert(plan@.take(f as int) =~= plan@);
        }
        packs
    }

    /// Asks the downloader ahead of need for every pack that `plan` needs, in
    /// the order in which the plan first needs them. The downloader turns
    /// down what it has no room for, and everything if its worker has
    /// stopped. Returns how many requests it took.
    pub fn set_plan(&mut self, plan: &SyncPlan) -> (taken: usize)
        requires
            old(self).downloader.wf(),
        ensures
            final(self).downloader.wf(),
            final(self).chunk_map == old(self).chunk_map,
            final(self).urls == old(self).urls,
            final(self).downloader.cache == old(self).downloader.cache,
            final(self).downloader.cache_size == old(self).downloader.cache_size,
            final(self).downloader.cache_limit == old(self).downloader.cache_limit,
            final(self).downloader.fetching == old(self).downloader.fetching,
            final(self).downloader.queue@.len() == old(self).downloader.queue@.len() + taken,
            final(self).downloader.state == (if taken > 0 && old(self).downloader.state
                == WorkerState::Idle {
                WorkerState::Enqueued
            } else {
                old(self).downloader.state
            }),
            ({
                let start = Waiting {
                    queue: old(self).downloader.queue@,
                    queued_size: old(self).downloader.queued_size,
                };
                let waiting = if old(self).downloader.spec_alive() {
                    preload_all(
                        start,
                        old(self).downloader.cache_size,
                        old(self).downloader.cache_limit,
                        packs_for_plan(old(self).chunk_map@, plan@),
                    )
                } else {
                    start
                };
                final(self).downloader.queue@ == waiting.queue && final(self).downloader.queued_size == waiting.queued_size
            }),
    {
        let packs = self.planned_packs(plan);
        let ghost start = Waiting {
            queue: self.downloader.queue@,
            queued_size: self.downloader.queued_size,
        };
        let mut taken: usize = 0;
        let mut i: usize = 0;
        proof {
            assert(packs@.take(0) =~= Seq::<(u64, u64)>::empty());
        }
        while i < packs.len()
            invariant
                i <= packs@.len(),
                taken <= i,
                self.downloader.wf(),
                self.chunk_map == old(self).chunk_map,
                self.urls == old(self).urls,
                self.downloader.cache == old(self).downloader.cache,
                self.downloader.cache_size == old(self).downloader.cache_size,
                self.downloader.cache_limit == old(self).downloader.cache_limit,
                self.downloader.fetching == old(self).downloader.fetching,
                self.downloader.spec_alive() == old(self).downloader.spec_alive(),
                self.downloader.queue@.len() == old(self).downloader.queue@.len() + taken,
                self.downloader.state == (if taken > 0 && old(self).downloader.state
                    == WorkerState::Idle {
                    WorkerState::Enqueued
                } else {
                    old(self).downloader.state
                }),
                start == (Waiting {
                    queue: old(self).downloader.queue@,
                    queued_size: old(self).downloader.queued_size,
                }),
                ({
                    let waiting = if old(self).downloader.spec_alive() {
                        preload_all(
                            start,
                            old(self).downloader.cache_size,
                            old(self).downloader.cache_limit,
                            packs@.take(i as int),
                        )
                    } else {
                        start
                    };
                    self.downloader.queue@ == waiting.queue && self.downloader.queued_size
                        == waiting.queued_size
                }),
            decreases packs@.len() - i,
        {
            proof {
                assert(packs@.take(i + 1).drop_last() =~= packs@.take(i as int));
                assert(packs@.take(i + 1).last() == packs@[i as int]);
            }
            if self.downloader.preload(packs[i].0, packs[i].1) {
                taken += 1;
            }
            i += 1;
        }
        proof {
            assert(packs@.take(i as int) =~= packs@);
        }
        taken
    }

    /// Answers a request for the chunk `key`: with its bytes if the pack of
    /// the chunk has arrived, else by asking the downloader for the pack as
    /// a matter of urgency.
    ///
    /// Fails with [`Error::ChunkNotFound`] if the index does not know the
    /// chunk; nothing is asked of the downloader then. Fails with
    /// [`Error::Unspecified`] if the pack that arrived does not have the
    /// length the manifest gives for it or does not hold the chunk, and if the
    /// downloader's worker has stopped before the pack arrived.
    pub fn get_chunk(&mut self, key: &u64) -> (got: Result<Lookup, Error>)
        requires
            old(self).downloader.wf(),
        ensures
            final(self).downloader.wf(),
            final(self).chunk_map == old(self).chunk_map,
            final(self).urls == old(self).urls,
            final(self).downloader.cache == old(self).downloader.cache,
            match got {
                Ok(Lookup::Ready(data)) => {
                    let info = old(self).chunk_map@[*key];
                    let pack = old(self).downloader.cache@[info.pack_id]@;
                    &&& old(self).chunk_map@.contains_key(*key)
                    &&& old(self).downloader.cache@.contains_key(info.pack_id)
                    &&& pack.len() == info.pack_length
                    &&& info.offset + info.length <= pack.len()
                    &&& data@ == pack.subrange(info.offset as int, info.offset + info.length)
                    &&& final(self).downloader == old(self).downloader
                },
                Ok(Lookup::Wanted(request)) => {
                    let info = old(self).chunk_map@[*key];
                    &&& old(self).chunk_map@.contains_key(*key)
                    &&& !old(self).downloader.cache@.contains_key(info.pack_id)
                    &&& old(self).downloader.spec_alive()
                    &&& request == (PackRequest {
                        pack_id: info.pack_id,
                        length: info.pack_length,
                        urgent: true,
                    })
                    &&& final(self).downloader.queue@ == old(self).downloader.queue@.push(request)
                },
                Err(error) => {
                    &&& final(self).downloader.queue@ == old(self).downloader.queue@
                    &&& final(self).downloader.queued_size == old(self).downloader.queued_size
                    &&& final(self).downloader.state == old(self).downloader.state
                    &&& if !old(self).chunk_map@.contains_key(*key) {
                        error == Error::ChunkNotFound(*key)
                    } else {
                        let info = old(self).chunk_map@[*key];
                        &&& error is Unspecified
                        &&& if old(self).downloader.cache@.contains_key(info.pack_id) {
                            let pack = old(self).downloader.cache@[info.pack_id]@;
                            pack.len() != info.pack_length || info.offset + info.length
                                > pack.len()
                        } else {
                            !old(self).downloader.spec_alive()
                        }
                    }
                },
            },
    {
        let info: ChunkPackInfo = match self.chunk_map.get(key) {
            Some(info) => *info,
            None => {
                return Err(Error::ChunkNotFound(*key));
            },
        };
        match self.downloader.get_pack(info.pack_id) {
            Some(pack) => {
                match slice_chunk(pack.as_slice(), &info) {
                    Ok(data) => Ok(Lookup::Ready(data)),
                    Err(error) => Err(error),
                }
            },
            None => {
                if self.downloader.download(info.pack_id, info.pack_length) {
                    Ok(
                        Lookup::Wanted(
                            PackRequest {
                                pack_id: info.pack_id,
                                length: info.pack_length,
                                urgent: true,
                            },
                        ),
                    )
                } else {
                    Err(Error::Unspecified("Got none downloading pack".to_string()))
                }
            },
        }
    }
}

/// Decides whether `pack` is among `packs`.
fn listed_already(packs: &Vec<(u64, u64)>, pack: (u64, u64)) -> (listed: bool)
    ensures
        listed == packs@.contains(pack),
{
    let mut i: usize = 0;
    while i < packs.len()
        invariant
            i <= packs@.len(),
            forall|j: int| 0 <= j < i ==> packs@[j] != pack,
        decreases packs@.len() - i,
    {
        if packs[i].0 == pack.0 && packs[i].1 == pack.1 {
            return true;
        }
        i += 1;
    }
    false
}

/// Once a chunk of a pack cannot be located, the pack cannot be indexed.
proof fn lemma_index_pack_fails(
    start: Map<u64, ChunkPackInfo>,
    lengths: Map<u64, u64>,
    pack: PackRecord,
    n: int,
)
    requires
        0 <= n <= pack.chunks.len(),
        !(index_pack(start, lengths, pack, n as nat) is Located),
    ensures
        index_pack(start, lengths, pack, pack.chunks.len()) == index_pack(
            start,
            lengths,
            pack,
            n as nat,
        ),
    decreases pack.chunks.len() - n,
{
    if n < pack.chunks.len() {
        lemma_index_pack_fails(start, lengths, pack, n + 1);
    }
}

/// Once a pack cannot be indexed, the packs after it are not looked at.
proof fn lemma_index_packs_fails(lengths: Map<u64, u64>, packs: Seq<PackRecord>, n: int)
    requires
        0 <= n <= packs.len(),
        !(index_packs(lengths, packs.take(n)) is Located),
    ensures
        index_packs(lengths, packs) == index_packs(lengths, packs.take(n)),
    decreases packs.len(),
{
    if n == packs.len() {
        assert(packs.take(n) =~= packs);
    } else {
        assert(packs.drop_last().take(n) =~= packs.take(n));
        lemma_index_packs_fails(lengths, packs.drop_last(), n);
    }
}

/// An urgent request before which none is urgent is the first urgent one.
proof fn lemma_first_urgent(queue: Seq<PackRequest>, i: int)
    requires
        0 <= i < queue.len(),
        queue[i].urgent,
        forall|j: int| 0 <= j < i ==> !(#[trigger] queue[j]).urgent,
    ensures
        first_urgent(queue) == i,
    decreases i,
{
    if i > 0 {
        assert(!queue[0].urgent);
        let rest = queue.skip(1);
        assert forall|j: int| 0 <= j < i - 1 implies !(#[trigger] rest[j]).urgent by {
            assert(rest[j] == queue[j + 1]);
        }
        lemma_first_urgent(rest, i - 1);
    }
}

/// If no request is urgent, the search for one runs to the end of the queue.
proof fn lemma_none_urgent(queue: Seq<PackRequest>)
    requires
        forall|j: int| 0 <= j < queue.len() ==> !(#[trigger] queue[j]).urgent,
    ensures
        first_urgent(queue) == queue.len(),
    decreases queue.len(),
{
    if queue.len() > 0 {
        let rest = queue.skip(1);
        assert forall|j: int| 0 <= j < rest.len() implies !(#[trigger] rest[j]).urgent by {
            assert(rest[j] == queue[j + 1]);
        }
        lemma_none_urgent(rest);
    }
}

} // verus!

//! Packs: chunks grouped for transport.
//!
//! A remote source publishes its chunks in packs, so that a destination asks
//! for a few large files instead of many small ones. A pack holds the bytes of
//! its chunks one after the other, in the order of its list of identifiers.

use crate::chunk::{lemma_total_length_split, total_length, Chunk};
use crate::hash::{chunk_id, spec_chunk_id};
use crate::manifest::{FileRecord, Manifest};
use vstd::bytes::{spec_u64_to_le_bytes, u64_to_le_bytes};
use vstd::prelude::*;

verus! {

/// The size limit of a pack unless another is asked for: 100 MiB.
pub const DEFAULT_PACK_SIZE: usize = 104857600;

/// A pack as plain values: what a [`Pack`] stands for.
pub struct PackRecord {
    pub hash: u64,
    pub length: u64,
    pub chunks: Seq<u64>,
}

/// A group of chunks that travel together.
#[derive(Debug)]
pub struct Pack {
    /// The identifier of the pack, derived from the identifiers of its chunks.
    pub hash: u64,
    /// The number of bytes in the pack.
    pub length: u64,
    /// The identifiers of the chunks, in the order in which their bytes lie in
    /// the pack.
    pub chunks: Vec<u64>,
}

impl View for Pack {
    type V = PackRecord;

    open spec fn view(&self) -> PackRecord {
        PackRecord { hash: self.hash, length: self.length, chunks: self.chunks@ }
    }
}

/// The records that a sequence of packs stands for.
pub open spec fn pack_records(packs: Seq<Pack>) -> Seq<PackRecord> {
    Seq::new(packs.len(), |i: int| packs[i]@)
}

/// A manifest together with the packs that its chunks were grouped into.
#[derive(Debug)]
pub struct RemoteManifest {
    pub source: Manifest,
    pub packs: Vec<Pack>,
}

/// All chunks of a manifest, file after file.
pub open spec fn all_chunks(files: Seq<FileRecord>) -> Seq<Chunk>
    decreases files.len(),
{
    if files.len() == 0 {
        Seq::empty()
    } else {
        all_chunks(files.drop_last()) + files.last().chunks
    }
}

/// The identifiers of `chunks`, in order.
pub open spec fn ids_of(chunks: Seq<Chunk>) -> Seq<u64> {
    Seq::new(chunks.len(), |i: int| chunks[i].hash)
}

/// The identifiers written one after the other, each as eight little-endian
/// bytes.
pub open spec fn id_bytes(ids: Seq<u64>) -> Seq<u8>
    decreases ids.len(),
{
    if ids.len() == 0 {
        Seq::empty()
    } else {
        id_bytes(ids.drop_last()) + spec_u64_to_le_bytes(ids.last())
    }
}

/// The identifier of a pack with the chunks `ids`.
pub open spec fn spec_pack_id(ids: Seq<u64>) -> u64 {
    spec_chunk_id(id_bytes(ids))
}

/// The pack that holds `length` bytes in the chunks `ids`.
pub open spec fn closed_pack(length: nat, ids: Seq<u64>) -> PackRecord {
    PackRecord { hash: spec_pack_id(ids), length: length as u64, chunks: ids }
}

/// The packer between two chunks: the packs closed so far, and the length and
/// the chunks of the pack that is being filled.
pub struct Packing {
    pub closed: Seq<PackRecord>,
    pub length: nat,
    pub ids: Seq<u64>,
}

/// The packer after one more chunk. A chunk that would take the open pack over
/// `size` bytes closes it and opens the next; then the chunk goes into the
/// open pack.
pub open spec fn pack_chunk(state: Packing, chunk: Chunk, size: nat) -> Packing {
    if state.length + chunk.length > size {
        Packing {
            closed: state.closed.push(closed_pack(state.length, state.ids)),
            length: chunk.length as nat,
            ids: seq![chunk.hash],
        }
    } else {
        Packing {
            closed: state.closed,
            length: (state.length + chunk.length) as nat,
            ids: state.ids.push(chunk.hash),
        }
    }
}

/// The packer after the chunks `chunks`, taken in order.
pub open spec fn packing_of(chunks: Seq<Chunk>, size: nat) -> Packing
    decreases chunks.len(),
{
    if chunks.len() == 0 {
        Packing { closed: Seq::empty(), length: 0, ids: Seq::empty() }
    } else {
        pack_chunk(packing_of(chunks.drop_last(), size), chunks.last(), size)
    }
}

/// The packs that `chunks` are grouped into under the limit `size`: the packs
/// closed on the way and, if it holds any bytes, the pack left open at the
/// end.
pub open spec fn spec_packs(chunks: Seq<Chunk>, size: nat) -> Seq<PackRecord> {
    let state = packing_of(chunks, size);
    if state.length > 0 {
        state.closed.push(closed_pack(state.length, state.ids))
    } else {
        state.closed
    }
}

/// The packs cut `chunks` into consecutive runs: each pack lists the
/// identifiers of one run, its length is the total length of the run, its
/// identifier is derived from the list, and the runs follow one another from
/// the first chunk to the last.
pub open spec fn packs_partition(packs: Seq<PackRecord>, chunks: Seq<Chunk>) -> bool
    decreases packs.len(),
{
    if packs.len() == 0 {
        chunks.len() == 0
    } else {
        let pack = packs.last();
        let start = chunks.len() - pack.chunks.len();
        &&& start >= 0
        &&& pack.chunks == ids_of(chunks.skip(start))
        &&& pack.length == total_length(chunks.skip(start))
        &&& pack.hash == spec_pack_id(pack.chunks)
        &&& packs_partition(packs.drop_last(), chunks.take(start))
    }
}

/// The identifiers that the packs list, pack after pack.
pub open spec fn packed_ids(packs: Seq<PackRecord>) -> Seq<u64>
    decreases packs.len(),
{
    if packs.len() == 0 {
        Seq::empty()
    } else {
        packed_ids(packs.drop_last()) + packs.last().chunks
    }
}

/// The sum of the lengths of the packs.
pub open spec fn packed_length(packs: Seq<PackRecord>) -> nat
    decreases packs.len(),
{
    if packs.len() == 0 {
        0
    } else {
        packed_length(packs.drop_last()) + packs.last().length as nat
    }
}

/// No chunk is empty.
pub open spec fn no_empty_chunk(chunks: Seq<Chunk>) -> bool {
    forall|i: int| 0 <= i < chunks.len() ==> (#[trigger] chunks[i]).length > 0
}

/// While packing, the closed packs cut the chunks before the open pack into
/// runs, and the open pack holds the run of the chunks after them.
proof fn lemma_packing_partition(chunks: Seq<Chunk>, size: nat)
    requires
        size <= u64::MAX,
        no_empty_chunk(chunks),
    ensures
        ({
            let state = packing_of(chunks, size);
            let start = chunks.len() - state.ids.len();
            &&& start >= 0
            &&& state.ids == ids_of(chunks.skip(start))
            &&& state.length == total_length(chunks.skip(start))
            &&& state.length <= u64::MAX
            &&& state.ids.len() > 0 ==> state.length > 0
            &&& packs_partition(state.closed, chunks.take(start))
        }),
    decreases chunks.len(),
{
    if chunks.len() == 0 {
        assert(chunks.skip(0) =~= chunks);
        assert(ids_of(chunks) =~= Seq::<u64>::empty());
        assert(chunks.take(0) =~= chunks);
    } else {
        let rest = chunks.drop_last();
        let chunk = chunks.last();
        lemma_packing_partition(rest, size);
        let before = packing_of(rest, size);
        let state = packing_of(chunks, size);
        let old_start = rest.len() - before.ids.len();
        assert(chunk.length > 0);
        if before.length + chunk.length > size {
            let start = chunks.len() - 1;
            assert(chunks.skip(start) =~= seq![chunk]);
            assert(ids_of(chunks.skip(start)) =~= seq![chunk.hash]);
            assert(chunks.skip(start).drop_last() =~= Seq::<Chunk>::empty());
            assert(total_length(chunks.skip(start).drop_last()) == 0);
            assert(total_length(chunks.skip(start)) == chunk.length);
            assert(chunks.take(start) =~= rest);
            let pack = closed_pack(before.length, before.ids);
            assert(state.closed.last() == pack);
            assert(state.closed.drop_last() =~= before.closed);
            assert(rest.len() - pack.chunks.len() == old_start);
        } else {
            let start = old_start;
            assert(chunks.skip(start).drop_last() =~= rest.skip(start));
            assert(chunks.skip(start).last() == chunk);
            assert(ids_of(chunks.skip(start)) =~= before.ids.push(chunk.hash));
            assert(chunks.take(start) =~= rest.take(start));
        }
    }
}

/// Every chunk of the manifest lies in exactly one run, and the packs are
/// those runs: the packs made of chunks none of which is empty cut them into
/// consecutive runs.
pub proof fn lemma_packs_partition(chunks: Seq<Chunk>, size: nat)
    requires
        size <= u64::MAX,
        no_empty_chunk(chunks),
    ensures
        packs_partition(spec_packs(chunks, size), chunks),
{
    lemma_packing_partition(chunks, size);
    let state = packing_of(chunks, size);
    let start = chunks.len() - state.ids.len();
    if state.length > 0 {
        let packs = spec_packs(chunks, size);
        assert(packs.last() == closed_pack(state.length, state.ids));
        assert(packs.drop_last() =~= state.closed);
    } else {
        assert(chunks.take(start) =~= chunks);
    }
}

/// Packs that cut chunks into runs list the identifiers of the chunks, each
/// once and in order, and hold as many bytes as the chunks.
pub proof fn lemma_partition_totals(packs: Seq<PackRecord>, chunks: Seq<Chunk>)
    requires
        packs_partition(packs, chunks),
    ensures
        packed_ids(packs) == ids_of(chunks),
        packed_length(packs) == total_length(chunks),
    decreases packs.len(),
{
    if packs.len() == 0 {
        assert(ids_of(chunks) =~= Seq::<u64>::empty());
    } else {
        let pack = packs.last();
        let start = chunks.len() - pack.chunks.len();
        lemma_partition_totals(packs.drop_last(), chunks.take(start));
        lemma_total_length_split(chunks, start);
        assert(ids_of(chunks) =~= ids_of(chunks.take(start)) + ids_of(chunks.skip(start)));
    }
}

/// The packs of a manifest none of whose chunks is empty list every chunk
/// once, in the manifest's order, and the lengths of the packs add up to the
/// lengths of the chunks.
pub proof fn lemma_packs_hold_every_chunk(chunks: Seq<Chunk>, size: nat)
    requires
        size <= u64::MAX,
        no_empty_chunk(chunks),
    ensures
        packed_ids(spec_packs(chunks, size)) == ids_of(chunks),
        packed_length(spec_packs(chunks, size)) == total_length(chunks),
{
    lemma_packs_partition(chunks, size);
    lemma_partition_totals(spec_packs(chunks, size), chunks);
}

/// Every identifier that a pack lists is that of one of the chunks.
pub proof fn lemma_packed_id_is_chunk(
    packs: Seq<PackRecord>,
    chunks: Seq<Chunk>,
    p: int,
    a: int,
) -> (j: int)
    requires
        packs_partition(packs, chunks),
        0 <= p < packs.len(),
        0 <= a < packs[p].chunks.len(),
    ensures
        0 <= j < chunks.len(),
        chunks[j].hash == packs[p].chunks[a],
        p < packs.len() - 1 ==> j < chunks.len() - packs.last().chunks.len(),
        p == packs.len() - 1 ==> j >= chunks.len() - packs.last().chunks.len(),
    decreases packs.len(),
{
    let pack = packs.last();
    let start = chunks.len() - pack.chunks.len();
    if p == packs.len() - 1 {
        assert(chunks.skip(start)[a] == chunks[start + a]);
        start + a
    } else {
        let j = lemma_packed_id_is_chunk(packs.drop_last(), chunks.take(start), p, a);
        assert(packs.drop_last()[p] == packs[p]);
        assert(chunks.take(start)[j] == chunks[j]);
        j
    }
}

/// Where no two chunks have the same identifier, each chunk is listed by
/// exactly one pack.
pub proof fn lemma_each_chunk_in_one_pack(packs: Seq<PackRecord>, chunks: Seq<Chunk>, i: int) -> (p:
    int)
    requires
        packs_partition(packs, chunks),
        forall|a: int, b: int|
            0 <= a < b < chunks.len() ==> (#[trigger] chunks[a]).hash != (#[trigger] chunks[b]).hash,
        0 <= i < chunks.len(),
    ensures
        0 <= p < packs.len(),
        packs[p].chunks.contains(chunks[i].hash),
        forall|q: int|
            0 <= q < packs.len() && q != p ==> !(#[trigger] packs[q]).chunks.contains(
                chunks[i].hash,
            ),
    decreases packs.len(),
{
    let pack = packs.last();
    let start = chunks.len() - pack.chunks.len();
    let id = chunks[i].hash;
    let p = if i >= start {
        assert(chunks.skip(start)[i - start] == chunks[i]);
        assert(pack.chunks[i - start] == id);
        packs.len() - 1
    } else {
        let rest = chunks.take(start);
        assert forall|a: int, b: int| 0 <= a < b < rest.len() implies (#[trigger] rest[a]).hash != (
        #[trigger] rest[b]).hash by {
            assert(rest[a] == chunks[a] && rest[b] == chunks[b]);
        }
        assert(rest[i] == chunks[i]);
        let p = lemma_each_chunk_in_one_pack(packs.drop_last(), rest, i);
        assert(packs.drop_last()[p] == packs[p]);
        p
    };
    assert forall|q: int| 0 <= q < packs.len() && q != p implies !(#[trigger] packs[q]).chunks.contains(
        id,
    ) by {
        if packs[q].chunks.contains(id) {
            let a = choose|a: int| 0 <= a < packs[q].chunks.len() && packs[q].chunks[a] == id;
            let j = lemma_packed_id_is_chunk(packs, chunks, q, a);
            if j < i {
                assert(chunks[j].hash != chunks[i].hash);
            } else if i < j {
                assert(chunks[i].hash != chunks[j].hash);
            } else {
                if i >= start {
                    assert(q < packs.len() - 1);
                } else {
                    if q == packs.len() - 1 {
                    } else {
                        assert(packs.drop_last()[q] == packs[q]);
                    }
                }
            }
        }
    }
    p
}

/// While no chunk is larger than the limit, neither the open pack nor a closed
/// one is.
proof fn lemma_packing_bounded(chunks: Seq<Chunk>, size: nat)
    requires
        forall|i: int| 0 <= i < chunks.len() ==> (#[trigger] chunks[i]).length <= size,
    ensures
        packing_of(chunks, size).length <= size,
        forall|j: int|
            0 <= j < packing_of(chunks, size).closed.len() ==> (#[trigger] packing_of(
                chunks,
                size,
            ).closed[j]).length <= size,
    decreases chunks.len(),
{
    if chunks.len() > 0 {
        let rest = chunks.drop_last();
        assert forall|i: int| 0 <= i < rest.len() implies (#[trigger] rest[i]).length <= size by {
            assert(rest[i] == chunks[i]);
        }
        lemma_packing_bounded(rest, size);
        let before = packing_of(rest, size);
        let state = packing_of(chunks, size);
        assert(chunks.last() == chunks[chunks.len() - 1]);
        assert forall|j: int| 0 <= j < state.closed.len() implies (#[trigger] state.closed[j]).length
            <= size by {
            if j < before.closed.len() {
                assert(state.closed[j] == before.closed[j]);
            }
        }
    }
}

/// No pack is larger than the limit, as long as no single chunk is.
pub proof fn lemma_packs_within_limit(chunks: Seq<Chunk>, size: nat)
    requires
        forall|i: int| 0 <= i < chunks.len() ==> (#[trigger] chunks[i]).length <= size,
    ensures
        forall|j: int|
            0 <= j < spec_packs(chunks, size).len() ==> (#[trigger] spec_packs(
                chunks,
                size,
            )[j]).length <= size,
{
    lemma_packing_bounded(chunks, size);
    let state = packing_of(chunks, size);
    let packs = spec_packs(chunks, size);
    assert forall|j: int| 0 <= j < packs.len() implies (#[trigger] packs[j]).length <= size by {
        if j < state.closed.len() {
            assert(packs[j] == state.closed[j]);
        }
    }
}

/// The identifiers of the packs depend on nothing but the chunks and the
/// limit: two runs of the packer over the same chunks give the same packs.
pub proof fn lemma_pack_ids_determined(
    first: Seq<PackRecord>,
    second: Seq<PackRecord>,
    chunks: Seq<Chunk>,
    size: nat,
)
    requires
        first == spec_packs(chunks, size),
        second == spec_packs(chunks, size),
    ensures
        first.len() == second.len(),
        forall|j: int| 0 <= j < first.len() ==> (#[trigger] first[j]).hash == second[j].hash,
        first == second,
{
}

/// The packer at work.
struct Packer {
    size: u64,
    packs: Vec<Pack>,
    length: u64,
    bytes: Vec<u8>,
    ids: Vec<u64>,
}

impl Packer {
    spec fn state(&self) -> Packing {
        Packing { closed: pack_records(self.packs@), length: self.length as nat, ids: self.ids@ }
    }

    spec fn wf(&self) -> bool {
        self.bytes@ == id_bytes(self.ids@)
    }

    fn new(size: u64) -> (packer: Packer)
        ensures
            packer.wf(),
            packer.size == size,
            packer.state() == packing_of(Seq::empty(), size as nat),
    {
        let packer = Packer { size, packs: Vec::new(), length: 0, bytes: Vec::new(), ids: Vec::new() };
        assert(packer.state().closed =~= Seq::<PackRecord>::empty());
        packer
    }

    /// Closes the open pack and opens an empty one.
    fn close(&mut self)
        requires
            old(self).wf(),
        ensures
            final(self).wf(),
            final(self).size == old(self).size,
            pack_records(final(self).packs@) == pack_records(old(self).packs@).push(
                closed_pack(old(self).length as nat, old(self).ids@),
            ),
            final(self).length == 0,
            final(self).ids@ == Seq::<u64>::empty(),
    {
        let hash: u64 = chunk_id(self.bytes.as_slice());
        let mut ids: Vec<u64> = Vec::new();
        std::mem::swap(&mut ids, &mut self.ids);
        let ghost before = pack_records(self.packs@);
        let ghost length = self.length;
        self.packs.push(Pack { hash, length: self.length, chunks: ids });
        self.length = 0;
        self.bytes = Vec::new();
        assert(pack_records(self.packs@) =~= before.push(closed_pack(length as nat, ids@)));
    }

    /// Takes one more chunk.
    fn add(&mut self, chunk: &Chunk)
        requires
            old(self).wf(),
        ensures
            final(self).wf(),
            final(self).size == old(self).size,
            final(self).state() == pack_chunk(old(self).state(), *chunk, old(self).size as nat),
    {
        let fits = match self.length.checked_add(chunk.length) {
            Some(sum) => sum <= self.size,
            None => false,
        };
        if !fits {
            self.close();
        }
        let mut encoded = u64_to_le_bytes(chunk.hash);
        let ghost ids = self.ids@;
        self.bytes.append(&mut encoded);
        self.ids.push(chunk.hash);
        self.length = self.length + chunk.length;
        proof {
            assert(self.ids@.drop_last() =~= ids);
            if !fits {
                assert(self.ids@ =~= seq![chunk.hash]);
            }
        }
    }

    /// Closes the open pack if it holds any bytes and hands out the packs.
    fn finish(self) -> (packs: Vec<Pack>)
        requires
            self.wf(),
        ensures
            pack_records(packs@) == (if self.state().length > 0 {
                self.state().closed.push(closed_pack(self.state().length, self.state().ids))
            } else {
                self.state().closed
            }),
    {
        let mut packer = self;
        if packer.length > 0 {
            packer.close();
        }
        packer.packs
    }
}

impl RemoteManifest {
    /// The packs list the chunks of the manifest under the limit `size`.
    pub open spec fn packed(&self, size: nat) -> bool {
        pack_records(self.packs@) == spec_packs(all_chunks(self.source@), size)
    }

    /// Groups the chunks of `manifest` into packs of at most `size` bytes.
    ///
    /// The chunks are taken file after file and put into the open pack until
    /// the next one would take it over `size`; so a pack is over the limit
    /// only if it holds a single chunk larger than the limit. The packs are a
    /// function of the manifest and the limit alone. Unless the manifest
    /// holds an empty chunk, the packs cut its chunks into consecutive runs,
    /// so that every chunk lies in exactly one of them.
    pub fn with_pack_size(size: usize, manifest: Manifest) -> (remote: RemoteManifest)
        ensures
            remote.source == manifest,
            remote.packed(size as nat),
            no_empty_chunk(all_chunks(manifest@)) ==> packs_partition(
                pack_records(remote.packs@),
                all_chunks(manifest@),
            ),
    {
        let mut packer = Packer::new(size as u64);
        let mut f: usize = 0;
        while f < manifest.files.len()
            invariant
                f <= manifest.files@.len(),
                packer.wf(),
                packer.size == size,
                packer.state() == packing_of(all_chunks(manifest@.take(f as int)), size as nat),
            decreases manifest.files@.len() - f,
        {
            let file = &manifest.files[f];
            let ghost done = all_chunks(manifest@.take(f as int));
            let mut c: usize = 0;
            proof {
                assert(done + file.chunks@.take(0) =~= done);
            }
            while c < file.chunks.len()
                invariant
                    c <= file.chunks@.len(),
                    packer.wf(),
                    packer.size == size,
                    packer.state() == packing_of(done + file.chunks@.take(c as int), size as nat),
                decreases file.chunks@.len() - c,
            {
                proof {
                    let next = done + file.chunks@.take(c + 1);
                    assert(next.drop_last() =~= done + file.chunks@.take(c as int));
                    assert(next.last() == file.chunks@[c as int]);
                }
                packer.add(&file.chunks[c]);
                c += 1;
            }
            proof {
                assert(file.chunks@.take(c as int) =~= file.chunks@);
                assert(manifest@.take(f + 1).drop_last() =~= manifest@.take(f as int));
                assert(manifest@.take(f + 1).last() == manifest@[f as int]);
                assert(manifest@[f as int].chunks == file.chunks@);
            }
            f += 1;
        }
        proof {
            assert(manifest@.take(f as int) =~= manifest@);
        }
        let packs = packer.finish();
        proof {
            if no_empty_chunk(all_chunks(manifest@)) {
                lemma_packs_partition(all_chunks(manifest@), size as nat);
            }
        }
        RemoteManifest { source: manifest, packs }
    }

    /// Groups the chunks of `manifest` into packs of at most
    /// [`DEFAULT_PACK_SIZE`] bytes.
    pub fn from_manifest(manifest: Manifest) -> (remote: RemoteManifest)
        ensures
            remote.source == manifest,
            remote.packed(DEFAULT_PACK_SIZE as nat),
            no_empty_chunk(all_chunks(manifest@)) ==> packs_partition(
                pack_records(remote.packs@),
                all_chunks(manifest@),
            ),
    {
        RemoteManifest::with_pack_size(DEFAULT_PACK_SIZE, manifest)
    }
}

} // verus!

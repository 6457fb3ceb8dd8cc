//! What is published can be read back.
//!
//! A source groups the chunks of its manifest into packs and publishes each
//! pack as the bytes of its chunks. A destination indexes the packs against
//! the manifest and cuts each chunk out of the pack that the index names.
//! What it cuts out is the chunk.

use crate::chunk::Chunk;
use crate::hash::spec_chunk_id;
use crate::manifest::{describes, file_described, FileRecord};
use crate::network::{
    all_chunks, lemma_packed_id_is_chunk, lemma_packs_partition, no_empty_chunk, packs_partition,
    spec_packs, PackRecord,
};
use crate::provider::{index_manifest, range_bytes, range_servable, ranges_catalog};
use crate::publish::{
    lemma_catalog_lengths_agree, lemma_index_manifest_knows, lemma_index_manifest_ranges,
    lemma_pack_places, lemma_publish_length, lemma_published_chunks_are_placed, lengths_agree,
    placed_in, range_of_chunk, record_lists, spec_pack_contents, spec_publish,
};
use crate::remote::{
    index_packs, knows_lengths, lemma_index_pack_of_run, lemma_lengths_by_id,
    lemma_partition_can_be_indexed, lengths_by_id, lengths_settled, ChunkPackInfo,
};
use crate::supply::lemma_chunk_in_bounds;
use crate::tree::{first_index, has_path, index_of, lemma_first_index_exists, Directory};
use vstd::prelude::*;

verus! {

/// Every chunk of a manifest is a chunk of one of its files.
pub proof fn lemma_all_chunks_come_from_records(records: Seq<FileRecord>, i: int) -> (at: (
    int,
    int,
))
    requires
        0 <= i < all_chunks(records).len(),
    ensures
        0 <= at.0 < records.len(),
        0 <= at.1 < records[at.0].chunks.len(),
        all_chunks(records)[i] == records[at.0].chunks[at.1],
    decreases records.len(),
{
    let rest = records.drop_last();
    let before = all_chunks(rest).len();
    if i < before {
        let at = lemma_all_chunks_come_from_records(rest, i);
        assert(rest[at.0] == records[at.0]);
        at
    } else {
        (records.len() - 1, i - before)
    }
}

/// Every chunk of every file of a manifest is one of the manifest's chunks.
pub proof fn lemma_record_chunk_in_all(records: Seq<FileRecord>, m: int, j: int) -> (i: int)
    requires
        0 <= m < records.len(),
        0 <= j < records[m].chunks.len(),
    ensures
        0 <= i < all_chunks(records).len(),
        all_chunks(records)[i] == records[m].chunks[j],
    decreases records.len(),
{
    let rest = records.drop_last();
    if m < records.len() - 1 {
        assert(rest[m] == records[m]);
        lemma_record_chunk_in_all(rest, m, j)
    } else {
        all_chunks(rest).len() + j
    }
}

/// No chunk of a manifest that describes a source is empty.
pub proof fn lemma_described_chunks_are_not_empty(
    records: Seq<FileRecord>,
    source: Map<Seq<char>, Seq<u8>>,
)
    requires
        describes(records, source),
    ensures
        no_empty_chunk(all_chunks(records)),
{
    let all = all_chunks(records);
    assert forall|i: int| 0 <= i < all.len() implies (#[trigger] all[i]).length > 0 by {
        let at = lemma_all_chunks_come_from_records(records, i);
        assert(file_described(records[at.0], source));
    }
}

/// The lengths by identifier know the identifier of every chunk.
proof fn lemma_lengths_know_every_chunk(chunks: Seq<Chunk>, i: int)
    requires
        0 <= i < chunks.len(),
    ensures
        lengths_by_id(chunks).contains_key(chunks[i].hash),
    decreases chunks.len(),
{
    if i < chunks.len() - 1 {
        lemma_lengths_know_every_chunk(chunks.drop_last(), i);
    }
}

/// What the index of a manifest holds under an identifier is the range of a
/// chunk with that identifier; the source holds the range, and its bytes have
/// the identifier.
pub proof fn lemma_indexed_ranges_are_served(source: Directory, records: Seq<FileRecord>, key: u64)
    requires
        source.wf(),
        describes(records, source@),
        index_manifest(source.files@, records).contains_key(key),
    ensures
        range_servable(source.files@, index_manifest(source.files@, records)[key]),
        ranges_catalog(source.files@, index_manifest(source.files@, records)).contains_key(key),
        spec_chunk_id(
            ranges_catalog(source.files@, index_manifest(source.files@, records))[key],
        ) == key,
{
    let files = source.files@;
    let index = index_manifest(files, records);
    let range = index[key];
    lemma_index_manifest_ranges(files, records, key);
    let m = choose|m: int|
        0 <= m < records.len() && range_of_chunk(
            (#[trigger] records[m]).chunks,
            first_index(files, records[m].path),
            key,
            range,
        );
    let record = records[m];
    let j = choose|j: int|
        0 <= j < record.chunks.len() && #[trigger] record.chunks[j] == (Chunk {
            hash: key,
            offset: range.offset,
            length: range.length,
        });
    assert(file_described(record, source@));
    assert(has_path(files, record.path));
    assert(files.len() == source.files.len());
    lemma_first_index_exists(files, record.path, index_of(files, record.path));
    let at = first_index(files, record.path)->0;
    source.lemma_entry_in_view(at as int);
    lemma_chunk_in_bounds(record.chunks, source@[record.path].len(), j);
    assert(range_servable(files, range));
    assert(range_bytes(files, range) == source@[record.path].subrange(
        record.chunks[j].offset as int,
        record.chunks[j].offset + record.chunks[j].length,
    ));
}

/// The source serves every chunk of a manifest that describes it.
pub proof fn lemma_every_chunk_is_served(source: Directory, records: Seq<FileRecord>, i: int)
    requires
        source.wf(),
        describes(records, source@),
        0 <= i < all_chunks(records).len(),
    ensures
        ranges_catalog(source.files@, index_manifest(source.files@, records)).contains_key(
            all_chunks(records)[i].hash,
        ),
{
    lemma_lengths_know_every_chunk(all_chunks(records), i);
    lemma_index_manifest_knows(source.files@, records, all_chunks(records)[i].hash);
    lemma_indexed_ranges_are_served(source, records, all_chunks(records)[i].hash);
}

/// A pack all of whose chunks a catalog holds can be put together.
proof fn lemma_pack_contents_succeed(catalog: Map<u64, Seq<u8>>, ids: Seq<u64>)
    requires
        forall|a: int| 0 <= a < ids.len() ==> catalog.contains_key(#[trigger] ids[a]),
    ensures
        spec_pack_contents(catalog, ids) is Some,
    decreases ids.len(),
{
    if ids.len() > 0 {
        let rest = ids.drop_last();
        assert forall|a: int| 0 <= a < rest.len() implies catalog.contains_key(
            #[trigger] rest[a],
        ) by {
            assert(rest[a] == ids[a]);
        }
        lemma_pack_contents_succeed(catalog, rest);
        assert(ids.last() == ids[ids.len() - 1]);
    }
}

/// Packs all of whose chunks a catalog holds can be published.
pub proof fn lemma_publish_succeeds(catalog: Map<u64, Seq<u8>>, packs: Seq<PackRecord>)
    requires
        forall|p: int, a: int|
            0 <= p < packs.len() && 0 <= a < packs[p].chunks.len() ==> catalog.contains_key(
                #[trigger] packs[p].chunks[a],
            ),
    ensures
        spec_publish(catalog, record_lists(packs)) is Some,
    decreases packs.len(),
{
    if packs.len() > 0 {
        let rest = packs.drop_last();
        let lists = record_lists(packs);
        assert(lists.drop_last() =~= record_lists(rest));
        assert(lists.last() == packs.last().chunks);
        assert forall|p: int, a: int|
            0 <= p < rest.len() && 0 <= a < rest[p].chunks.len() implies catalog.contains_key(
            #[trigger] rest[p].chunks[a],
        ) by {
            assert(rest[p] == packs[p]);
        }
        lemma_publish_succeeds(catalog, rest);
        let last = packs.last();
        assert forall|a: int| 0 <= a < last.chunks.len() implies catalog.contains_key(
            #[trigger] last.chunks[a],
        ) by {
            assert(packs[packs.len() - 1].chunks[a] == last.chunks[a]);
        }
        lemma_pack_contents_succeed(catalog, last.chunks);
    }
}

/// A published pack is as long as the pack says.
pub proof fn lemma_published_pack_length(
    lengths: Map<u64, u64>,
    catalog: Map<u64, Seq<u8>>,
    packs: Seq<PackRecord>,
    chunks: Seq<Chunk>,
    p: int,
)
    requires
        packs_partition(packs, chunks),
        knows_lengths(lengths, chunks),
        lengths_agree(catalog, lengths),
        spec_publish(catalog, record_lists(packs)) is Some,
        0 <= p < packs.len(),
    ensures
        spec_publish(catalog, record_lists(packs))->0.len() == packs.len(),
        spec_publish(catalog, record_lists(packs))->0[p].len() == packs[p].length,
    decreases packs.len(),
{
    let rest = packs.drop_last();
    let pack = packs.last();
    let lists = record_lists(packs);
    assert(lists.drop_last() =~= record_lists(rest));
    assert(lists.last() == pack.chunks);
    lemma_publish_length(catalog, lists);
    lemma_publish_length(catalog, record_lists(rest));
    let start = chunks.len() - pack.chunks.len();
    let before = chunks.take(start);
    let run = chunks.skip(start);
    if p == packs.len() - 1 {
        assert forall|j: int| 0 <= j < run.len() implies lengths.contains_key(
            (#[trigger] run[j]).hash,
        ) && lengths[run[j].hash] == run[j].length by {
            assert(run[j] == chunks[start + j]);
        }
        let none = Map::<u64, ChunkPackInfo>::empty();
        lemma_index_pack_of_run(none, lengths, pack, run, run.len() as int);
        assert(pack.chunks.take(run.len() as int) =~= pack.chunks);
        assert(run.take(run.len() as int) =~= run);
        lemma_pack_places(none, lengths, catalog, pack, run.len() as int);
    } else {
        assert forall|j: int| 0 <= j < before.len() implies lengths.contains_key(
            (#[trigger] before[j]).hash,
        ) && lengths[before[j].hash] == before[j].length by {
            assert(before[j] == chunks[j]);
        }
        lemma_published_pack_length(lengths, catalog, rest, before, p);
        assert(rest[p] == packs[p]);
    }
}

/// A chunk can be read back from the packs that a source publishes.
///
/// The chunks of a manifest that describes `source` are grouped into packs
/// under the limit `size`, the packs are indexed against the manifest, and
/// each pack is published as the bytes of its chunks. If the index holds a
/// place under `key`, then the published pack `p` is the one the place names
/// and is as long as the place says, the range of the place lies within the
/// pack, and the bytes in that range are as long as the place says, are what
/// the source serves for `key`, and have the identifier `key`. This holds
/// where chunks with the same identifier are equally long.
pub proof fn lemma_chunk_reads_back(
    source: Directory,
    records: Seq<FileRecord>,
    size: nat,
    key: u64,
) -> (p: int)
    requires
        source.wf(),
        describes(records, source@),
        size <= u64::MAX,
        lengths_settled(all_chunks(records)),
        index_packs(
            lengths_by_id(all_chunks(records)),
            spec_packs(all_chunks(records), size),
        ) is Located ==> index_packs(
            lengths_by_id(all_chunks(records)),
            spec_packs(all_chunks(records), size),
        )->map.contains_key(key),
    ensures
        ({
            let chunks = all_chunks(records);
            let packs = spec_packs(chunks, size);
            let index = index_packs(lengths_by_id(chunks), packs);
            let catalog = ranges_catalog(source.files@, index_manifest(source.files@, records));
            let published = spec_publish(catalog, record_lists(packs));
            &&& index is Located
            &&& published is Some
            &&& 0 <= p < packs.len()
            &&& published->0.len() == packs.len()
            &&& catalog.contains_key(key)
            &&& placed_in(index->map[key], packs[p], published->0[p], catalog[key])
            &&& published->0[p].len() == index->map[key].pack_length
            &&& catalog[key].len() == index->map[key].length
            &&& spec_chunk_id(catalog[key]) == key
        }),
{
    let files = source.files@;
    let chunks = all_chunks(records);
    let packs = spec_packs(chunks, size);
    let lengths = lengths_by_id(chunks);
    let catalog = ranges_catalog(files, index_manifest(files, records));
    lemma_described_chunks_are_not_empty(records, source@);
    lemma_packs_partition(chunks, size);
    lemma_lengths_by_id(chunks);
    lemma_partition_can_be_indexed(lengths, packs, chunks);
    assert forall|q: int, a: int|
        0 <= q < packs.len() && 0 <= a < packs[q].chunks.len() implies catalog.contains_key(
        #[trigger] packs[q].chunks[a],
    ) by {
        let j = lemma_packed_id_is_chunk(packs, chunks, q, a);
        lemma_every_chunk_is_served(source, records, j);
    }
    lemma_publish_succeeds(catalog, packs);
    lemma_catalog_lengths_agree(files, records);
    let p = lemma_published_chunks_are_placed(lengths, catalog, packs, key);
    lemma_published_pack_length(lengths, catalog, packs, chunks, p);
    lemma_index_manifest_knows(files, records, key);
    lemma_indexed_ranges_are_served(source, records, key);
    p
}

} // verus!

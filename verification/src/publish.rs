//! Publishing: the bytes of the packs of a source.
//!
//! A pack is published as the bytes of its chunks, one after the other, in
//! the order in which the pack lists them.

use crate::chunk::{Chunk, ChunkProvider};
use crate::error::Error;
use crate::hash::spec_chunk_id;
use crate::manifest::{describes, FileRecord};
use crate::network::{all_chunks, Pack, PackRecord, RemoteManifest};
use crate::provider::{
    index_chunks, index_manifest, range_bytes, range_servable, ranges_catalog,
    BasicChunkProvider, SourceRange,
};
use crate::remote::{index_pack, index_packs, lengths_by_id, ChunkPackInfo};
use crate::tree::{
    first_index, has_path, index_of, lemma_first_index_exists, Directory, FileEntry,
};
use vstd::prelude::*;

verus! {

/// The bytes of the chunks `ids`, one after the other, as `catalog` holds
/// them. `None` if the catalog lacks one of the chunks.
pub open spec fn spec_pack_contents(catalog: Map<u64, Seq<u8>>, ids: Seq<u64>) -> Option<Seq<u8>>
    decreases ids.len(),
{
    if ids.len() == 0 {
        Some(Seq::empty())
    } else {
        match spec_pack_contents(catalog, ids.drop_last()) {
            Some(bytes) => if catalog.contains_key(ids.last()) {
                Some(bytes + catalog[ids.last()])
            } else {
                None
            },
            None => None,
        }
    }
}

/// The bytes of each of `packs`, in order. `None` if the catalog lacks a
/// chunk of one of them.
pub open spec fn spec_publish(catalog: Map<u64, Seq<u8>>, packs: Seq<Seq<u64>>) -> Option<
    Seq<Seq<u8>>,
>
    decreases packs.len(),
{
    if packs.len() == 0 {
        Some(Seq::empty())
    } else {
        match spec_publish(catalog, packs.drop_last()) {
            Some(published) => match spec_pack_contents(catalog, packs.last()) {
                Some(bytes) => Some(published.push(bytes)),
                None => None,
            },
            None => None,
        }
    }
}

/// The lists of chunks of `packs`.
pub open spec fn pack_lists(packs: Seq<Pack>) -> Seq<Seq<u64>> {
    Seq::new(packs.len(), |i: int| packs[i].chunks@)
}

/// The byte strings as plain values.
pub open spec fn byte_strings(files: Seq<Vec<u8>>) -> Seq<Seq<u8>> {
    Seq::new(files.len(), |i: int| files[i]@)
}

/// Once a chunk of a pack is missing, the pack cannot be put together.
proof fn lemma_pack_contents_fail(catalog: Map<u64, Seq<u8>>, ids: Seq<u64>, n: int)
    requires
        0 <= n <= ids.len(),
        spec_pack_contents(catalog, ids.take(n)) is None,
    ensures
        spec_pack_contents(catalog, ids) is None,
    decreases ids.len(),
{
    if n == ids.len() {
        assert(ids.take(n) =~= ids);
    } else {
        assert(ids.drop_last().take(n) =~= ids.take(n));
        lemma_pack_contents_fail(catalog, ids.drop_last(), n);
    }
}

/// Once a pack cannot be put together, the packs cannot be published.
proof fn lemma_publish_fails(catalog: Map<u64, Seq<u8>>, packs: Seq<Seq<u64>>, n: int)
    requires
        0 <= n <= packs.len(),
        spec_publish(catalog, packs.take(n)) is None,
    ensures
        spec_publish(catalog, packs) is None,
    decreases packs.len(),
{
    if n == packs.len() {
        assert(packs.take(n) =~= packs);
    } else {
        assert(packs.drop_last().take(n) =~= packs.take(n));
        lemma_publish_fails(catalog, packs.drop_last(), n);
    }
}

/// Puts the bytes of a pack together from the chunks of the source.
///
/// Fails with the provider's error for the first chunk of the pack that it
/// cannot hand out: [`Error::ChunkNotFound`] for a chunk that the manifest
/// does not list, [`Error::AccessDenied`] for one whose bytes the source does
/// not hold.
pub fn pack_contents(provider: &mut BasicChunkProvider, pack: &Pack) -> (made: Result<Vec<u8>, Error>)
    ensures
        *final(provider) == *old(provider),
        match made {
            Ok(bytes) => spec_pack_contents(old(provider).catalog(), pack.chunks@) == Some(bytes@),
            Err(error) => spec_pack_contents(old(provider).catalog(), pack.chunks@) is None && (
            error is ChunkNotFound || error is AccessDenied),
        },
{
    let ghost catalog = provider.catalog();
    let mut bytes: Vec<u8> = Vec::new();
    let mut i: usize = 0;
    proof {
        assert(pack.chunks@.take(0) =~= Seq::<u64>::empty());
    }
    while i < pack.chunks.len()
        invariant
            i <= pack.chunks@.len(),
            *provider == *old(provider),
            catalog == old(provider).catalog(),
            spec_pack_contents(catalog, pack.chunks@.take(i as int)) == Some(bytes@),
        decreases pack.chunks@.len() - i,
    {
        proof {
            assert(pack.chunks@.take(i + 1).drop_last() =~= pack.chunks@.take(i as int));
            assert(pack.chunks@.take(i + 1).last() == pack.chunks@[i as int]);
        }
        match provider.get_chunk(&pack.chunks[i]) {
            Ok(mut data) => {
                bytes.append(&mut data);
            },
            Err(error) => {
                proof {
                    lemma_pack_contents_fail(catalog, pack.chunks@, i + 1);
                }
                return Err(error);
            },
        }
        i += 1;
    }
    proof {
        assert(pack.chunks@.take(i as int) =~= pack.chunks@);
    }
    Ok(bytes)
}

/// Puts together the bytes of every pack of `remote` from the files of
/// `source`, in the order of the packs.
///
/// Fails on the first chunk of a pack that the manifest does not list or
/// whose bytes the source does not hold.
pub fn publish(source: &Directory, remote: &RemoteManifest) -> (published: Result<
    Vec<Vec<u8>>,
    Error,
>)
    ensures
        ({
            let catalog = ranges_catalog(
                source.files@,
                index_manifest(source.files@, remote.source@),
            );
            match published {
                Ok(files) => spec_publish(catalog, pack_lists(remote.packs@)) == Some(
                    byte_strings(files@),
                ),
                Err(error) => spec_publish(catalog, pack_lists(remote.packs@)) is None && (
                error is ChunkNotFound || error is AccessDenied),
            }
        }),
{
    let mut provider = BasicChunkProvider::new(source, &remote.source);
    let ghost catalog = provider.catalog();
    let ghost lists = pack_lists(remote.packs@);
    let mut files: Vec<Vec<u8>> = Vec::new();
    let mut p: usize = 0;
    proof {
        assert(lists.take(0) =~= Seq::<Seq<u64>>::empty());
        assert(byte_strings(files@) =~= Seq::<Seq<u8>>::empty());
    }
    while p < remote.packs.len()
        invariant
            p <= remote.packs@.len(),
            lists == pack_lists(remote.packs@),
            catalog == provider.catalog(),
            catalog == ranges_catalog(
                source.files@,
                index_manifest(source.files@, remote.source@),
            ),
            spec_publish(catalog, lists.take(p as int)) == Some(byte_strings(files@)),
        decreases remote.packs@.len() - p,
    {
        proof {
            assert(lists.take(p + 1).drop_last() =~= lists.take(p as int));
            assert(lists.take(p + 1).last() == remote.packs@[p as int].chunks@);
        }
        let ghost before = byte_strings(files@);
        match pack_contents(&mut provider, &remote.packs[p]) {
            Ok(bytes) => {
                files.push(bytes);
                assert(byte_strings(files@) =~= before.push(bytes@));
            },
            Err(error) => {
                proof {
                    lemma_publish_fails(catalog, lists, p + 1);
                }
                return Err(error);
            },
        }
        p += 1;
    }
    proof {
        assert(lists.take(p as int) =~= lists);
    }
    Ok(files)
}

/// The lists of chunks of pack records.
pub open spec fn record_lists(packs: Seq<PackRecord>) -> Seq<Seq<u64>> {
    Seq::new(packs.len(), |i: int| packs[i].chunks)
}

/// Every chunk of the catalog has the length that the manifest gives for its
/// identifier.
pub open spec fn lengths_agree(catalog: Map<u64, Seq<u8>>, lengths: Map<u64, u64>) -> bool {
    forall|key: u64| #[trigger]
        catalog.contains_key(key) ==> lengths.contains_key(key) && catalog[key].len()
            == lengths[key]
}

/// The place `info` is that of the bytes `piece` in the published pack
/// `pack` with the bytes `bytes`.
pub open spec fn placed_in(
    info: ChunkPackInfo,
    pack: PackRecord,
    bytes: Seq<u8>,
    piece: Seq<u8>,
) -> bool {
    &&& info.pack_id == pack.hash
    &&& info.pack_length == pack.length
    &&& info.offset + info.length <= bytes.len()
    &&& bytes.subrange(info.offset as int, info.offset + info.length) == piece
}

/// The index of a manifest's chunks and the lengths of the chunks by
/// identifier go by the same chunk: the last with the identifier.
proof fn lemma_index_chunks_lengths(
    index: Map<u64, SourceRange>,
    file: Option<usize>,
    done: Seq<Chunk>,
    chunks: Seq<Chunk>,
    n: int,
)
    requires
        0 <= n <= chunks.len(),
        forall|key: u64| #[trigger]
            index.contains_key(key) == lengths_by_id(done).contains_key(key),
        forall|key: u64| #[trigger]
            index.contains_key(key) ==> index[key].length == lengths_by_id(done)[key],
    ensures
        forall|key: u64| #[trigger]
            index_chunks(index, file, chunks.take(n)).contains_key(key) == lengths_by_id(
                done + chunks.take(n),
            ).contains_key(key),
        forall|key: u64| #[trigger]
            index_chunks(index, file, chunks.take(n)).contains_key(key) ==> index_chunks(
                index,
                file,
                chunks.take(n),
            )[key].length == lengths_by_id(done + chunks.take(n))[key],
    decreases n,
{
    if n == 0 {
        assert(chunks.take(0) =~= Seq::<Chunk>::empty());
        assert(done + chunks.take(0) =~= done);
    } else {
        lemma_index_chunks_lengths(index, file, done, chunks, n - 1);
        assert(chunks.take(n).drop_last() =~= chunks.take(n - 1));
        assert(chunks.take(n).last() == chunks[n - 1]);
        assert((done + chunks.take(n)).drop_last() =~= done + chunks.take(n - 1));
        assert((done + chunks.take(n)).last() == chunks[n - 1]);
    }
}

/// The index of a manifest knows the chunks whose lengths the manifest
/// gives, each with that length.
proof fn lemma_index_manifest_lengths(files: Seq<FileEntry>, records: Seq<FileRecord>)
    ensures
        forall|key: u64| #[trigger]
            index_manifest(files, records).contains_key(key) == lengths_by_id(
                all_chunks(records),
            ).contains_key(key),
        forall|key: u64| #[trigger]
            index_manifest(files, records).contains_key(key) ==> index_manifest(
                files,
                records,
            )[key].length == lengths_by_id(all_chunks(records))[key],
    decreases records.len(),
{
    if records.len() > 0 {
        let rest = records.drop_last();
        let last = records.last();
        lemma_index_manifest_lengths(files, rest);
        lemma_index_chunks_lengths(
            index_manifest(files, rest),
            first_index(files, last.path),
            all_chunks(rest),
            last.chunks,
            last.chunks.len() as int,
        );
        assert(last.chunks.take(last.chunks.len() as int) =~= last.chunks);
    }
}

/// The index of a manifest knows every identifier whose length the manifest
/// gives.
pub proof fn lemma_index_manifest_knows(files: Seq<FileEntry>, records: Seq<FileRecord>, key: u64)
    requires
        lengths_by_id(all_chunks(records)).contains_key(key),
    ensures
        index_manifest(files, records).contains_key(key),
{
    lemma_index_manifest_lengths(files, records);
}

/// The chunks that a source serves for a manifest have the lengths that the
/// manifest gives.
pub proof fn lemma_catalog_lengths_agree(files: Seq<FileEntry>, records: Seq<FileRecord>)
    ensures
        lengths_agree(
            ranges_catalog(files, index_manifest(files, records)),
            lengths_by_id(all_chunks(records)),
        ),
{
    lemma_index_manifest_lengths(files, records);
    let index = index_manifest(files, records);
    let catalog = ranges_catalog(files, index);
    assert forall|key: u64| #[trigger] catalog.contains_key(key) implies lengths_by_id(
        all_chunks(records),
    ).contains_key(key) && catalog[key].len() == lengths_by_id(all_chunks(records))[key] by {
        assert(index.contains_key(key));
        assert(range_servable(files, index[key]));
    }
}

/// While a pack is indexed and put together chunk by chunk, the offset of
/// the index is the number of bytes put together, and every chunk that the
/// index has placed in the pack lies there.
pub proof fn lemma_pack_places(
    start: Map<u64, ChunkPackInfo>,
    lengths: Map<u64, u64>,
    catalog: Map<u64, Seq<u8>>,
    pack: PackRecord,
    n: int,
)
    requires
        0 <= n <= pack.chunks.len(),
        lengths_agree(catalog, lengths),
        index_pack(start, lengths, pack, n as nat) is Located,
        spec_pack_contents(catalog, pack.chunks.take(n)) is Some,
    ensures
        ({
            let map = index_pack(start, lengths, pack, n as nat)->map;
            let offset = index_pack(start, lengths, pack, n as nat)->offset;
            let bytes = spec_pack_contents(catalog, pack.chunks.take(n))->0;
            &&& bytes.len() == offset
            &&& forall|key: u64| #[trigger]
                map.contains_key(key) ==> (start.contains_key(key) && map[key] == start[key]) || (
                catalog.contains_key(key) && placed_in(map[key], pack, bytes, catalog[key]))
        }),
    decreases n,
{
    if n > 0 {
        assert(pack.chunks.take(n).drop_last() =~= pack.chunks.take(n - 1));
        assert(pack.chunks.take(n).last() == pack.chunks[n - 1]);
        lemma_pack_places(start, lengths, catalog, pack, n - 1);
        let before = index_pack(start, lengths, pack, (n - 1) as nat)->map;
        let held = spec_pack_contents(catalog, pack.chunks.take(n - 1))->0;
        let map = index_pack(start, lengths, pack, n as nat)->map;
        let bytes = spec_pack_contents(catalog, pack.chunks.take(n))->0;
        let id = pack.chunks[n - 1];
        assert(bytes == held + catalog[id]);
        assert forall|key: u64| #[trigger] map.contains_key(key) implies (start.contains_key(key)
            && map[key] == start[key]) || (catalog.contains_key(key) && placed_in(
            map[key],
            pack,
            bytes,
            catalog[key],
        )) by {
            if key == id {
                assert(bytes.subrange(held.len() as int, (held.len() + catalog[id].len()) as int)
                    =~= catalog[id]);
            } else {
                assert(before.contains_key(key));
                if !(start.contains_key(key) && before[key] == start[key]) {
                    let info = before[key];
                    assert(placed_in(info, pack, held, catalog[key]));
                    assert(bytes.subrange(info.offset as int, info.offset + info.length)
                        =~= held.subrange(info.offset as int, info.offset + info.length));
                }
            }
        }
    } else {
        assert(pack.chunks.take(0) =~= Seq::<u64>::empty());
    }
}

/// An index that is complete after the first chunks of a pack was so before
/// them.
proof fn lemma_index_pack_located(
    start: Map<u64, ChunkPackInfo>,
    lengths: Map<u64, u64>,
    pack: PackRecord,
    n: int,
    m: int,
)
    requires
        0 <= n <= m,
        index_pack(start, lengths, pack, m as nat) is Located,
    ensures
        index_pack(start, lengths, pack, n as nat) is Located,
    decreases m - n,
{
    if n < m {
        lemma_index_pack_located(start, lengths, pack, n + 1, m);
    }
}

/// There is one published byte string for each pack.
pub proof fn lemma_publish_length(catalog: Map<u64, Seq<u8>>, packs: Seq<Seq<u64>>)
    requires
        spec_publish(catalog, packs) is Some,
    ensures
        spec_publish(catalog, packs)->0.len() == packs.len(),
    decreases packs.len(),
{
    if packs.len() > 0 {
        lemma_publish_length(catalog, packs.drop_last());
    }
}

/// Every chunk of the index of published packs lies in one of the packs, at
/// the place that the index gives: the bytes found there are those that the
/// source serves for the chunk.
pub proof fn lemma_published_chunks_are_placed(
    lengths: Map<u64, u64>,
    catalog: Map<u64, Seq<u8>>,
    packs: Seq<PackRecord>,
    key: u64,
) -> (p: int)
    requires
        lengths_agree(catalog, lengths),
        index_packs(lengths, packs) is Located,
        spec_publish(catalog, record_lists(packs)) is Some,
        index_packs(lengths, packs)->map.contains_key(key),
    ensures
        0 <= p < packs.len(),
        catalog.contains_key(key),
        placed_in(
            index_packs(lengths, packs)->map[key],
            packs[p],
            spec_publish(catalog, record_lists(packs))->0[p],
            catalog[key],
        ),
    decreases packs.len(),
{
    let rest = packs.drop_last();
    let pack = packs.last();
    let lists = record_lists(packs);
    assert(packs.len() > 0);
    assert(lists.drop_last() =~= record_lists(rest));
    assert(lists.last() == pack.chunks);
    lemma_publish_length(catalog, lists);
    lemma_publish_length(catalog, record_lists(rest));
    let start = index_packs(lengths, rest)->map;
    let n = pack.chunks.len() as int;
    assert(pack.chunks.take(n) =~= pack.chunks);
    lemma_pack_places(start, lengths, catalog, pack, n);
    let map = index_packs(lengths, packs)->map;
    let published = spec_publish(catalog, lists)->0;
    if start.contains_key(key) && map[key] == start[key] {
        let p = lemma_published_chunks_are_placed(lengths, catalog, rest, key);
        assert(rest[p] == packs[p]);
        assert(spec_publish(catalog, record_lists(rest))->0[p] == published[p]);
        p
    } else {
        packs.len() - 1
    }
}

/// Every chunk that the index of a remote manifest knows can be read back
/// from the published packs: the pack that the index names holds, at the
/// offset that the index gives, the bytes that the source serves for the
/// chunk.
pub proof fn lemma_pack_round_trip(
    files: Seq<FileEntry>,
    records: Seq<FileRecord>,
    packs: Seq<PackRecord>,
    key: u64,
) -> (p: int)
    requires
        index_packs(lengths_by_id(all_chunks(records)), packs) is Located,
        index_packs(lengths_by_id(all_chunks(records)), packs)->map.contains_key(key),
        spec_publish(
            ranges_catalog(files, index_manifest(files, records)),
            record_lists(packs),
        ) is Some,
    ensures
        0 <= p < packs.len(),
        ranges_catalog(files, index_manifest(files, records)).contains_key(key),
        placed_in(
            index_packs(lengths_by_id(all_chunks(records)), packs)->map[key],
            packs[p],
            spec_publish(
                ranges_catalog(files, index_manifest(files, records)),
                record_lists(packs),
            )->0[p],
            ranges_catalog(files, index_manifest(files, records))[key],
        ),
{
    lemma_catalog_lengths_agree(files, records);
    lemma_published_chunks_are_placed(
        lengths_by_id(all_chunks(records)),
        ranges_catalog(files, index_manifest(files, records)),
        packs,
        key,
    )
}

/// The range `range` is that of the chunk `key` of one of `chunks`, found in
/// the file `file`.
pub open spec fn range_of_chunk(
    chunks: Seq<Chunk>,
    file: Option<usize>,
    key: u64,
    range: SourceRange,
) -> bool {
    range.file == file && exists|j: int|
        0 <= j < chunks.len() && #[trigger] chunks[j] == (Chunk {
            hash: key,
            offset: range.offset,
            length: range.length,
        })
}

/// The range `range` is that of the chunk `key` of one of the files of
/// `records`, found in the source file with the path of that file.
pub open spec fn range_of_record(
    files: Seq<FileEntry>,
    records: Seq<FileRecord>,
    key: u64,
    range: SourceRange,
) -> bool {
    exists|m: int|
        0 <= m < records.len() && range_of_chunk(
            (#[trigger] records[m]).chunks,
            first_index(files, records[m].path),
            key,
            range,
        )
}

/// Every range that indexing the chunks of a file adds is that of one of the
/// chunks.
proof fn lemma_index_chunks_ranges(
    index: Map<u64, SourceRange>,
    file: Option<usize>,
    chunks: Seq<Chunk>,
    key: u64,
)
    requires
        index_chunks(index, file, chunks).contains_key(key),
    ensures
        range_of_chunk(chunks, file, key, index_chunks(index, file, chunks)[key]) || (
        index.contains_key(key) && index_chunks(index, file, chunks)[key] == index[key]),
    decreases chunks.len(),
{
    if chunks.len() > 0 {
        let rest = chunks.drop_last();
        if chunks.last().hash == key {
            assert(chunks[chunks.len() - 1] == chunks.last());
        } else {
            lemma_index_chunks_ranges(index, file, rest, key);
            let range = index_chunks(index, file, rest)[key];
            if range_of_chunk(rest, file, key, range) {
                let j = choose|j: int|
                    0 <= j < rest.len() && #[trigger] rest[j] == (Chunk {
                        hash: key,
                        offset: range.offset,
                        length: range.length,
                    });
                assert(chunks[j] == rest[j]);
            }
        }
    }
}

/// Every range of the index of a manifest is that of one of its chunks.
pub proof fn lemma_index_manifest_ranges(files: Seq<FileEntry>, records: Seq<FileRecord>, key: u64)
    requires
        index_manifest(files, records).contains_key(key),
    ensures
        range_of_record(files, records, key, index_manifest(files, records)[key]),
    decreases records.len(),
{
    if records.len() > 0 {
        let rest = records.drop_last();
        let last = records.last();
        let before = index_manifest(files, rest);
        let range = index_manifest(files, records)[key];
        lemma_index_chunks_ranges(before, first_index(files, last.path), last.chunks, key);
        if range_of_chunk(last.chunks, first_index(files, last.path), key, range) {
            assert(records[records.len() - 1] == last);
        } else {
            lemma_index_manifest_ranges(files, rest, key);
            let m = choose|m: int|
                0 <= m < rest.len() && range_of_chunk(
                    (#[trigger] rest[m]).chunks,
                    first_index(files, rest[m].path),
                    key,
                    range,
                );
            assert(records[m] == rest[m]);
        }
    }
}

/// What a source serves under an identifier, for a manifest that describes
/// it, has that identifier.
pub proof fn lemma_served_chunks_are_identified(
    source: Directory,
    records: Seq<FileRecord>,
    key: u64,
)
    requires
        source.wf(),
        describes(records, source@),
        ranges_catalog(source.files@, index_manifest(source.files@, records)).contains_key(key),
    ensures
        spec_chunk_id(
            ranges_catalog(source.files@, index_manifest(source.files@, records))[key],
        ) == key,
{
    let files = source.files@;
    let index = index_manifest(files, records);
    let range = index[key];
    lemma_index_manifest_ranges(files, records, key);
    let m = choose|m: int|
        0 <= m < records.len() && range_of_chunk(
            (#[trigger] records[m]).chunks,
            first_index(files, records[m].path),
            key,
            range,
        );
    let record = records[m];
    let j = choose|j: int|
        0 <= j < record.chunks.len() && #[trigger] record.chunks[j] == (Chunk {
            hash: key,
            offset: range.offset,
            length: range.length,
        });
    assert(range_servable(files, range));
    let at = range.file->0;
    assert(first_index(files, record.path) == Some(at));
    assert(has_path(files, record.path));
    assert(files.len() == source.files.len());
    lemma_first_index_exists(files, record.path, index_of(files, record.path));
    source.lemma_entry_in_view(at as int);
    assert(range_bytes(files, range) == source@[record.path].subrange(
        record.chunks[j].offset as int,
        record.chunks[j].offset + record.chunks[j].length,
    ));
}

} // verus!

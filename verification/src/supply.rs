//! What the directory-backed provider supplies to a sync of its own
//! directory.

use crate::chunk::{
    count_operations, covers, fetch_count, lemma_offset_is_prefix_length, lemma_total_length_split,
    plan_fetch_count, spec_fetch_size, Chunk, ChunkProvider, FilePlan, Operation,
};
use crate::chunker::spec_chunks;
use crate::laws::{
    can_sync, chunk_range, distinct_ids, file_can_sync, genuine_matches,
    lemma_second_sync_changes_nothing, lemma_sync_is_idempotent, lemma_sync_reproduces_source,
    lemma_sync_settles_files, lemma_synced_files, nothing_stale, repeats_are_equal, supplies,
    synced,
};
use crate::manifest::{
    describes, file_described, has_record, manifest_of, names_files_of, FileRecord,
};
use crate::plan::{
    existing_at, needs_work, spec_file_operations, spec_file_plan, spec_have, spec_plan, well_cut,
};
use crate::provider::{
    add_operations, add_plan, catalog_of, chunk_bytes, servable, CachingChunkProvider,
    ProviderChunk,
};
use crate::sync::{plan_fetches_nothing, spec_execute, stocks_plan};
use crate::tree::{first_index, has_path, index_of, lemma_first_index_exists, Directory, FileEntry};
use vstd::prelude::*;

verus! {

/// The entry `entry` is that of a fetch of the chunk `key` among
/// `operations`, planned for the file `file`.
pub open spec fn fetched_in(
    operations: Seq<Operation>,
    file: Option<usize>,
    key: u64,
    entry: ProviderChunk,
) -> bool {
    entry.file == file && exists|i: int|
        0 <= i < operations.len() && #[trigger] operations[i] == Operation::Fetch(
            Chunk { hash: key, offset: entry.offset, length: entry.length },
        )
}

/// The entry `entry` is that of a fetch of the chunk `key` somewhere in
/// `plan`.
pub open spec fn planned_in(
    plan: Seq<FilePlan>,
    files: Seq<FileEntry>,
    key: u64,
    entry: ProviderChunk,
) -> bool {
    exists|k: int|
        0 <= k < plan.len() && fetched_in(
            (#[trigger] plan[k]).operations,
            first_index(files, plan[k].path),
            key,
            entry,
        )
}

/// Two entries lie at the same place.
pub open spec fn same_place(a: ProviderChunk, b: ProviderChunk) -> bool {
    a.file == b.file && a.offset == b.offset && a.length == b.length
}

/// Entering the fetches of a file keeps what was on the books where it was,
/// and puts every chunk that is new at the place of one of its fetches.
pub proof fn lemma_add_operations(
    index: Map<u64, ProviderChunk>,
    file: Option<usize>,
    operations: Seq<Operation>,
)
    ensures
        forall|key: u64| #[trigger]
            index.contains_key(key) ==> add_operations(index, file, operations).contains_key(key)
                && same_place(add_operations(index, file, operations)[key], index[key]),
        forall|key: u64|
            !index.contains_key(key) && #[trigger] add_operations(
                index,
                file,
                operations,
            ).contains_key(key) ==> fetched_in(
                operations,
                file,
                key,
                add_operations(index, file, operations)[key],
            ),
        forall|i: int|
            0 <= i < operations.len() ==> ((#[trigger] operations[i]) matches Operation::Fetch(
                chunk,
            ) ==> add_operations(index, file, operations).contains_key(chunk.hash)),
    decreases operations.len(),
{
    if operations.len() > 0 {
        let rest = operations.drop_last();
        lemma_add_operations(index, file, rest);
        let before = add_operations(index, file, rest);
        let after = add_operations(index, file, operations);
        assert forall|key: u64|
            !index.contains_key(key) && #[trigger] after.contains_key(key) implies fetched_in(
            operations,
            file,
            key,
            after[key],
        ) by {
            if before.contains_key(key) {
                assert(fetched_in(rest, file, key, before[key]));
                let i = choose|i: int|
                    0 <= i < rest.len() && #[trigger] rest[i] == Operation::Fetch(
                        Chunk { hash: key, offset: before[key].offset, length: before[key].length },
                    );
                assert(operations[i] == rest[i]);
            } else {
                assert(operations[operations.len() - 1] == operations.last());
            }
        }
        assert forall|i: int| 0 <= i < operations.len() implies ((
        #[trigger] operations[i]) matches Operation::Fetch(chunk) ==> after.contains_key(
            chunk.hash,
        )) by {
            if i < rest.len() {
                assert(rest[i] == operations[i]);
            }
        }
    }
}

/// Entering the fetches of a plan keeps what was on the books where it was,
/// and puts every chunk that is new at the place of one of its fetches.
pub proof fn lemma_add_plan(
    index: Map<u64, ProviderChunk>,
    files: Seq<FileEntry>,
    plan: Seq<FilePlan>,
)
    ensures
        forall|key: u64| #[trigger]
            index.contains_key(key) ==> add_plan(index, files, plan).contains_key(key)
                && same_place(add_plan(index, files, plan)[key], index[key]),
        forall|key: u64|
            !index.contains_key(key) && #[trigger] add_plan(index, files, plan).contains_key(key)
                ==> planned_in(plan, files, key, add_plan(index, files, plan)[key]),
        forall|k: int, i: int|
            0 <= k < plan.len() && 0 <= i < plan[k].operations.len() ==> ((
            #[trigger] plan[k].operations[i]) matches Operation::Fetch(chunk) ==> add_plan(
                index,
                files,
                plan,
            ).contains_key(chunk.hash)),
    decreases plan.len(),
{
    if plan.len() > 0 {
        let rest = plan.drop_last();
        let last = plan.last();
        let file = first_index(files, last.path);
        lemma_add_plan(index, files, rest);
        let before = add_plan(index, files, rest);
        lemma_add_operations(before, file, last.operations);
        let after = add_plan(index, files, plan);
        assert forall|key: u64|
            !index.contains_key(key) && #[trigger] after.contains_key(key) implies planned_in(
            plan,
            files,
            key,
            after[key],
        ) by {
            if before.contains_key(key) {
                assert(planned_in(rest, files, key, before[key]));
                let k = choose|k: int|
                    0 <= k < rest.len() && fetched_in(
                        (#[trigger] rest[k]).operations,
                        first_index(files, rest[k].path),
                        key,
                        before[key],
                    );
                assert(plan[k] == rest[k]);
                assert(same_place(after[key], before[key]));
                assert(fetched_in(
                    plan[k].operations,
                    first_index(files, plan[k].path),
                    key,
                    after[key],
                ));
            } else {
                assert(plan[plan.len() - 1] == last);
            }
        }
        assert forall|k: int, i: int|
            0 <= k < plan.len() && 0 <= i < plan[k].operations.len() implies ((
        #[trigger] plan[k].operations[i]) matches Operation::Fetch(chunk) ==> after.contains_key(
            chunk.hash,
        )) by {
            if k < rest.len() {
                assert(rest[k] == plan[k]);
            }
        }
    }
}

/// Every file of a plan is the plan of one of the files of the manifest.
pub proof fn lemma_plan_comes_from_manifest(
    files: Seq<FileRecord>,
    dest: Map<Seq<char>, Seq<u8>>,
    k: int,
) -> (m: int)
    requires
        0 <= k < spec_plan(files, dest).len(),
    ensures
        0 <= m < files.len(),
        spec_plan(files, dest)[k] == spec_file_plan(files[m], dest),
    decreases files.len(),
{
    let rest = spec_plan(files.drop_last(), dest);
    if k < rest.len() {
        let m = lemma_plan_comes_from_manifest(files.drop_last(), dest, k);
        assert(files.drop_last()[m] == files[m]);
        m
    } else {
        files.len() - 1
    }
}

/// A file of the manifest one of whose operations writes is in the plan.
pub proof fn lemma_file_with_work_is_planned(
    files: Seq<FileRecord>,
    dest: Map<Seq<char>, Seq<u8>>,
    m: int,
) -> (k: int)
    requires
        0 <= m < files.len(),
        needs_work(spec_file_plan(files[m], dest).operations),
    ensures
        0 <= k < spec_plan(files, dest).len(),
        spec_plan(files, dest)[k] == spec_file_plan(files[m], dest),
    decreases files.len(),
{
    let rest = spec_plan(files.drop_last(), dest);
    if m < files.len() - 1 {
        assert(files.drop_last()[m] == files[m]);
        lemma_file_with_work_is_planned(files.drop_last(), dest, m)
    } else {
        rest.len() as int
    }
}

/// Every chunk of a file that its chunks cover ends within the file.
pub proof fn lemma_chunk_in_bounds(chunks: Seq<Chunk>, len: nat, i: int)
    requires
        covers(chunks, len),
        0 <= i < chunks.len(),
    ensures
        chunks[i].offset + chunks[i].length <= len,
{
    lemma_offset_is_prefix_length(chunks, i);
    lemma_total_length_split(chunks, i + 1);
}

/// No two source chunks with different bytes have the same identifier.
pub open spec fn sound_source_identifiers(
    files: Seq<FileRecord>,
    source: Map<Seq<char>, Seq<u8>>,
) -> bool {
    forall|m: int, i: int, n: int, j: int|
        0 <= m < files.len() && 0 <= i < files[m].chunks.len() && 0 <= n < files.len() && 0 <= j
            < files[n].chunks.len() && (#[trigger] files[m].chunks[i]).hash == (
        #[trigger] files[n].chunks[j]).hash ==> chunk_range(
            source[files[m].path],
            files[m].chunks[i],
        ) == chunk_range(source[files[n].path], files[n].chunks[j])
}

/// The provider of a directory, given the plan of a sync from that directory,
/// holds the source's bytes for every chunk that the sync fetches.
pub proof fn lemma_directory_supplies(
    from: Directory,
    files: Seq<FileRecord>,
    dest: Map<Seq<char>, Seq<u8>>,
    n: int,
)
    requires
        from.wf(),
        describes(files, from@),
        sound_source_identifiers(files, from@),
        0 <= n < files.len(),
    ensures
        supplies(
            catalog_of(from.files@, add_plan(Map::empty(), from.files@, spec_plan(files, dest))),
            files[n].chunks,
            from@[files[n].path],
            existing_at(dest, files[n].path),
        ),
{
    let plan = spec_plan(files, dest);
    let index = add_plan(Map::empty(), from.files@, plan);
    let catalog = catalog_of(from.files@, index);
    let file = files[n];
    let existing = existing_at(dest, file.path);
    let operations = spec_file_operations(file.chunks, existing);
    lemma_add_plan(Map::empty(), from.files@, plan);
    assert forall|j: int|
        0 <= j < file.chunks.len() && !spec_have(existing).contains_key(
            (#[trigger] file.chunks[j]).hash,
        ) implies catalog.contains_key(file.chunks[j].hash) && catalog[file.chunks[j].hash]
        == chunk_range(from@[file.path], file.chunks[j]) by {
        let chunk = file.chunks[j];
        let key = chunk.hash;
        assert(operations[j] == Operation::Fetch(chunk));
        assert(operations[j].spec_writes());
        let k = lemma_file_with_work_is_planned(files, dest, n);
        assert(plan[k].operations[j] == Operation::Fetch(chunk));
        assert(index.contains_key(key));
        let entry = index[key];
        assert(planned_in(plan, from.files@, key, entry));
        let k2 = choose|k2: int|
            0 <= k2 < plan.len() && fetched_in(
                (#[trigger] plan[k2]).operations,
                first_index(from.files@, plan[k2].path),
                key,
                entry,
            );
        let found = Chunk { hash: key, offset: entry.offset, length: entry.length };
        let i2 = choose|i2: int|
            0 <= i2 < plan[k2].operations.len() && #[trigger] plan[k2].operations[i2]
                == Operation::Fetch(found);
        let m = lemma_plan_comes_from_manifest(files, dest, k2);
        let other = files[m];
        assert(plan[k2].operations[i2] == Operation::Fetch(other.chunks[i2]));
        assert(other.chunks[i2] == found);
        assert(has_path(from.files@, other.path));
        let some = index_of(from.files@, other.path);
        assert(from.files@.len() == from.files.len());
        lemma_first_index_exists(from.files@, other.path, some);
        let at = first_index(from.files@, other.path)->0;
        from.lemma_entry_in_view(at as int);
        lemma_chunk_in_bounds(other.chunks, from@[other.path].len(), i2);
        assert(servable(from.files@, entry));
        assert(chunk_bytes(from.files@, entry) == chunk_range(from@[other.path], found));
    }
}

/// The catalog of the provider of a directory that has been given the plan
/// `plan`.
pub open spec fn directory_catalog(from: Directory, plan: Seq<FilePlan>) -> Map<u64, Seq<u8>> {
    catalog_of(from.files@, add_plan(Map::empty(), from.files@, plan))
}

/// Identifiers tell the chunks apart that meet in a sync of `files` from
/// `source` to `dest`: no two source chunks with different bytes have the same
/// identifier, and where a destination file holds a chunk under the identifier
/// of a chunk of its source file, the bytes are the same.
pub open spec fn sound_identifiers(
    files: Seq<FileRecord>,
    source: Map<Seq<char>, Seq<u8>>,
    dest: Map<Seq<char>, Seq<u8>>,
) -> bool {
    &&& sound_source_identifiers(files, source)
    &&& forall|n: int|
        0 <= n < files.len() ==> genuine_matches(
            (#[trigger] files[n]).chunks,
            source[files[n].path],
            existing_at(dest, files[n].path),
        )
}

/// The chunker's ranges of every destination file that the manifest names are
/// sound.
pub open spec fn destination_well_cut(
    files: Seq<FileRecord>,
    dest: Map<Seq<char>, Seq<u8>>,
) -> bool {
    forall|n: int|
        0 <= n < files.len() ==> well_cut(existing_at(dest, (#[trigger] files[n]).path))
}

/// The destination holds every file of the source with the source's bytes,
/// and every other file as it held it before.
pub open spec fn mirrors(
    source: Map<Seq<char>, Seq<u8>>,
    before: Map<Seq<char>, Seq<u8>>,
    after: Map<Seq<char>, Seq<u8>>,
) -> bool {
    &&& forall|path: Seq<char>| #[trigger]
        source.contains_key(path) ==> after.contains_key(path) && after[path] == source[path]
    &&& forall|path: Seq<char>|
        !source.contains_key(path) ==> (#[trigger] after.contains_key(path))
            == before.contains_key(path) && (before.contains_key(path) ==> after[path]
            == before[path])
}

/// Every file of the manifest of a directory can be rewritten to the source
/// file with the directory's own provider, as long as identifiers tell the
/// chunks apart.
pub proof fn lemma_directory_can_sync(
    from: Directory,
    files: Seq<FileRecord>,
    dest: Map<Seq<char>, Seq<u8>>,
)
    requires
        from.wf(),
        describes(files, from@),
        destination_well_cut(files, dest),
        sound_identifiers(files, from@, dest),
    ensures
        can_sync(files, from@, dest, directory_catalog(from, spec_plan(files, dest))),
{
    let catalog = directory_catalog(from, spec_plan(files, dest));
    assert forall|n: int| 0 <= n < files.len() implies file_can_sync(
        #[trigger] files[n],
        from@,
        dest,
        catalog,
    ) by {
        lemma_directory_supplies(from, files, dest, n);
        from.lemma_contents_fit(files[n].path);
    }
}

/// A sync from a directory with the directory's own provider makes the
/// destination mirror the directory, as long as identifiers tell the chunks
/// apart and no file is stale.
pub proof fn lemma_directory_sync_mirrors(
    from: Directory,
    files: Seq<FileRecord>,
    dest: Map<Seq<char>, Seq<u8>>,
)
    requires
        from.wf(),
        describes(files, from@),
        names_files_of(files, from@),
        destination_well_cut(files, dest),
        sound_identifiers(files, from@, dest),
        nothing_stale(files, from@, dest),
    ensures
        spec_execute(
            dest,
            spec_plan(files, dest),
            directory_catalog(from, spec_plan(files, dest)),
        ) matches Some(after) && mirrors(from@, dest, after),
{
    let plan = spec_plan(files, dest);
    let catalog = directory_catalog(from, plan);
    lemma_directory_can_sync(from, files, dest);
    lemma_sync_settles_files(files, from@, dest, catalog);
    lemma_sync_reproduces_source(files, from@, dest, catalog);
    lemma_synced_files(files, from@, dest);
    let after = synced(files, from@, dest);
    assert forall|path: Seq<char>| #[trigger] from@.contains_key(path) implies after.contains_key(
        path,
    ) && after[path] == from@[path] by {
        assert(has_record(files, path));
        let i = choose|i: int| 0 <= i < files.len() && (#[trigger] files[i]).path == path;
        assert(after[files[i].path] == from@[files[i].path]);
    }
    assert forall|path: Seq<char>| !from@.contains_key(path) implies (#[trigger] after.contains_key(
        path,
    )) == dest.contains_key(path) && (dest.contains_key(path) ==> after[path] == dest[path]) by {
        assert(!has_record(files, path));
        assert forall|i: int| 0 <= i < files.len() implies (#[trigger] files[i]).path != path by {
            if files[i].path == path {
                assert(has_record(files, path));
            }
        }
    }
}

/// A second sync from a directory changes nothing and fetches nothing.
///
/// After a sync from `from` the plan for the destination as the sync left it
/// holds no fetch and no more operations than the first plan, and carrying
/// it out leaves the destination as it is, whatever the provider hands out.
/// This holds where identifiers tell the chunks apart.
pub proof fn lemma_directory_second_sync(
    from: Directory,
    files: Seq<FileRecord>,
    dest: Map<Seq<char>, Seq<u8>>,
    other: Map<u64, Seq<u8>>,
)
    requires
        from.wf(),
        describes(files, from@),
        names_files_of(files, from@),
        destination_well_cut(files, dest),
        sound_identifiers(files, from@, dest),
    ensures
        spec_execute(
            dest,
            spec_plan(files, dest),
            directory_catalog(from, spec_plan(files, dest)),
        ) == Some(synced(files, from@, dest)),
        plan_fetches_nothing(spec_plan(files, synced(files, from@, dest))),
        count_operations(spec_plan(files, synced(files, from@, dest))) <= count_operations(
            spec_plan(files, dest),
        ),
        spec_execute(
            synced(files, from@, dest),
            spec_plan(files, synced(files, from@, dest)),
            other,
        ) == Some(synced(files, from@, dest)),
{
    lemma_directory_can_sync(from, files, dest);
    assert forall|i: int| 0 <= i < files.len() implies repeats_are_equal(
        (#[trigger] files[i]).chunks,
        from@[files[i].path],
    ) by {
        let chunks = files[i].chunks;
        assert forall|a: int, b: int|
            0 <= a < chunks.len() && 0 <= b < chunks.len() && (#[trigger] chunks[a]).hash == (
            #[trigger] chunks[b]).hash implies chunk_range(from@[files[i].path], chunks[a])
            == chunk_range(from@[files[i].path], chunks[b]) by {
            assert(files[i].chunks[a].hash == files[i].chunks[b].hash);
        }
    }
    lemma_second_sync_changes_nothing(
        files,
        from@,
        dest,
        directory_catalog(from, spec_plan(files, dest)),
        other,
    );
}

/// The destination `to` is what a sync from `from` has left of `before`,
/// where identifiers told the chunks apart and the plan was not too long.
pub open spec fn left_by_sync(
    from: Directory,
    before: Map<Seq<char>, Seq<u8>>,
    to: Map<Seq<char>, Seq<u8>>,
) -> bool {
    let files = manifest_of(from);
    &&& sound_identifiers(files, from@, before)
    &&& destination_well_cut(files, before)
    &&& count_operations(spec_plan(files, before)) <= u32::MAX
    &&& to == synced(files, from@, before)
}

/// After a sync from a directory none of whose files has two chunks with the
/// same identifier, the plan for the destination as the sync left it is
/// empty: it holds no file and no operation and fetches no byte.
pub proof fn lemma_directory_second_plan_is_empty(
    from: Directory,
    files: Seq<FileRecord>,
    dest: Map<Seq<char>, Seq<u8>>,
)
    requires
        from.wf(),
        describes(files, from@),
        names_files_of(files, from@),
        destination_well_cut(files, dest),
        sound_identifiers(files, from@, dest),
        forall|i: int| 0 <= i < files.len() ==> distinct_ids((#[trigger] files[i]).chunks),
    ensures
        spec_plan(files, synced(files, from@, dest)).len() == 0,
        count_operations(spec_plan(files, synced(files, from@, dest))) == 0,
        spec_fetch_size(spec_plan(files, synced(files, from@, dest))) == 0,
{
    lemma_directory_can_sync(from, files, dest);
    assert forall|i: int| 0 <= i < files.len() implies (#[trigger] files[i]).chunks == spec_chunks(
        from@[files[i].path],
    ) && distinct_ids(files[i].chunks) by {
        assert(file_described(files[i], from@));
    }
    lemma_sync_is_idempotent(
        files,
        from@,
        dest,
        directory_catalog(from, spec_plan(files, dest)),
    );
    lemma_sync_reproduces_source(
        files,
        from@,
        dest,
        directory_catalog(from, spec_plan(files, dest)),
    );
}

/// A count of fetches as the books hold it: it stops at the largest number.
pub open spec fn capped(count: nat) -> nat {
    if count > u32::MAX {
        u32::MAX as nat
    } else {
        count
    }
}

/// How often the chunk `key` is on the books, zero if it is not.
pub open spec fn booked(index: Map<u64, ProviderChunk>, key: u64) -> nat {
    if index.contains_key(key) {
        index[key].ref_count as nat
    } else {
        0
    }
}

/// Entering the fetches of a file counts each chunk as often as the file
/// fetches it.
pub proof fn lemma_add_operations_counts(
    index: Map<u64, ProviderChunk>,
    file: Option<usize>,
    operations: Seq<Operation>,
    key: u64,
)
    ensures
        add_operations(index, file, operations).contains_key(key) == (index.contains_key(key)
            || fetch_count(operations, key) > 0),
        booked(add_operations(index, file, operations), key) == (if index.contains_key(key)
            || fetch_count(operations, key) > 0 {
            capped(booked(index, key) + fetch_count(operations, key))
        } else {
            0
        }),
    decreases operations.len(),
{
    if operations.len() > 0 {
        lemma_add_operations_counts(index, file, operations.drop_last(), key);
    }
}

/// Entering the fetches of a plan counts each chunk as often as the plan
/// fetches it.
pub proof fn lemma_add_plan_counts(
    index: Map<u64, ProviderChunk>,
    files: Seq<FileEntry>,
    plan: Seq<FilePlan>,
    key: u64,
)
    ensures
        add_plan(index, files, plan).contains_key(key) == (index.contains_key(key)
            || plan_fetch_count(plan, key) > 0),
        booked(add_plan(index, files, plan), key) == (if index.contains_key(key)
            || plan_fetch_count(plan, key) > 0 {
            capped(booked(index, key) + plan_fetch_count(plan, key))
        } else {
            0
        }),
    decreases plan.len(),
{
    if plan.len() > 0 {
        lemma_add_plan_counts(index, files, plan.drop_last(), key);
        lemma_add_operations_counts(
            add_plan(index, files, plan.drop_last()),
            first_index(files, plan.last().path),
            plan.last().operations,
            key,
        );
    }
}

/// A file fetches a chunk no more often than it has operations.
pub proof fn lemma_fetch_count_bounded(operations: Seq<Operation>, key: u64)
    ensures
        fetch_count(operations, key) <= operations.len(),
    decreases operations.len(),
{
    if operations.len() > 0 {
        lemma_fetch_count_bounded(operations.drop_last(), key);
    }
}

/// A plan fetches a chunk no more often than it has operations.
pub proof fn lemma_plan_fetch_count_bounded(plan: Seq<FilePlan>, key: u64)
    ensures
        plan_fetch_count(plan, key) <= count_operations(plan),
    decreases plan.len(),
{
    if plan.len() > 0 {
        lemma_plan_fetch_count_bounded(plan.drop_last(), key);
        lemma_fetch_count_bounded(plan.last().operations, key);
    }
}

/// A chunk that a file fetches is fetched by one of its operations.
pub proof fn lemma_fetched_by_operation(operations: Seq<Operation>, key: u64) -> (i: int)
    requires
        fetch_count(operations, key) > 0,
    ensures
        0 <= i < operations.len(),
        operations[i] matches Operation::Fetch(chunk) && chunk.hash == key,
    decreases operations.len(),
{
    if fetch_count(operations.drop_last(), key) > 0 {
        let i = lemma_fetched_by_operation(operations.drop_last(), key);
        assert(operations.drop_last()[i] == operations[i]);
        i
    } else {
        operations.len() - 1
    }
}

/// A chunk that a plan fetches is fetched by one of its operations.
pub proof fn lemma_fetched_by_plan(plan: Seq<FilePlan>, key: u64) -> (at: (int, int))
    requires
        plan_fetch_count(plan, key) > 0,
    ensures
        0 <= at.0 < plan.len(),
        0 <= at.1 < plan[at.0].operations.len(),
        plan[at.0].operations[at.1] matches Operation::Fetch(chunk) && chunk.hash == key,
    decreases plan.len(),
{
    if plan_fetch_count(plan.drop_last(), key) > 0 {
        let at = lemma_fetched_by_plan(plan.drop_last(), key);
        assert(plan.drop_last()[at.0] == plan[at.0]);
        at
    } else {
        let i = lemma_fetched_by_operation(plan.last().operations, key);
        (plan.len() - 1, i)
    }
}

/// The provider of a directory, given the plan of a sync from that directory,
/// has in stock what the plan fetches, as long as the plan has no more
/// operations than the books can count.
pub proof fn lemma_directory_stocks_plan(
    from: Directory,
    files: Seq<FileRecord>,
    dest: Map<Seq<char>, Seq<u8>>,
    provider: CachingChunkProvider,
)
    requires
        from.wf(),
        describes(files, from@),
        sound_source_identifiers(files, from@),
        count_operations(spec_plan(files, dest)) <= u32::MAX,
        *provider.source == from,
        provider.chunks@ == Map::<u64, ProviderChunk>::empty(),
    ensures
        stocks_plan(&provider, spec_plan(files, dest)),
{
    let plan = spec_plan(files, dest);
    let index = add_plan(Map::empty(), from.files@, plan);
    assert forall|key: u64|
        provider.in_stock_with(plan, key, #[trigger] plan_fetch_count(plan, key)) by {
        let times = plan_fetch_count(plan, key);
        if times > 0 {
            lemma_add_plan_counts(Map::empty(), from.files@, plan, key);
            lemma_plan_fetch_count_bounded(plan, key);
            let at = lemma_fetched_by_plan(plan, key);
            let m = lemma_plan_comes_from_manifest(files, dest, at.0);
            let chunk = files[m].chunks[at.1];
            assert(plan[at.0].operations[at.1] == Operation::Fetch(chunk));
            lemma_directory_supplies(from, files, dest, m);
            assert(!spec_have(existing_at(dest, files[m].path)).contains_key(chunk.hash));
            assert(catalog_of(from.files@, index).contains_key(key));
        }
    }
}

} // verus!

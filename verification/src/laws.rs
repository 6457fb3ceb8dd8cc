//! What holds of chunking, planning and executing together.

use crate::chunk::{
    contiguous, count_operations, covers, lemma_offset_is_prefix_length,
    lemma_total_length_split, spec_fetch_size, total_length, Chunk, Operation,
};
use crate::chunker::{chunk_of, spec_chunks, spec_cuts, MAX_CHUNK};
use crate::execute::{
    fetches_nothing, padded, spec_copies, spec_finish, spec_rewrite, spec_run, spec_seek,
    spec_write, tail_from, Rewrite,
};
use crate::manifest::{describes, distinct_record_paths, file_described, FileRecord};
use crate::plan::{
    cut_id, existing_at, index_of_cuts, lemma_index_in_bounds, lemma_planned_files_need_work,
    needs_work, spec_file_operations, spec_file_plan, spec_have, spec_plan, well_cut,
};
use crate::sync::{existing_or_empty, plan_fetches_nothing, spec_execute};
use vstd::prelude::*;

verus! {

/// The bytes of `data` in the range of `chunk`.
pub open spec fn chunk_range(data: Seq<u8>, chunk: Chunk) -> Seq<u8> {
    data.subrange(chunk.offset as int, chunk.offset + chunk.length)
}

/// No two chunks have the same identifier.
pub open spec fn distinct_ids(chunks: Seq<Chunk>) -> bool {
    forall|i: int, j: int|
        0 <= i < j < chunks.len() ==> (#[trigger] chunks[i]).hash != (#[trigger] chunks[j]).hash
}

/// The pieces of `data` that `chunks` stand for, one after the other.
pub open spec fn reassemble(data: Seq<u8>, chunks: Seq<Chunk>) -> Seq<u8>
    decreases chunks.len(),
{
    if chunks.len() == 0 {
        Seq::empty()
    } else {
        reassemble(data, chunks.drop_last()) + chunk_range(data, chunks.last())
    }
}

/// The first chunks of a contiguous sequence that ends within the file, put
/// together, are the bytes of the file up to where they end.
proof fn lemma_reassemble_upto(data: Seq<u8>, chunks: Seq<Chunk>, n: int)
    requires
        contiguous(chunks),
        0 <= n <= chunks.len(),
        total_length(chunks.take(n)) <= data.len(),
    ensures
        reassemble(data, chunks.take(n)) == data.take(total_length(chunks.take(n)) as int),
    decreases n,
{
    if n == 0 {
        assert(chunks.take(0).len() == 0);
        assert(data.take(0) =~= Seq::<u8>::empty());
    } else {
        lemma_offset_is_prefix_length(chunks, n - 1);
        assert(chunks.take(n).drop_last() =~= chunks.take(n - 1));
        assert(chunks.take(n).last() == chunks[n - 1]);
        lemma_reassemble_upto(data, chunks, n - 1);
        let before = total_length(chunks.take(n - 1)) as int;
        let after = total_length(chunks.take(n)) as int;
        assert(data.take(before) + data.subrange(before, after) =~= data.take(after));
    }
}

/// The chunks of a file, put together in order, are the file.
pub proof fn lemma_chunks_reassemble(data: Seq<u8>, chunks: Seq<Chunk>)
    requires
        covers(chunks, data.len()),
    ensures
        reassemble(data, chunks) == data,
{
    assert(chunks.take(chunks.len() as int) =~= chunks);
    lemma_reassemble_upto(data, chunks, chunks.len() as int);
    assert(data.take(data.len() as int) =~= data);
}

/// A file that the destination lacks is fetched whole: every operation
/// fetches the chunk it stands for.
pub proof fn lemma_missing_file_is_fetched(chunks: Seq<Chunk>)
    ensures
        spec_file_operations(chunks, None).len() == chunks.len(),
        forall|i: int|
            0 <= i < chunks.len() ==> #[trigger] spec_file_operations(chunks, None)[i]
                == Operation::Fetch(chunks[i]),
{
}

/// A range whose identifier no later range shares is the one the index holds
/// under that identifier.
proof fn lemma_index_holds_last(data: Seq<u8>, cuts: Seq<(usize, usize)>, n: int, j: int)
    requires
        0 <= j < n <= cuts.len(),
        forall|k: int| j < k < n ==> cut_id(data, #[trigger] cuts[k]) != cut_id(data, cuts[j]),
    ensures
        index_of_cuts(data, cuts.take(n)).contains_key(cut_id(data, cuts[j])),
        index_of_cuts(data, cuts.take(n))[cut_id(data, cuts[j])] == cuts[j],
    decreases n,
{
    assert(cuts.take(n).last() == cuts[n - 1]);
    assert(cuts.take(n).drop_last() =~= cuts.take(n - 1));
    if j < n - 1 {
        lemma_index_holds_last(data, cuts, n - 1, j);
    }
}

/// A destination file that has the bytes of the source file needs no work:
/// every chunk is found in place. This holds for files no two chunks of which
/// have the same identifier; of two chunks with the same identifier only the
/// later one is found in place.
pub proof fn lemma_identical_needs_no_work(data: Seq<u8>)
    requires
        distinct_ids(spec_chunks(data)),
    ensures
        !needs_work(spec_file_operations(spec_chunks(data), Some(data))),
        forall|i: int|
            0 <= i < spec_chunks(data).len() ==> (#[trigger] spec_file_operations(
                spec_chunks(data),
                Some(data),
            )[i]) is Seek,
{
    let cuts = spec_cuts(data);
    let chunks = spec_chunks(data);
    let operations = spec_file_operations(chunks, Some(data));
    assert(cuts.take(cuts.len() as int) =~= cuts);
    assert forall|i: int| 0 <= i < chunks.len() implies (#[trigger] operations[i]) is Seek by {
        assert forall|k: int| i < k < cuts.len() implies cut_id(data, #[trigger] cuts[k])
            != cut_id(data, cuts[i]) by {
            assert(chunks[i].hash != chunks[k].hash);
        }
        lemma_index_holds_last(data, cuts, cuts.len() as int, i);
        assert(chunks[i] == chunk_of(data, cuts[i]));
    }
}

/// The bytes that a rewrite starts from: those of the destination file, or
/// none if there is no file yet.
pub open spec fn bytes_of(existing: Option<Seq<u8>>) -> Seq<u8> {
    match existing {
        Some(data) => data,
        None => Seq::empty(),
    }
}

/// The bytes that the destination file holds under the identifier `key`.
pub open spec fn have_range(existing: Option<Seq<u8>>, key: u64) -> Seq<u8> {
    let found = spec_have(existing)[key];
    bytes_of(existing).subrange(found.0 as int, found.0 + found.1)
}

/// Where the destination file holds a chunk under the identifier of a source
/// chunk, it holds the bytes of the source chunk: no two different pieces
/// that meet here share an identifier.
pub open spec fn genuine_matches(
    chunks: Seq<Chunk>,
    source: Seq<u8>,
    existing: Option<Seq<u8>>,
) -> bool {
    forall|i: int|
        0 <= i < chunks.len() && spec_have(existing).contains_key((#[trigger] chunks[i]).hash)
            ==> have_range(existing, chunks[i].hash) == chunk_range(source, chunks[i])
}

/// The catalog holds, under its identifier, the bytes of every source chunk
/// that the destination file lacks.
pub open spec fn supplies(
    catalog: Map<u64, Seq<u8>>,
    chunks: Seq<Chunk>,
    source: Seq<u8>,
    existing: Option<Seq<u8>>,
) -> bool {
    forall|i: int|
        0 <= i < chunks.len() && !spec_have(existing).contains_key((#[trigger] chunks[i]).hash)
            ==> catalog.contains_key(chunks[i].hash) && catalog[chunks[i].hash] == chunk_range(
            source,
            chunks[i],
        )
}

/// What the destination file holds under an identifier lies within the file
/// and is neither empty nor longer than a chunk may be.
proof fn lemma_have_in_bounds(existing: Option<Seq<u8>>, key: u64)
    requires
        well_cut(existing),
        spec_have(existing).contains_key(key),
    ensures
        spec_have(existing)[key].0 + spec_have(existing)[key].1 <= bytes_of(existing).len(),
        1 <= spec_have(existing)[key].1 <= MAX_CHUNK,
{
    let data = existing->0;
    let cuts = spec_cuts(data);
    assert(cuts.take(cuts.len() as int) =~= cuts);
    lemma_index_in_bounds(data, cuts, cuts.len() as int, key);
}

/// The copy sources of a planned file are loaded without failure, and each is
/// the range that the destination file holds under its identifier.
proof fn lemma_copies_are_ranges(chunks: Seq<Chunk>, existing: Option<Seq<u8>>, n: int)
    requires
        well_cut(existing),
        0 <= n <= chunks.len(),
    ensures
        ({
            let operations = spec_file_operations(chunks, existing);
            let loaded = spec_copies(bytes_of(existing), operations.take(n));
            &&& loaded is Some
            &&& forall|key: u64| #[trigger]
                loaded->0.contains_key(key) ==> spec_have(existing).contains_key(key)
                    && loaded->0[key] == have_range(existing, key)
            &&& forall|i: int|
                0 <= i < n && (#[trigger] operations[i]) is Copy ==> loaded->0.contains_key(
                    chunks[i].hash,
                )
        }),
    decreases n,
{
    let operations = spec_file_operations(chunks, existing);
    if n > 0 {
        lemma_copies_are_ranges(chunks, existing, n - 1);
        assert(operations.take(n).drop_last() =~= operations.take(n - 1));
        assert(operations.take(n).last() == operations[n - 1]);
        let chunk = chunks[n - 1];
        if operations[n - 1] is Copy {
            lemma_have_in_bounds(existing, chunk.hash);
        }
    }
}

/// The state of a rewrite that has brought the first `position` bytes of the
/// file to those of `source` and has left the rest of `existing` as it was.
pub open spec fn reached(source: Seq<u8>, existing: Seq<u8>, position: nat) -> Rewrite {
    Rewrite { buffer: source.take(position as int) + tail_from(existing, position), position }
}

/// Passing over bytes that are already those of the source brings the rewrite
/// further without a change to the file.
proof fn lemma_pass_over(source: Seq<u8>, existing: Seq<u8>, from: nat, to: nat)
    requires
        from <= to <= existing.len(),
        to <= source.len(),
        existing.subrange(from as int, to as int) == source.subrange(from as int, to as int),
    ensures
        reached(source, existing, from).buffer == reached(source, existing, to).buffer,
{
    let left = reached(source, existing, from).buffer;
    let right = reached(source, existing, to).buffer;
    assert(left.len() == right.len());
    assert forall|i: int| 0 <= i < left.len() implies left[i] == right[i] by {
        if from <= i < to {
            assert(existing.subrange(from as int, to as int)[i - from] == existing[i]);
            assert(source.subrange(from as int, to as int)[i - from] == source[i]);
        }
    }
    assert(left =~= right);
}

/// Writing the next bytes of the source brings the rewrite further by as
/// many bytes.
proof fn lemma_write_piece(source: Seq<u8>, existing: Seq<u8>, from: nat, data: Seq<u8>)
    requires
        from + data.len() <= source.len(),
        data == source.subrange(from as int, (from + data.len()) as int),
    ensures
        spec_write(reached(source, existing, from), data) == reached(
            source,
            existing,
            (from + data.len()) as nat,
        ),
{
    let state = reached(source, existing, from);
    let to = (from + data.len()) as nat;
    if data.len() == 0 {
    } else {
        let written = spec_write(state, data).buffer;
        let wanted = reached(source, existing, to).buffer;
        assert(padded(state.buffer, from) == state.buffer);
        assert(written.len() == wanted.len());
        assert forall|i: int| 0 <= i < written.len() implies written[i] == wanted[i] by {
            if from <= i < to {
                assert(data[i - from] == source[i]);
            }
        }
        assert(written =~= wanted);
    }
}

/// The first chunks of a file are no longer than the file.
proof fn lemma_prefix_length(chunks: Seq<Chunk>, n: int)
    requires
        0 <= n <= chunks.len(),
    ensures
        total_length(chunks.take(n)) <= total_length(chunks),
{
    lemma_total_length_split(chunks, n);
}

/// The planned operations bring the file to the source chunk by chunk: after
/// the first `n` operations the file holds the bytes of the first `n` source
/// chunks, followed by what the destination held behind them.
proof fn lemma_run_reaches(
    chunks: Seq<Chunk>,
    source: Seq<u8>,
    existing: Option<Seq<u8>>,
    catalog: Map<u64, Seq<u8>>,
    n: int,
)
    requires
        covers(chunks, source.len()),
        source.len() <= usize::MAX,
        well_cut(existing),
        genuine_matches(chunks, source, existing),
        supplies(catalog, chunks, source, existing),
        0 <= n <= chunks.len(),
    ensures
        ({
            let operations = spec_file_operations(chunks, existing);
            let copies = spec_copies(bytes_of(existing), operations)->0;
            spec_run(
                Rewrite { buffer: bytes_of(existing), position: 0 },
                copies,
                catalog,
                operations.take(n),
            ) == Some(reached(source, bytes_of(existing), total_length(chunks.take(n))))
        }),
    decreases n,
{
    let operations = spec_file_operations(chunks, existing);
    let held = bytes_of(existing);
    let copies = spec_copies(held, operations)->0;
    let start = Rewrite { buffer: held, position: 0 };
    if n == 0 {
        assert(chunks.take(0).len() == 0);
        assert(operations.take(0).len() == 0);
        assert(reached(source, held, 0).buffer =~= held);
    } else {
        lemma_run_reaches(chunks, source, existing, catalog, n - 1);
        assert(operations.take(n).drop_last() =~= operations.take(n - 1));
        assert(operations.take(n).last() == operations[n - 1]);
        let chunk = chunks[n - 1];
        let from = total_length(chunks.take(n - 1));
        let to = total_length(chunks.take(n));
        lemma_offset_is_prefix_length(chunks, n - 1);
        lemma_prefix_length(chunks, n);
        assert(from == chunk.offset);
        assert(to == chunk.offset + chunk.length);
        let state = reached(source, held, from);
        let have = spec_have(existing);
        lemma_copies_are_ranges(chunks, existing, chunks.len() as int);
        assert(operations.take(chunks.len() as int) =~= operations);
        if have.contains_key(chunk.hash) {
            let found = have[chunk.hash];
            lemma_have_in_bounds(existing, chunk.hash);
            assert(have_range(existing, chunk.hash) == chunk_range(source, chunk));
            assert(have_range(existing, chunk.hash).len() == found.1);
            assert(chunk_range(source, chunk).len() == chunk.length);
            if chunk.spec_is_at(found.0, found.1) {
                assert(operations[n - 1] == Operation::Seek(found.1 as i64));
                lemma_pass_over(source, held, from, to);
                assert(spec_seek(state, found.1 as i64) == Some(reached(source, held, to)));
            } else {
                assert(operations[n - 1] is Copy);
                assert(copies.contains_key(chunk.hash));
                assert(copies[chunk.hash] == chunk_range(source, chunk));
                lemma_write_piece(source, held, from, copies[chunk.hash]);
            }
        } else {
            assert(operations[n - 1] == Operation::Fetch(chunk));
            assert(catalog[chunk.hash] == chunk_range(source, chunk));
            lemma_write_piece(source, held, from, catalog[chunk.hash]);
        }
    }
}

/// Carrying out the plan of a file makes the file equal to the source file,
/// whatever the destination held before: bytes already in place stay, bytes
/// found elsewhere in the destination file are copied, the rest comes from
/// the catalog, and what the destination file held beyond the length of the
/// source file is cut off.
///
/// This rests on three things: the chunker's ranges of the destination file
/// are sound, the identifiers that decide what is reused do not collide, and
/// the catalog holds the source's bytes for every chunk that is fetched.
pub proof fn lemma_rewrite_reproduces_source(
    chunks: Seq<Chunk>,
    source: Seq<u8>,
    existing: Option<Seq<u8>>,
    catalog: Map<u64, Seq<u8>>,
)
    requires
        covers(chunks, source.len()),
        source.len() <= usize::MAX,
        well_cut(existing),
        genuine_matches(chunks, source, existing),
        supplies(catalog, chunks, source, existing),
    ensures
        spec_rewrite(bytes_of(existing), spec_file_operations(chunks, existing), catalog) == Some(
            source,
        ),
{
    let operations = spec_file_operations(chunks, existing);
    let held = bytes_of(existing);
    lemma_copies_are_ranges(chunks, existing, chunks.len() as int);
    assert(operations.take(chunks.len() as int) =~= operations);
    lemma_run_reaches(chunks, source, existing, catalog, chunks.len() as int);
    assert(chunks.take(chunks.len() as int) =~= chunks);
    let end = reached(source, held, source.len());
    assert(source.take(source.len() as int) =~= source);
    assert(spec_finish(end) =~= source);
}

/// A destination file all of whose planned operations pass over their chunk
/// begins with the bytes of the source file.
pub proof fn lemma_untouched_file_begins_with_source(
    chunks: Seq<Chunk>,
    source: Seq<u8>,
    existing: Option<Seq<u8>>,
)
    requires
        covers(chunks, source.len()),
        source.len() <= usize::MAX,
        well_cut(existing),
        genuine_matches(chunks, source, existing),
        !needs_work(spec_file_operations(chunks, existing)),
    ensures
        source.len() <= bytes_of(existing).len(),
        bytes_of(existing).take(source.len() as int) == source,
{
    let operations = spec_file_operations(chunks, existing);
    let held = bytes_of(existing);
    let catalog = Map::<u64, Seq<u8>>::empty();
    assert forall|i: int|
        0 <= i < chunks.len() implies spec_have(existing).contains_key((#[trigger] chunks[i]).hash) by {
        assert(!operations[i].spec_writes());
    }
    lemma_untouched_prefix(chunks, source, existing, chunks.len() as int);
    assert(chunks.take(chunks.len() as int) =~= chunks);
}

/// The first `n` chunks of a file whose operations all pass over their chunk
/// are in place in the destination file.
proof fn lemma_untouched_prefix(
    chunks: Seq<Chunk>,
    source: Seq<u8>,
    existing: Option<Seq<u8>>,
    n: int,
)
    requires
        covers(chunks, source.len()),
        well_cut(existing),
        genuine_matches(chunks, source, existing),
        !needs_work(spec_file_operations(chunks, existing)),
        0 <= n <= chunks.len(),
    ensures
        total_length(chunks.take(n)) <= bytes_of(existing).len(),
        total_length(chunks.take(n)) <= source.len(),
        bytes_of(existing).take(total_length(chunks.take(n)) as int) == source.take(
            total_length(chunks.take(n)) as int,
        ),
    decreases n,
{
    let operations = spec_file_operations(chunks, existing);
    let held = bytes_of(existing);
    lemma_prefix_length(chunks, n);
    if n == 0 {
        assert(chunks.take(0).len() == 0);
        assert(held.take(0) =~= source.take(0));
    } else {
        lemma_untouched_prefix(chunks, source, existing, n - 1);
        let chunk = chunks[n - 1];
        let from = total_length(chunks.take(n - 1)) as int;
        let to = total_length(chunks.take(n)) as int;
        lemma_offset_is_prefix_length(chunks, n - 1);
        assert(!operations[n - 1].spec_writes());
        assert(spec_have(existing).contains_key(chunk.hash));
        lemma_have_in_bounds(existing, chunk.hash);
        assert(have_range(existing, chunk.hash) == chunk_range(source, chunk));
        assert(held.subrange(from, to) == source.subrange(from, to));
        assert forall|i: int| 0 <= i < to implies held.take(to)[i] == source.take(to)[i] by {
            if i < from {
                assert(held.take(from)[i] == source.take(from)[i]);
            } else {
                assert(held.subrange(from, to)[i - from] == held[i]);
                assert(source.subrange(from, to)[i - from] == source[i]);
            }
        }
        assert(held.take(to) =~= source.take(to));
    }
}

/// What has to hold of one file of the manifest for its rewrite to give the
/// source file.
///
/// The source holds the file and the file's chunks make up its bytes; the
/// chunker's ranges of the destination file are sound; identifiers do not
/// collide where the destination's chunks are reused; the catalog holds the
/// chunks that are fetched.
pub open spec fn file_can_sync(
    file: FileRecord,
    source: Map<Seq<char>, Seq<u8>>,
    dest: Map<Seq<char>, Seq<u8>>,
    catalog: Map<u64, Seq<u8>>,
) -> bool {
    let existing = existing_at(dest, file.path);
    &&& source.contains_key(file.path)
    &&& covers(file.chunks, source[file.path].len())
    &&& source[file.path].len() <= usize::MAX
    &&& well_cut(existing)
    &&& genuine_matches(file.chunks, source[file.path], existing)
    &&& supplies(catalog, file.chunks, source[file.path], existing)
}

/// Every file of the manifest can be rewritten to the source file.
pub open spec fn can_sync(
    files: Seq<FileRecord>,
    source: Map<Seq<char>, Seq<u8>>,
    dest: Map<Seq<char>, Seq<u8>>,
    catalog: Map<u64, Seq<u8>>,
) -> bool {
    forall|i: int| 0 <= i < files.len() ==> file_can_sync(#[trigger] files[i], source, dest, catalog)
}

/// Whether the plan holds the file: one of its operations writes.
pub open spec fn is_planned(file: FileRecord, dest: Map<Seq<char>, Seq<u8>>) -> bool {
    needs_work(spec_file_operations(file.chunks, existing_at(dest, file.path)))
}

/// The file is not stale: if the plan leaves it out, it exists at the
/// destination and is not longer there than at the source.
///
/// The plan leaves out a file none of whose operations writes. That is so if
/// the destination file begins with the bytes of the source file and the
/// chunker cuts it there as it cuts the source file, and also if the source
/// file is empty. What the destination holds beyond is then not looked at:
/// an empty file is not made, and a file that goes on behind the last chunk of
/// the source file is not cut off.
pub open spec fn file_not_stale(
    file: FileRecord,
    source: Map<Seq<char>, Seq<u8>>,
    dest: Map<Seq<char>, Seq<u8>>,
) -> bool {
    !is_planned(file, dest) ==> dest.contains_key(file.path) && dest[file.path].len()
        <= source[file.path].len()
}

/// No file of the manifest is stale.
pub open spec fn nothing_stale(
    files: Seq<FileRecord>,
    source: Map<Seq<char>, Seq<u8>>,
    dest: Map<Seq<char>, Seq<u8>>,
) -> bool {
    forall|i: int| 0 <= i < files.len() ==> file_not_stale(#[trigger] files[i], source, dest)
}

/// The destination in which every file that the plan holds has the bytes it
/// has at the source, and every other file is as it was.
pub open spec fn synced(
    files: Seq<FileRecord>,
    source: Map<Seq<char>, Seq<u8>>,
    dest: Map<Seq<char>, Seq<u8>>,
) -> Map<Seq<char>, Seq<u8>>
    decreases files.len(),
{
    if files.len() == 0 {
        dest
    } else if is_planned(files.last(), dest) {
        synced(files.drop_last(), source, dest).insert(files.last().path, source[files.last().path])
    } else {
        synced(files.drop_last(), source, dest)
    }
}

/// In the synced destination the files that the plan holds are those of the
/// source, and all others are untouched.
pub proof fn lemma_synced_files(
    files: Seq<FileRecord>,
    source: Map<Seq<char>, Seq<u8>>,
    dest: Map<Seq<char>, Seq<u8>>,
)
    requires
        distinct_record_paths(files),
    ensures
        forall|i: int|
            0 <= i < files.len() && is_planned(#[trigger] files[i], dest) ==> synced(
                files,
                source,
                dest,
            ).contains_key(files[i].path) && synced(files, source, dest)[files[i].path]
                == source[files[i].path],
        forall|i: int|
            0 <= i < files.len() && !is_planned(#[trigger] files[i], dest) ==> synced(
                files,
                source,
                dest,
            ).contains_key(files[i].path) == dest.contains_key(files[i].path) && synced(
                files,
                source,
                dest,
            )[files[i].path] == dest[files[i].path],
        forall|path: Seq<char>|
            (forall|i: int| 0 <= i < files.len() ==> (#[trigger] files[i]).path != path) ==> (
            #[trigger] synced(files, source, dest).contains_key(path)) == dest.contains_key(path)
                && synced(files, source, dest)[path] == dest[path],
    decreases files.len(),
{
    if files.len() > 0 {
        let rest = files.drop_last();
        let last = files.len() - 1;
        assert forall|i: int, j: int| 0 <= i < j < rest.len() implies (#[trigger] rest[i]).path != (
        #[trigger] rest[j]).path by {
            assert(rest[i] == files[i] && rest[j] == files[j]);
        }
        lemma_synced_files(rest, source, dest);
        let now = synced(files, source, dest);
        let before = synced(rest, source, dest);
        assert forall|i: int| 0 <= i < rest.len() implies (#[trigger] rest[i]).path
            != files[last].path by {
            assert(rest[i] == files[i]);
        }
        assert forall|i: int| 0 <= i < files.len() && is_planned(
            #[trigger] files[i],
            dest,
        ) implies now.contains_key(files[i].path) && now[files[i].path]
            == source[files[i].path] by {
            if i < last {
                assert(rest[i] == files[i]);
                assert(files[i].path != files[last].path);
            }
        }
        assert forall|i: int| 0 <= i < files.len() && !is_planned(
            #[trigger] files[i],
            dest,
        ) implies now.contains_key(files[i].path) == dest.contains_key(files[i].path)
            && now[files[i].path] == dest[files[i].path] by {
            if i < last {
                assert(rest[i] == files[i]);
                assert(files[i].path != files[last].path);
            }
        }
        assert forall|path: Seq<char>|
            (forall|i: int| 0 <= i < files.len() ==> (#[trigger] files[i]).path != path) implies (
        #[trigger] now.contains_key(path)) == dest.contains_key(path) && now[path]
            == dest[path] by {
            assert(files[last].path != path);
            assert forall|i: int| 0 <= i < rest.len() implies (#[trigger] rest[i]).path != path by {
                assert(rest[i] == files[i]);
            }
        }
    }
}

/// Planning a sync and carrying the plan out succeeds and makes every file
/// that the plan holds equal to the source file. Every other file of the
/// destination stays as it was.
///
/// This rests on what [`file_can_sync`] asks of each file and on the manifest
/// naming no path twice.
pub proof fn lemma_sync_reproduces_source(
    files: Seq<FileRecord>,
    source: Map<Seq<char>, Seq<u8>>,
    dest: Map<Seq<char>, Seq<u8>>,
    catalog: Map<u64, Seq<u8>>,
)
    requires
        distinct_record_paths(files),
        can_sync(files, source, dest, catalog),
    ensures
        spec_execute(dest, spec_plan(files, dest), catalog) == Some(synced(files, source, dest)),
    decreases files.len(),
{
    if files.len() > 0 {
        let rest = files.drop_last();
        let file = files.last();
        assert forall|i: int| 0 <= i < rest.len() implies file_can_sync(
            #[trigger] rest[i],
            source,
            dest,
            catalog,
        ) by {
            assert(rest[i] == files[i]);
        }
        assert forall|i: int, j: int| 0 <= i < j < rest.len() implies (#[trigger] rest[i]).path != (
        #[trigger] rest[j]).path by {
            assert(rest[i] == files[i] && rest[j] == files[j]);
        }
        lemma_sync_reproduces_source(rest, source, dest, catalog);
        lemma_synced_files(rest, source, dest);
        let before = synced(rest, source, dest);
        assert(file == files[files.len() - 1]);
        assert(file_can_sync(file, source, dest, catalog));
        assert forall|i: int| 0 <= i < rest.len() implies (#[trigger] rest[i]).path
            != file.path by {
            assert(rest[i] == files[i]);
        }
        assert(before.contains_key(file.path) == dest.contains_key(file.path));
        assert(before[file.path] == dest[file.path]);
        let existing = existing_at(dest, file.path);
        let operations = spec_file_operations(file.chunks, existing);
        let content = source[file.path];
        assert(existing_or_empty(before, file.path) == bytes_of(existing));
        if needs_work(operations) {
            lemma_rewrite_reproduces_source(file.chunks, content, existing, catalog);
            let plan = spec_plan(files, dest);
            assert(plan.drop_last() =~= spec_plan(rest, dest));
            assert(plan.last() == spec_file_plan(file, dest));
        }
    }
}

/// The destination holds every file of the manifest with the bytes it has at
/// the source.
pub open spec fn holds_source(
    files: Seq<FileRecord>,
    source: Map<Seq<char>, Seq<u8>>,
    dest: Map<Seq<char>, Seq<u8>>,
) -> bool {
    forall|i: int|
        0 <= i < files.len() ==> dest.contains_key((#[trigger] files[i]).path) && dest[files[i].path]
            == source[files[i].path]
}

/// After a sync every file of the manifest is at the destination what it is
/// at the source, unless it was stale: a file that the plan holds is
/// rewritten, and one that it leaves out had the bytes of the source file
/// before.
pub proof fn lemma_sync_settles_files(
    files: Seq<FileRecord>,
    source: Map<Seq<char>, Seq<u8>>,
    dest: Map<Seq<char>, Seq<u8>>,
    catalog: Map<u64, Seq<u8>>,
)
    requires
        distinct_record_paths(files),
        can_sync(files, source, dest, catalog),
        nothing_stale(files, source, dest),
    ensures
        spec_execute(dest, spec_plan(files, dest), catalog) matches Some(after) && holds_source(
            files,
            source,
            after,
        ),
{
    lemma_sync_reproduces_source(files, source, dest, catalog);
    lemma_synced_files(files, source, dest);
    let after = synced(files, source, dest);
    assert forall|i: int| 0 <= i < files.len() implies after.contains_key(
        (#[trigger] files[i]).path,
    ) && after[files[i].path] == source[files[i].path] by {
        let file = files[i];
        assert(file_can_sync(file, source, dest, catalog));
        assert(file_not_stale(file, source, dest));
        if !is_planned(file, dest) {
            lemma_untouched_file_begins_with_source(
                file.chunks,
                source[file.path],
                existing_at(dest, file.path),
            );
            assert(dest[file.path] =~= source[file.path]);
        }
    }
}

/// After a sync every file of the manifest is as long at the destination as
/// at the source, however long it was before, unless it was stale.
pub proof fn lemma_sync_settles_lengths(
    files: Seq<FileRecord>,
    source: Map<Seq<char>, Seq<u8>>,
    dest: Map<Seq<char>, Seq<u8>>,
    catalog: Map<u64, Seq<u8>>,
)
    requires
        distinct_record_paths(files),
        can_sync(files, source, dest, catalog),
        nothing_stale(files, source, dest),
    ensures
        spec_execute(dest, spec_plan(files, dest), catalog) matches Some(after) && forall|i: int|
            0 <= i < files.len() ==> after[(#[trigger] files[i]).path].len()
                == source[files[i].path].len(),
{
    lemma_sync_settles_files(files, source, dest, catalog);
}

/// Every file of the manifest is at the destination what it is at the
/// source, its chunks are those the chunker makes of it, and no two of them
/// have the same identifier.
pub open spec fn in_sync(
    files: Seq<FileRecord>,
    source: Map<Seq<char>, Seq<u8>>,
    dest: Map<Seq<char>, Seq<u8>>,
) -> bool {
    forall|i: int|
        0 <= i < files.len() ==> {
            let file = #[trigger] files[i];
            &&& dest.contains_key(file.path)
            &&& dest[file.path] == source[file.path]
            &&& file.chunks == spec_chunks(source[file.path])
            &&& distinct_ids(file.chunks)
        }
}

/// The plan for a destination that already has the bytes of the source holds
/// no file.
pub proof fn lemma_plan_for_synced_is_empty(
    files: Seq<FileRecord>,
    source: Map<Seq<char>, Seq<u8>>,
    dest: Map<Seq<char>, Seq<u8>>,
)
    requires
        in_sync(files, source, dest),
    ensures
        spec_plan(files, dest).len() == 0,
    decreases files.len(),
{
    if files.len() > 0 {
        let rest = files.drop_last();
        assert forall|i: int| 0 <= i < rest.len() implies {
            let file = #[trigger] rest[i];
            &&& dest.contains_key(file.path)
            &&& dest[file.path] == source[file.path]
            &&& file.chunks == spec_chunks(source[file.path])
            &&& distinct_ids(file.chunks)
        } by {
            assert(rest[i] == files[i]);
        }
        lemma_plan_for_synced_is_empty(rest, source, dest);
        let file = files.last();
        assert(file == files[files.len() - 1]);
        lemma_identical_needs_no_work(source[file.path]);
    }
}

/// The plan for a destination none of whose files needs work holds no file.
pub proof fn lemma_plan_without_work_is_empty(
    files: Seq<FileRecord>,
    dest: Map<Seq<char>, Seq<u8>>,
)
    requires
        forall|i: int| 0 <= i < files.len() ==> !is_planned(#[trigger] files[i], dest),
    ensures
        spec_plan(files, dest).len() == 0,
    decreases files.len(),
{
    if files.len() > 0 {
        let rest = files.drop_last();
        assert forall|i: int| 0 <= i < rest.len() implies !is_planned(#[trigger] rest[i], dest) by {
            assert(rest[i] == files[i]);
        }
        lemma_plan_without_work_is_empty(rest, dest);
        assert(files.last() == files[files.len() - 1]);
    }
}

/// A plan that holds only files that another plan holds too has no more
/// operations than that plan: a file has as many operations as its source
/// file has chunks, whatever the destination holds.
pub proof fn lemma_smaller_plan_counts_less(
    files: Seq<FileRecord>,
    first: Map<Seq<char>, Seq<u8>>,
    second: Map<Seq<char>, Seq<u8>>,
)
    requires
        forall|i: int|
            0 <= i < files.len() && is_planned(#[trigger] files[i], second) ==> is_planned(
                files[i],
                first,
            ),
    ensures
        count_operations(spec_plan(files, second)) <= count_operations(spec_plan(files, first)),
    decreases files.len(),
{
    if files.len() > 0 {
        let rest = files.drop_last();
        assert forall|i: int| 0 <= i < rest.len() && is_planned(
            #[trigger] rest[i],
            second,
        ) implies is_planned(rest[i], first) by {
            assert(rest[i] == files[i]);
        }
        lemma_smaller_plan_counts_less(rest, first, second);
        let file = files.last();
        assert(file == files[files.len() - 1]);
        if is_planned(file, second) {
            assert(spec_plan(files, second).drop_last() =~= spec_plan(rest, second));
            assert(spec_plan(files, first).drop_last() =~= spec_plan(rest, first));
        } else if is_planned(file, first) {
            assert(spec_plan(files, first).drop_last() =~= spec_plan(rest, first));
        }
    }
}

/// The index of the ranges of a file knows the identifier of every range.
proof fn lemma_index_knows_every_cut(data: Seq<u8>, cuts: Seq<(usize, usize)>, n: int, j: int)
    requires
        0 <= j < n <= cuts.len(),
    ensures
        index_of_cuts(data, cuts.take(n)).contains_key(cut_id(data, cuts[j])),
    decreases n,
{
    assert(cuts.take(n).last() == cuts[n - 1]);
    assert(cuts.take(n).drop_last() =~= cuts.take(n - 1));
    if j < n - 1 {
        lemma_index_knows_every_cut(data, cuts, n - 1, j);
    }
}

/// Chunks of the file with the same identifier have the same bytes.
pub open spec fn repeats_are_equal(chunks: Seq<Chunk>, data: Seq<u8>) -> bool {
    forall|i: int, j: int|
        0 <= i < chunks.len() && 0 <= j < chunks.len() && (#[trigger] chunks[i]).hash == (
        #[trigger] chunks[j]).hash ==> chunk_range(data, chunks[i]) == chunk_range(
            data,
            chunks[j],
        )
}

/// A destination file that has the bytes of the source file is rewritten
/// without a fetch: every chunk is found in the file, in place or elsewhere,
/// and what is found is the chunk.
pub proof fn lemma_identical_file_fetches_nothing(data: Seq<u8>, catalog: Map<u64, Seq<u8>>)
    requires
        well_cut(Some(data)),
        repeats_are_equal(spec_chunks(data), data),
    ensures
        fetches_nothing(spec_file_operations(spec_chunks(data), Some(data))),
        genuine_matches(spec_chunks(data), data, Some(data)),
        supplies(catalog, spec_chunks(data), data, Some(data)),
{
    let cuts = spec_cuts(data);
    let chunks = spec_chunks(data);
    let have = spec_have(Some(data));
    let operations = spec_file_operations(chunks, Some(data));
    assert(cuts.take(cuts.len() as int) =~= cuts);
    assert forall|i: int| 0 <= i < chunks.len() implies have.contains_key(
        (#[trigger] chunks[i]).hash,
    ) by {
        lemma_index_knows_every_cut(data, cuts, cuts.len() as int, i);
        assert(chunks[i] == chunk_of(data, cuts[i]));
    }
    assert forall|i: int| 0 <= i < operations.len() implies !((#[trigger] operations[i]) is Fetch) by {
        assert(have.contains_key(chunks[i].hash));
    }
    assert forall|i: int|
        0 <= i < chunks.len() && have.contains_key((#[trigger] chunks[i]).hash) implies have_range(
        Some(data),
        chunks[i].hash,
    ) == chunk_range(data, chunks[i]) by {
        let key = chunks[i].hash;
        lemma_index_in_bounds(data, cuts, cuts.len() as int, key);
        let found = have[key];
        let k = choose|k: int| 0 <= k < cuts.len() && cuts[k] == found;
        assert(chunks[k] == chunk_of(data, cuts[k]));
        assert(chunk_range(data, chunks[k]) == have_range(Some(data), key));
    }
}

/// A second sync changes nothing and fetches nothing.
///
/// After a sync of `dest` the plan for the destination as the sync left it
/// holds no fetch and no more operations than the first plan, and carrying
/// it out, with whatever provider, leaves every file as it is: a file that the
/// first sync rewrote is found whole in the destination, and a file that it
/// left out is left out again. This holds where identifiers tell the chunks
/// of each file apart.
pub proof fn lemma_second_sync_changes_nothing(
    files: Seq<FileRecord>,
    source: Map<Seq<char>, Seq<u8>>,
    dest: Map<Seq<char>, Seq<u8>>,
    catalog: Map<u64, Seq<u8>>,
    other: Map<u64, Seq<u8>>,
)
    requires
        distinct_record_paths(files),
        describes(files, source),
        can_sync(files, source, dest, catalog),
        forall|i: int|
            0 <= i < files.len() ==> repeats_are_equal(
                (#[trigger] files[i]).chunks,
                source[files[i].path],
            ),
    ensures
        spec_execute(dest, spec_plan(files, dest), catalog) == Some(synced(files, source, dest)),
        plan_fetches_nothing(spec_plan(files, synced(files, source, dest))),
        count_operations(spec_plan(files, synced(files, source, dest))) <= count_operations(
            spec_plan(files, dest),
        ),
        spec_execute(
            synced(files, source, dest),
            spec_plan(files, synced(files, source, dest)),
            other,
        ) == Some(synced(files, source, dest)),
{
    lemma_sync_reproduces_source(files, source, dest, catalog);
    lemma_synced_files(files, source, dest);
    let after = synced(files, source, dest);
    // What the second plan finds for each file.
    assert forall|i: int| 0 <= i < files.len() implies file_can_sync(
        #[trigger] files[i],
        source,
        after,
        other,
    ) && fetches_nothing(spec_file_plan(files[i], after).operations) && (is_planned(
        files[i],
        after,
    ) ==> is_planned(files[i], dest)) by {
        let file = files[i];
        let data = source[file.path];
        assert(file_described(file, source));
        assert(file_can_sync(file, source, dest, catalog));
        if is_planned(file, dest) {
            assert(existing_at(after, file.path) == Some(data));
            lemma_identical_file_fetches_nothing(data, other);
        } else {
            assert(existing_at(after, file.path) == existing_at(dest, file.path));
            let operations = spec_file_operations(file.chunks, existing_at(dest, file.path));
            assert forall|j: int| 0 <= j < operations.len() implies !((
            #[trigger] operations[j]) is Fetch) by {
                assert(!operations[j].spec_writes());
            }
            assert forall|j: int|
                0 <= j < file.chunks.len() implies spec_have(
                existing_at(dest, file.path),
            ).contains_key((#[trigger] file.chunks[j]).hash) by {
                assert(!operations[j].spec_writes());
            }
        }
    }
    lemma_sync_reproduces_source(files, source, after, other);
    lemma_synced_files(files, source, after);
    let again = synced(files, source, after);
    assert forall|path: Seq<char>| #[trigger]
        again.contains_key(path) == after.contains_key(path) && (after.contains_key(path)
            ==> again[path] == after[path]) by {
        if exists|i: int| 0 <= i < files.len() && (#[trigger] files[i]).path == path {
            let i = choose|i: int| 0 <= i < files.len() && (#[trigger] files[i]).path == path;
            if is_planned(files[i], after) {
                assert(is_planned(files[i], dest));
            }
        }
    }
    assert(again =~= after);
    lemma_smaller_plan_counts_less(files, dest, after);
    let plan = spec_plan(files, after);
    assert forall|k: int| 0 <= k < plan.len() implies fetches_nothing(
        (#[trigger] plan[k]).operations,
    ) by {
        lemma_planned_files_need_work(files, after, k);
        let m = choose|m: int|
            0 <= m < files.len() && plan[k] == spec_file_plan(#[trigger] files[m], after)
                && plan[k].operations.len() == files[m].chunks.len();
        assert(fetches_nothing(spec_file_plan(files[m], after).operations));
    }
}

/// A second plan is empty: after a sync the plan for the destination as the
/// sync left it holds no file, its operations count zero, and carrying it out
/// changes nothing. This holds where no file has two chunks with the same
/// identifier; of two such chunks the earlier is planned as a copy.
pub proof fn lemma_sync_is_idempotent(
    files: Seq<FileRecord>,
    source: Map<Seq<char>, Seq<u8>>,
    dest: Map<Seq<char>, Seq<u8>>,
    catalog: Map<u64, Seq<u8>>,
)
    requires
        distinct_record_paths(files),
        can_sync(files, source, dest, catalog),
        forall|i: int|
            0 <= i < files.len() ==> (#[trigger] files[i]).chunks == spec_chunks(
                source[files[i].path],
            ) && distinct_ids(files[i].chunks),
    ensures
        spec_execute(dest, spec_plan(files, dest), catalog) matches Some(after) && spec_plan(
            files,
            after,
        ).len() == 0 && count_operations(spec_plan(files, after)) == 0 && spec_fetch_size(
            spec_plan(files, after),
        ) == 0 && spec_execute(after, spec_plan(files, after), catalog) == Some(after),
{
    lemma_sync_reproduces_source(files, source, dest, catalog);
    lemma_synced_files(files, source, dest);
    let after = synced(files, source, dest);
    assert forall|i: int| 0 <= i < files.len() implies !is_planned(#[trigger] files[i], after) by {
        let file = files[i];
        if is_planned(file, dest) {
            assert(existing_at(after, file.path) == Some(source[file.path]));
            lemma_identical_needs_no_work(source[file.path]);
        } else {
            assert(existing_at(after, file.path) == existing_at(dest, file.path));
        }
    }
    lemma_plan_without_work_is_empty(files, after);
}

} // verus!

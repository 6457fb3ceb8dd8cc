//! The planner: which operations turn a destination file into the source
//! file.
//!
//! For each chunk of the source file the planner looks for a chunk with the
//! same identifier among the chunks of the destination file as it is now. A
//! chunk found in place is passed over, one found elsewhere is copied from
//! there, and one not found is fetched from the provider.

use crate::chunk::{count_operations, file_plans, Chunk, FilePlan, Operation, SyncPlan};
use crate::chunker::{
    cut, cuts_cover, cuts_sized, lemma_cut_in_bounds, spec_cuts, MAX_CHUNK, MIN_CHUNK,
};
use crate::error::Error;
use crate::hash::{chunk_id, spec_chunk_id};
use crate::manifest::{FileRecord, Manifest};
use crate::tree::Directory;
use std::collections::HashMap;
use vstd::prelude::*;
use vstd::slice::slice_subrange;

verus! {

/// The identifier of the bytes of `data` in the range `cut`.
pub open spec fn cut_id(data: Seq<u8>, cut: (usize, usize)) -> u64 {
    spec_chunk_id(data.subrange(cut.0 as int, cut.0 + cut.1))
}

/// The ranges of `data` by identifier, for the ranges `cuts` taken in order:
/// of two ranges with the same identifier the later one stays.
pub open spec fn index_of_cuts(data: Seq<u8>, cuts: Seq<(usize, usize)>) -> Map<
    u64,
    (usize, usize),
>
    decreases cuts.len(),
{
    if cuts.len() == 0 {
        Map::empty()
    } else {
        index_of_cuts(data, cuts.drop_last()).insert(cut_id(data, cuts.last()), cuts.last())
    }
}

/// What the destination file has: the ranges of its chunks by identifier. A
/// file that does not exist has nothing.
pub open spec fn spec_have(existing: Option<Seq<u8>>) -> Map<u64, (usize, usize)> {
    match existing {
        Some(data) => index_of_cuts(data, spec_cuts(data)),
        None => Map::empty(),
    }
}

/// The chunker's ranges of the destination file lie end to end within the
/// file and keep to the size limits. This is what the chunker is known to
/// deliver.
pub open spec fn well_cut(existing: Option<Seq<u8>>) -> bool {
    existing matches Some(data) ==> cuts_cover(spec_cuts(data), data.len()) && cuts_sized(
        spec_cuts(data),
        MIN_CHUNK,
        MAX_CHUNK,
    )
}

/// The operation that brings the source chunk `chunk` into a destination that
/// has the chunks `have`.
pub open spec fn spec_operation(have: Map<u64, (usize, usize)>, chunk: Chunk) -> Operation {
    if have.contains_key(chunk.hash) {
        let found = have[chunk.hash];
        if chunk.spec_is_at(found.0, found.1) {
            Operation::Seek(found.1 as i64)
        } else {
            Operation::Copy(
                Chunk { hash: chunk.hash, offset: found.0 as u64, length: found.1 as u64 },
            )
        }
    } else {
        Operation::Fetch(chunk)
    }
}

/// The operations for a file with the source chunks `chunks` whose
/// destination holds `existing`: one operation for each chunk, in order.
pub open spec fn spec_file_operations(chunks: Seq<Chunk>, existing: Option<Seq<u8>>) -> Seq<
    Operation,
> {
    Seq::new(chunks.len(), |i: int| spec_operation(spec_have(existing), chunks[i]))
}

/// Whether any of the operations writes.
pub open spec fn needs_work(operations: Seq<Operation>) -> bool {
    exists|i: int| 0 <= i < operations.len() && (#[trigger] operations[i]).spec_writes()
}

/// The contents of the file at `path` in `dest`, if there is one.
pub open spec fn existing_at(dest: Map<Seq<char>, Seq<u8>>, path: Seq<char>) -> Option<Seq<u8>> {
    if dest.contains_key(path) {
        Some(dest[path])
    } else {
        None
    }
}

/// The plan for one file of a manifest against the destination `dest`.
pub open spec fn spec_file_plan(file: FileRecord, dest: Map<Seq<char>, Seq<u8>>) -> FilePlan {
    FilePlan {
        path: file.path,
        operations: spec_file_operations(file.chunks, existing_at(dest, file.path)),
    }
}

/// The plan that brings `dest` to the state that `files` describe: the plans
/// of the files in the manifest's order, without the files none of whose
/// operations writes.
pub open spec fn spec_plan(files: Seq<FileRecord>, dest: Map<Seq<char>, Seq<u8>>) -> Seq<FilePlan>
    decreases files.len(),
{
    if files.len() == 0 {
        Seq::empty()
    } else {
        let rest = spec_plan(files.drop_last(), dest);
        let plan = spec_file_plan(files.last(), dest);
        if needs_work(plan.operations) {
            rest.push(plan)
        } else {
            rest
        }
    }
}

/// Every file that a plan holds has an operation that writes, and as many
/// operations as its source file has chunks.
pub proof fn lemma_planned_files_need_work(
    files: Seq<FileRecord>,
    dest: Map<Seq<char>, Seq<u8>>,
    k: int,
)
    requires
        0 <= k < spec_plan(files, dest).len(),
    ensures
        needs_work(spec_plan(files, dest)[k].operations),
        exists|m: int|
            0 <= m < files.len() && spec_plan(files, dest)[k] == spec_file_plan(
                #[trigger] files[m],
                dest,
            ) && spec_plan(files, dest)[k].operations.len() == files[m].chunks.len(),
    decreases files.len(),
{
    let rest = spec_plan(files.drop_last(), dest);
    if k < rest.len() {
        lemma_planned_files_need_work(files.drop_last(), dest, k);
        let m = choose|m: int|
            0 <= m < files.drop_last().len() && rest[k] == spec_file_plan(
                #[trigger] files.drop_last()[m],
                dest,
            ) && rest[k].operations.len() == files.drop_last()[m].chunks.len();
        assert(files[m] == files.drop_last()[m]);
    } else {
        assert(files[files.len() - 1] == files.last());
    }
}

/// The plan for the first files of a manifest has no more operations than the
/// plan for all of them.
pub proof fn lemma_plan_count_grows(files: Seq<FileRecord>, dest: Map<Seq<char>, Seq<u8>>, n: int)
    requires
        0 <= n <= files.len(),
    ensures
        count_operations(spec_plan(files.take(n), dest)) <= count_operations(
            spec_plan(files, dest),
        ),
    decreases files.len(),
{
    if n == files.len() {
        assert(files.take(n) =~= files);
    } else {
        lemma_plan_count_grows(files.drop_last(), dest, n);
        assert(files.drop_last().take(n) =~= files.take(n));
        let rest = spec_plan(files.drop_last(), dest);
        let plan = spec_file_plan(files.last(), dest);
        if needs_work(plan.operations) {
            assert(rest.push(plan).drop_last() =~= rest);
        }
    }
}

/// Every range in the index of covering cuts lies within the data and is one
/// of the cuts.
pub proof fn lemma_index_in_bounds(data: Seq<u8>, cuts: Seq<(usize, usize)>, n: int, key: u64)
    requires
        cuts_cover(cuts, data.len()),
        cuts_sized(cuts, MIN_CHUNK, MAX_CHUNK),
        0 <= n <= cuts.len(),
        index_of_cuts(data, cuts.take(n)).contains_key(key),
    ensures
        ({
            let found = index_of_cuts(data, cuts.take(n))[key];
            &&& found.0 + found.1 <= data.len()
            &&& 1 <= found.1 <= MAX_CHUNK
            &&& cut_id(data, found) == key
            &&& exists|i: int| 0 <= i < n && cuts[i] == found
        }),
    decreases n,
{
    if n > 0 {
        let last = cuts.take(n).last();
        assert(last == cuts[n - 1]);
        assert(cuts.take(n).drop_last() =~= cuts.take(n - 1));
        if cut_id(data, last) == key {
            lemma_cut_in_bounds(cuts, data.len(), n - 1);
        } else {
            lemma_index_in_bounds(data, cuts, n - 1, key);
        }
    }
}

/// Cuts the existing contents of a destination file into chunks and indexes
/// their ranges by identifier.
pub fn index_existing(existing: &[u8]) -> (have: HashMap<u64, (usize, usize)>)
    ensures
        have@ == spec_have(Some(existing@)),
        cuts_cover(spec_cuts(existing@), existing@.len()),
        cuts_sized(spec_cuts(existing@), MIN_CHUNK, MAX_CHUNK),
{
    let cuts = cut(existing);
    let size: usize = existing.len();
    let mut have: HashMap<u64, (usize, usize)> = HashMap::new();
    let mut i: usize = 0;
    proof {
        assert(cuts@.take(0) =~= Seq::<(usize, usize)>::empty());
    }
    while i < cuts.len()
        invariant
            i <= cuts@.len(),
            size == existing@.len(),
            cuts@ == spec_cuts(existing@),
            cuts_cover(cuts@, existing@.len()),
            have@ == index_of_cuts(existing@, cuts@.take(i as int)),
        decreases cuts@.len() - i,
    {
        let offset: usize = cuts[i].0;
        let length: usize = cuts[i].1;
        proof {
            lemma_cut_in_bounds(cuts@, existing@.len(), i as int);
            assert(cuts@.take(i + 1).drop_last() =~= cuts@.take(i as int));
            assert(cuts@.take(i + 1).last() == cuts@[i as int]);
        }
        let hash: u64 = chunk_id(slice_subrange(existing, offset, offset + length));
        have.insert(hash, (offset, length));
        i += 1;
    }
    proof {
        assert(cuts@.take(i as int) =~= cuts@);
    }
    have
}

/// Chooses the operation for one source chunk.
pub fn plan_chunk(have: &HashMap<u64, (usize, usize)>, chunk: &Chunk) -> (operation: Operation)
    ensures
        operation == spec_operation(have@, *chunk),
{
    match have.get(&chunk.hash) {
        Some(found) => {
            let offset: usize = found.0;
            let length: usize = found.1;
            if chunk.is_at(offset, length) {
                Operation::Seek(length as i64)
            } else {
                Operation::Copy(
                    Chunk { hash: chunk.hash, offset: offset as u64, length: length as u64 },
                )
            }
        },
        None => Operation::Fetch(*chunk),
    }
}

/// The view of optional file contents.
pub open spec fn contents_view(existing: Option<&Vec<u8>>) -> Option<Seq<u8>> {
    match existing {
        Some(data) => Some(data@),
        None => None,
    }
}

/// Plans the operations for one file: `chunks` are the chunks of the source
/// file, `existing` is what the destination holds at the file's path.
///
/// There is one operation for each source chunk. If the destination file does
/// not exist, every chunk is fetched.
pub fn plan_file(chunks: &Vec<Chunk>, existing: Option<&Vec<u8>>) -> (operations: Vec<Operation>)
    ensures
        operations@ == spec_file_operations(chunks@, contents_view(existing)),
        operations@.len() == chunks@.len(),
        well_cut(contents_view(existing)),
        existing is None ==> forall|i: int|
            0 <= i < chunks@.len() ==> #[trigger] operations@[i] == Operation::Fetch(chunks@[i]),
{
    let have = match existing {
        Some(data) => index_existing(data.as_slice()),
        None => HashMap::new(),
    };
    let mut operations: Vec<Operation> = Vec::new();
    let mut i: usize = 0;
    while i < chunks.len()
        invariant
            i <= chunks@.len(),
            have@ == spec_have(contents_view(existing)),
            operations@.len() == i,
            forall|j: int|
                0 <= j < i ==> #[trigger] operations@[j] == spec_operation(have@, chunks@[j]),
        decreases chunks@.len() - i,
    {
        operations.push(plan_chunk(&have, &chunks[i]));
        i += 1;
    }
    proof {
        assert(operations@ =~= spec_file_operations(chunks@, contents_view(existing)));
    }
    operations
}

/// Decides whether any of the operations writes.
pub fn any_writes(operations: &Vec<Operation>) -> (any: bool)
    ensures
        any == needs_work(operations@),
{
    let mut i: usize = 0;
    while i < operations.len()
        invariant
            i <= operations@.len(),
            forall|j: int| 0 <= j < i ==> !(#[trigger] operations@[j]).spec_writes(),
        decreases operations@.len() - i,
    {
        if operations[i].writes() {
            return true;
        }
        i += 1;
    }
    false
}

/// Plans the rewrite of `dest` to the state that `manifest` describes.
///
/// The plan holds, in the manifest's order, every file at least one of whose
/// operations writes; a file whose chunks are all in place is left out.
/// `total_ops` is the number of operations in the plan. Fails with
/// [`Error::Unspecified`] if that number does not fit in 32 bits.
pub fn plan_sync(manifest: &Manifest, dest: &Directory) -> (planned: Result<SyncPlan, Error>)
    requires
        dest.wf(),
    ensures
        match planned {
            Ok(plan) => {
                &&& plan@ == spec_plan(manifest@, dest@)
                &&& plan.total_ops == count_operations(plan@)
                &&& forall|i: int|
                    0 <= i < manifest@.len() ==> well_cut(
                        existing_at(dest@, (#[trigger] manifest@[i]).path),
                    )
            },
            Err(error) => error is Unspecified && count_operations(spec_plan(manifest@, dest@))
                > u32::MAX,
        },
{
    let mut entries: Vec<(String, Vec<Operation>)> = Vec::new();
    let mut total: u32 = 0;
    let mut f: usize = 0;
    proof {
        assert(manifest@.take(0) =~= Seq::<FileRecord>::empty());
        assert(file_plans(entries@) =~= Seq::<FilePlan>::empty());
    }
    while f < manifest.files.len()
        invariant
            f <= manifest.files@.len(),
            dest.wf(),
            file_plans(entries@) == spec_plan(manifest@.take(f as int), dest@),
            total == count_operations(file_plans(entries@)),
            forall|i: int|
                0 <= i < f ==> well_cut(existing_at(dest@, (#[trigger] manifest@[i]).path)),
        decreases manifest.files@.len() - f,
    {
        let file = &manifest.files[f];
        let existing = dest.get(&file.path);
        let operations = plan_file(&file.chunks, existing);
        proof {
            assert(manifest@.take(f + 1).drop_last() =~= manifest@.take(f as int));
            assert(manifest@.take(f + 1).last() == file@);
            assert(contents_view(existing) == existing_at(dest@, file.path@));
            lemma_plan_count_grows(manifest@, dest@, f + 1);
        }
        if any_writes(&operations) {
            let ghost before = file_plans(entries@);
            let ghost added = FilePlan { path: file.path@, operations: operations@ };
            if operations.len() > (u32::MAX - total) as usize {
                proof {
                    assert(before.push(added).drop_last() =~= before);
                }
                return Err(Error::Unspecified("the plan holds too many operations".to_string()));
            }
            total = total + operations.len() as u32;
            entries.push((file.path.clone(), operations));
            proof {
                assert(file_plans(entries@) =~= before.push(added));
                assert(before.push(added).drop_last() =~= before);
            }
        }
        f += 1;
    }
    proof {
        assert(manifest@.take(f as int) =~= manifest@);
    }
    Ok(SyncPlan { operations: entries, total_ops: total })
}

} // verus!

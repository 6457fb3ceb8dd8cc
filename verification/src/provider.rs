//! Providers that serve chunks from a source directory.

use crate::chunk::{Chunk, ChunkProvider, FilePlan, Operation, SyncPlan};
use crate::error::Error;
use crate::manifest::{FileRecord, Manifest};
use crate::tree::{first_index, Directory, FileEntry};
use std::collections::HashMap;
use vstd::prelude::*;
use vstd::slice::{slice_subrange, slice_to_vec};

verus! {

/// A range of bytes of a file of the source.
#[derive(Clone, Copy, Debug)]
pub struct SourceRange {
    /// The index of the file in the source directory; `None` if the source
    /// has no file at the path under which the range was named.
    pub file: Option<usize>,
    pub offset: u64,
    pub length: u64,
}

/// Whether the source holds the bytes of `range`.
pub open spec fn range_servable(files: Seq<FileEntry>, range: SourceRange) -> bool {
    range.file matches Some(index) && index < files.len() && range.offset + range.length
        <= files[index as int].contents@.len()
}

/// The bytes of `range` in the source.
pub open spec fn range_bytes(files: Seq<FileEntry>, range: SourceRange) -> Seq<u8> {
    files[range.file->0 as int].contents@.subrange(
        range.offset as int,
        range.offset + range.length,
    )
}

/// Reads the bytes of a range from the source.
///
/// Fails with [`Error::AccessDenied`] if the source has no such file or the
/// range reaches beyond the end of the file.
pub fn read_range(source: &Directory, range: &SourceRange) -> (data: Result<Vec<u8>, Error>)
    ensures
        match data {
            Ok(bytes) => range_servable(source.files@, *range) && bytes@ == range_bytes(
                source.files@,
                *range,
            ),
            Err(error) => error is AccessDenied && !range_servable(source.files@, *range),
        },
{
    let index: usize = match range.file {
        Some(index) => index,
        None => {
            return Err(Error::AccessDenied);
        },
    };
    if index >= source.files.len() {
        return Err(Error::AccessDenied);
    }
    let contents = &source.files[index].contents;
    let size: u64 = contents.len() as u64;
    if range.offset > size || range.length > size - range.offset {
        return Err(Error::AccessDenied);
    }
    let start: usize = range.offset as usize;
    let end: usize = (range.offset + range.length) as usize;
    Ok(slice_to_vec(slice_subrange(contents.as_slice(), start, end)))
}

/// Where a chunk lies in the source, and how often it is still going to be
/// asked for.
#[derive(Clone, Copy, Debug)]
pub struct ProviderChunk {
    /// The index of the file in the source directory; `None` if the source
    /// has no file at the path under which the chunk was planned.
    pub file: Option<usize>,
    pub offset: u64,
    pub length: u64,
    pub ref_count: u32,
}

/// Serves the chunks that a plan fetches from the files of a source
/// directory. Each chunk is kept on the books as often as the plan fetches it
/// and is dropped when it has been handed out that often.
pub struct CachingChunkProvider<'a> {
    pub source: &'a Directory,
    pub chunks: HashMap<u64, ProviderChunk>,
}

impl ProviderChunk {
    /// The range of the chunk in the source.
    pub open spec fn spec_range(self) -> SourceRange {
        SourceRange { file: self.file, offset: self.offset, length: self.length }
    }

    /// The range of the chunk in the source.
    #[verifier::when_used_as_spec(spec_range)]
    pub fn range(self) -> (range: SourceRange)
        ensures
            range == self.spec_range(),
    {
        SourceRange { file: self.file, offset: self.offset, length: self.length }
    }
}

/// Whether the source holds the bytes of `chunk`.
pub open spec fn servable(files: Seq<FileEntry>, chunk: ProviderChunk) -> bool {
    range_servable(files, chunk.spec_range())
}

/// The bytes of `chunk` in the source.
pub open spec fn chunk_bytes(files: Seq<FileEntry>, chunk: ProviderChunk) -> Seq<u8> {
    range_bytes(files, chunk.spec_range())
}

/// The chunks of `index` that the source holds, each with its bytes.
pub open spec fn catalog_of(files: Seq<FileEntry>, index: Map<u64, ProviderChunk>) -> Map<
    u64,
    Seq<u8>,
> {
    Map::new(
        |key: u64| index.contains_key(key) && servable(files, index[key]),
        |key: u64| chunk_bytes(files, index[key]),
    )
}

/// One more than `count`, unless `count` is the largest number.
pub open spec fn one_more(count: u32) -> u32 {
    if count < u32::MAX {
        (count + 1) as u32
    } else {
        count
    }
}

/// The index after one more fetch of `chunk` from the file `file` has been
/// planned: a chunk already on the books is counted once more, and stays
/// where it was first found; a new chunk is entered with a count of one.
pub open spec fn add_fetch(index: Map<u64, ProviderChunk>, file: Option<usize>, chunk: Chunk) -> Map<
    u64,
    ProviderChunk,
> {
    if index.contains_key(chunk.hash) {
        let known = index[chunk.hash];
        index.insert(
            chunk.hash,
            ProviderChunk {
                file: known.file,
                offset: known.offset,
                length: known.length,
                ref_count: one_more(known.ref_count),
            },
        )
    } else {
        index.insert(
            chunk.hash,
            ProviderChunk { file, offset: chunk.offset, length: chunk.length, ref_count: 1 },
        )
    }
}

/// The index after the fetches among `operations`, planned for the file
/// `file`, have been entered in order.
pub open spec fn add_operations(
    index: Map<u64, ProviderChunk>,
    file: Option<usize>,
    operations: Seq<Operation>,
) -> Map<u64, ProviderChunk>
    decreases operations.len(),
{
    if operations.len() == 0 {
        index
    } else {
        let rest = add_operations(index, file, operations.drop_last());
        match operations.last() {
            Operation::Fetch(chunk) => add_fetch(rest, file, chunk),
            _ => rest,
        }
    }
}

/// The index after the fetches of `plan` have been entered, file after file.
pub open spec fn add_plan(
    index: Map<u64, ProviderChunk>,
    files: Seq<FileEntry>,
    plan: Seq<FilePlan>,
) -> Map<u64, ProviderChunk>
    decreases plan.len(),
{
    if plan.len() == 0 {
        index
    } else {
        add_operations(
            add_plan(index, files, plan.drop_last()),
            first_index(files, plan.last().path),
            plan.last().operations,
        )
    }
}

/// Whether the chunk `key` is on the books for `times` more fetches, and the
/// source holds it.
pub open spec fn stocked(
    files: Seq<FileEntry>,
    index: Map<u64, ProviderChunk>,
    key: u64,
    times: nat,
) -> bool {
    times == 0 || (index.contains_key(key) && servable(files, index[key])
        && index[key].ref_count >= times)
}

/// The index after the chunk `key` has been handed out once: its count goes
/// down by one, and the chunk leaves the books when the count reaches zero.
pub open spec fn take_one(index: Map<u64, ProviderChunk>, key: u64) -> Map<u64, ProviderChunk> {
    if !index.contains_key(key) {
        index
    } else if index[key].ref_count <= 1 {
        index.remove(key)
    } else {
        let known = index[key];
        index.insert(
            key,
            ProviderChunk {
                file: known.file,
                offset: known.offset,
                length: known.length,
                ref_count: (known.ref_count - 1) as u32,
            },
        )
    }
}

impl<'a> CachingChunkProvider<'a> {
    /// A provider for the files of `source`, with nothing on its books yet.
    pub fn new(source: &'a Directory) -> (provider: CachingChunkProvider<'a>)
        ensures
            provider.source == source,
            provider.chunks@ == Map::<u64, ProviderChunk>::empty(),
    {
        CachingChunkProvider { source, chunks: HashMap::new() }
    }

    /// Enters one planned fetch.
    fn add(&mut self, file: Option<usize>, chunk: &Chunk)
        ensures
            final(self).source == old(self).source,
            final(self).chunks@ == add_fetch(old(self).chunks@, file, *chunk),
    {
        let entry = match self.chunks.get(&chunk.hash) {
            Some(known) => {
                let count: u32 = if known.ref_count < u32::MAX {
                    known.ref_count + 1
                } else {
                    known.ref_count
                };
                ProviderChunk {
                    file: known.file,
                    offset: known.offset,
                    length: known.length,
                    ref_count: count,
                }
            },
            None => ProviderChunk { file, offset: chunk.offset, length: chunk.length, ref_count: 1 },
        };
        self.chunks.insert(chunk.hash, entry);
    }
}

impl<'a> ChunkProvider for CachingChunkProvider<'a> {
    open spec fn vouches(&self) -> bool {
        true
    }

    open spec fn catalog(&self) -> Map<u64, Seq<u8>> {
        catalog_of(self.source.files@, self.chunks@)
    }

    open spec fn catalog_with(&self, plan: Seq<FilePlan>) -> Map<u64, Seq<u8>> {
        catalog_of(self.source.files@, add_plan(self.chunks@, self.source.files@, plan))
    }

    open spec fn in_stock(&self, key: u64, times: nat) -> bool {
        stocked(self.source.files@, self.chunks@, key, times)
    }

    open spec fn in_stock_with(&self, plan: Seq<FilePlan>, key: u64, times: nat) -> bool {
        stocked(
            self.source.files@,
            add_plan(self.chunks@, self.source.files@, plan),
            key,
            times,
        )
    }

    /// Enters every fetch of `plan` in the books: a chunk that is fetched for
    /// the first time is looked for in the file it is planned for, at the
    /// offset given there; a chunk already known is counted once more.
    fn set_plan(&mut self, plan: &SyncPlan)
        ensures
            final(self).source == old(self).source,
            final(self).chunks@ == add_plan(old(self).chunks@, old(self).source.files@, plan@),
    {
        let mut f: usize = 0;
        proof {
            assert(plan@.take(0) =~= Seq::<FilePlan>::empty());
        }
        while f < plan.operations.len()
            invariant
                f <= plan.operations@.len(),
                self.source == old(self).source,
                self.chunks@ == add_plan(
                    old(self).chunks@,
                    self.source.files@,
                    plan@.take(f as int),
                ),
            decreases plan.operations@.len() - f,
        {
            let file = self.source.position(&plan.operations[f].0);
            let operations = &plan.operations[f].1;
            let ghost entered = self.chunks@;
            let mut i: usize = 0;
            proof {
                assert(plan@.take(f + 1).drop_last() =~= plan@.take(f as int));
                assert(plan@.take(f + 1).last() == plan@[f as int]);
                assert(operations@.take(0) =~= Seq::<Operation>::empty());
            }
            while i < operations.len()
                invariant
                    i <= operations@.len(),
                    self.source == old(self).source,
                    self.chunks@ == add_operations(entered, file, operations@.take(i as int)),
                decreases operations@.len() - i,
            {
                proof {
                    assert(operations@.take(i + 1).drop_last() =~= operations@.take(i as int));
                    assert(operations@.take(i + 1).last() == operations@[i as int]);
                }
                if let Operation::Fetch(chunk) = operations[i] {
                    self.add(file, &chunk);
                }
                i += 1;
            }
            proof {
                assert(operations@.take(i as int) =~= operations@);
            }
            f += 1;
        }
        proof {
            assert(plan@.take(f as int) =~= plan@);
        }
    }

    /// Hands out the bytes of the chunk `key` and takes it off the books
    /// once.
    ///
    /// Fails with [`Error::ChunkNotFound`] if the chunk is not on the books,
    /// and with [`Error::AccessDenied`] if the source does not hold its
    /// bytes.
    fn get_chunk(&mut self, key: &u64) -> (got: Result<Vec<u8>, Error>)
        ensures
            final(self).source == old(self).source,
            final(self).chunks@ == take_one(old(self).chunks@, *key),
            match got {
                Ok(data) => old(self).chunks@.contains_key(*key) && servable(
                    old(self).source.files@,
                    old(self).chunks@[*key],
                ) && data@ == chunk_bytes(old(self).source.files@, old(self).chunks@[*key]),
                Err(error) => if old(self).chunks@.contains_key(*key) {
                    error is AccessDenied && !servable(
                        old(self).source.files@,
                        old(self).chunks@[*key],
                    )
                } else {
                    error == Error::ChunkNotFound(*key)
                },
            },
    {
        let known: ProviderChunk = match self.chunks.get(key) {
            Some(known) => *known,
            None => {
                return Err(Error::ChunkNotFound(*key));
            },
        };
        if known.ref_count <= 1 {
            self.chunks.remove(key);
        } else {
            self.chunks.insert(
                *key,
                ProviderChunk {
                    file: known.file,
                    offset: known.offset,
                    length: known.length,
                    ref_count: known.ref_count - 1,
                },
            );
        }
        read_range(self.source, &known.range())
    }
}

/// The ranges of the chunks of `chunks`, found in the file `file`, entered
/// into `index` by identifier. Of two chunks with the same identifier the
/// later one stays.
pub open spec fn index_chunks(
    index: Map<u64, SourceRange>,
    file: Option<usize>,
    chunks: Seq<Chunk>,
) -> Map<u64, SourceRange>
    decreases chunks.len(),
{
    if chunks.len() == 0 {
        index
    } else {
        index_chunks(index, file, chunks.drop_last()).insert(
            chunks.last().hash,
            SourceRange { file, offset: chunks.last().offset, length: chunks.last().length },
        )
    }
}

/// The ranges of all chunks of a manifest by identifier, each in the file of
/// the source that has the path of the chunk's file.
pub open spec fn index_manifest(files: Seq<FileEntry>, records: Seq<FileRecord>) -> Map<
    u64,
    SourceRange,
>
    decreases records.len(),
{
    if records.len() == 0 {
        Map::empty()
    } else {
        index_chunks(
            index_manifest(files, records.drop_last()),
            first_index(files, records.last().path),
            records.last().chunks,
        )
    }
}

/// The ranges of `index` that the source holds, each with its bytes.
pub open spec fn ranges_catalog(files: Seq<FileEntry>, index: Map<u64, SourceRange>) -> Map<
    u64,
    Seq<u8>,
> {
    Map::new(
        |key: u64| index.contains_key(key) && range_servable(files, index[key]),
        |key: u64| range_bytes(files, index[key]),
    )
}

/// Serves every chunk of a manifest from the files of a source directory,
/// as often as it is asked for. It keeps nothing but the place of each chunk.
pub struct BasicChunkProvider<'a> {
    pub source: &'a Directory,
    pub chunks: HashMap<u64, SourceRange>,
}

impl<'a> BasicChunkProvider<'a> {
    /// A provider for the chunks that `manifest` lists, read from the files
    /// of `source`.
    pub fn new(source: &'a Directory, manifest: &Manifest) -> (provider: BasicChunkProvider<'a>)
        ensures
            provider.source == source,
            provider.chunks@ == index_manifest(source.files@, manifest@),
    {
        let mut chunks: HashMap<u64, SourceRange> = HashMap::new();
        let mut f: usize = 0;
        proof {
            assert(manifest@.take(0) =~= Seq::<FileRecord>::empty());
        }
        while f < manifest.files.len()
            invariant
                f <= manifest.files@.len(),
                chunks@ == index_manifest(source.files@, manifest@.take(f as int)),
            decreases manifest.files@.len() - f,
        {
            let listed = &manifest.files[f].chunks;
            let file = source.position(&manifest.files[f].path);
            let ghost entered = chunks@;
            let mut c: usize = 0;
            proof {
                assert(manifest@.take(f + 1).drop_last() =~= manifest@.take(f as int));
                assert(manifest@.take(f + 1).last() == manifest@[f as int]);
                assert(listed@.take(0) =~= Seq::<Chunk>::empty());
            }
            while c < listed.len()
                invariant
                    c <= listed@.len(),
                    chunks@ == index_chunks(entered, file, listed@.take(c as int)),
                decreases listed@.len() - c,
            {
                proof {
                    assert(listed@.take(c + 1).drop_last() =~= listed@.take(c as int));
                    assert(listed@.take(c + 1).last() == listed@[c as int]);
                }
                chunks.insert(
                    listed[c].hash,
                    SourceRange { file, offset: listed[c].offset, length: listed[c].length },
                );
                c += 1;
            }
            proof {
                assert(listed@.take(c as int) =~= listed@);
            }
            f += 1;
        }
        proof {
            assert(manifest@.take(f as int) =~= manifest@);
        }
        BasicChunkProvider { source, chunks }
    }
}

impl<'a> ChunkProvider for BasicChunkProvider<'a> {
    open spec fn vouches(&self) -> bool {
        true
    }

    open spec fn catalog(&self) -> Map<u64, Seq<u8>> {
        ranges_catalog(self.source.files@, self.chunks@)
    }

    open spec fn catalog_with(&self, plan: Seq<FilePlan>) -> Map<u64, Seq<u8>> {
        ranges_catalog(self.source.files@, self.chunks@)
    }

    open spec fn in_stock(&self, key: u64, times: nat) -> bool {
        times == 0 || self.catalog().contains_key(key)
    }

    open spec fn in_stock_with(&self, plan: Seq<FilePlan>, key: u64, times: nat) -> bool {
        times == 0 || self.catalog().contains_key(key)
    }

    /// Does nothing: the provider serves every chunk of its manifest whatever
    /// the plan.
    fn set_plan(&mut self, plan: &SyncPlan)
        ensures
            *final(self) == *old(self),
    {
    }

    /// Hands out the bytes of the chunk `key`, read from the source.
    ///
    /// Fails with [`Error::ChunkNotFound`] if the manifest does not list the
    /// chunk, and with [`Error::AccessDenied`] if the source does not hold
    /// its bytes.
    fn get_chunk(&mut self, key: &u64) -> (got: Result<Vec<u8>, Error>)
        ensures
            *final(self) == *old(self),
            match got {
                Ok(data) => old(self).chunks@.contains_key(*key) && range_servable(
                    old(self).source.files@,
                    old(self).chunks@[*key],
                ) && data@ == range_bytes(old(self).source.files@, old(self).chunks@[*key]),
                Err(error) => if old(self).chunks@.contains_key(*key) {
                    error is AccessDenied && !range_servable(
                        old(self).source.files@,
                        old(self).chunks@[*key],
                    )
                } else {
                    error == Error::ChunkNotFound(*key)
                },
            },
    {
        let range: SourceRange = match self.chunks.get(key) {
            Some(range) => *range,
            None => {
                return Err(Error::ChunkNotFound(*key));
            },
        };
        read_range(self.source, &range)
    }
}

} // verus!

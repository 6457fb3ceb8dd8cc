//! Manifests: the files of a tree and the chunks each is made of.

use crate::chunk::{contiguous, covers, Chunk, FileList};
use crate::chunker::{
    chunk_file, cuts_cover, cuts_sized, identifies, sized, spec_chunks, spec_cuts, MAX_CHUNK,
    MIN_CHUNK,
};
use crate::error::Error;
use crate::path::{lemma_path_le_total, lemma_path_le_transitive, path_before_or_equal, path_le};
use crate::tree::Directory;
use vstd::prelude::*;

verus! {

/// A file's path and chunks as plain values: what a [`FileChunkInfo`] stands
/// for.
pub struct FileRecord {
    pub path: Seq<char>,
    pub chunks: Seq<Chunk>,
}

/// A file and the chunks it consists of, in the order in which they lie in the
/// file.
#[derive(Debug)]
pub struct FileChunkInfo {
    pub path: String,
    pub chunks: Vec<Chunk>,
}

impl View for FileChunkInfo {
    type V = FileRecord;

    open spec fn view(&self) -> FileRecord {
        FileRecord { path: self.path@, chunks: self.chunks@ }
    }
}

/// The files of a source tree with their chunks, sorted by path. A manifest
/// says what a destination has to look like after a sync.
#[derive(Debug)]
pub struct Manifest {
    pub files: Vec<FileChunkInfo>,
}

/// The records that a sequence of entries stands for.
pub open spec fn records(files: Seq<FileChunkInfo>) -> Seq<FileRecord> {
    Seq::new(files.len(), |i: int| files[i]@)
}

impl View for Manifest {
    type V = Seq<FileRecord>;

    open spec fn view(&self) -> Seq<FileRecord> {
        records(self.files@)
    }
}

/// The records are in the order of their paths.
pub open spec fn sorted_by_path(files: Seq<FileRecord>) -> bool {
    forall|i: int, j: int|
        0 <= i < j < files.len() ==> path_le((#[trigger] files[i]).path, (#[trigger] files[j]).path)
}

/// Where a record `x` goes into `files`: behind the last record whose path
/// does not come after that of `x`.
pub open spec fn insert_index(files: Seq<FileRecord>, x: FileRecord) -> int
    decreases files.len(),
{
    if files.len() == 0 || path_le(files.last().path, x.path) {
        files.len() as int
    } else {
        insert_index(files.drop_last(), x)
    }
}

/// `files` with `x` put in at its place.
pub open spec fn insert_by_path(files: Seq<FileRecord>, x: FileRecord) -> Seq<FileRecord> {
    files.insert(insert_index(files, x), x)
}

/// `files` sorted by path. Records with the same path keep their order.
pub open spec fn sort_by_path(files: Seq<FileRecord>) -> Seq<FileRecord>
    decreases files.len(),
{
    if files.len() == 0 {
        files
    } else {
        insert_by_path(sort_by_path(files.drop_last()), files.last())
    }
}

/// The place at which a record goes in: every record from there on comes
/// strictly after it, and the record just before does not.
pub proof fn lemma_insert_index(files: Seq<FileRecord>, x: FileRecord)
    ensures
        0 <= insert_index(files, x) <= files.len(),
        insert_index(files, x) > 0 ==> path_le(files[insert_index(files, x) - 1].path, x.path),
        forall|j: int|
            insert_index(files, x) <= j < files.len() ==> !path_le(
                (#[trigger] files[j]).path,
                x.path,
            ),
    decreases files.len(),
{
    if files.len() == 0 || path_le(files.last().path, x.path) {
    } else {
        lemma_insert_index(files.drop_last(), x);
        let k = insert_index(files.drop_last(), x);
        assert forall|j: int| k <= j < files.len() implies !path_le(
            (#[trigger] files[j]).path,
            x.path,
        ) by {
            if j < files.len() - 1 {
                assert(files.drop_last()[j] == files[j]);
            }
        }
        if k > 0 {
            assert(files.drop_last()[k - 1] == files[k - 1]);
        }
    }
}

/// Putting a record into sorted records leaves them sorted.
pub proof fn lemma_insert_keeps_sorted(files: Seq<FileRecord>, x: FileRecord)
    requires
        sorted_by_path(files),
    ensures
        sorted_by_path(insert_by_path(files, x)),
{
    lemma_insert_index(files, x);
    let k = insert_index(files, x);
    let out = insert_by_path(files, x);
    assert forall|i: int, j: int| 0 <= i < j < out.len() implies path_le(
        (#[trigger] out[i]).path,
        (#[trigger] out[j]).path,
    ) by {
        if j < k {
            assert(out[i] == files[i] && out[j] == files[j]);
        } else if j == k {
            assert(out[i] == files[i]);
            if i < k - 1 {
                assert(path_le(files[i].path, files[k - 1].path));
                lemma_path_le_transitive(files[i].path, files[k - 1].path, x.path);
            }
        } else if i == k {
            assert(out[j] == files[j - 1]);
            lemma_path_le_total(files[j - 1].path, x.path);
        } else if i < k {
            assert(out[i] == files[i] && out[j] == files[j - 1]);
        } else {
            assert(out[i] == files[i - 1] && out[j] == files[j - 1]);
        }
    }
}

/// Sorting gives records in the order of their paths.
pub proof fn lemma_sort_is_sorted(files: Seq<FileRecord>)
    ensures
        sorted_by_path(sort_by_path(files)),
        sort_by_path(files).len() == files.len(),
    decreases files.len(),
{
    if files.len() > 0 {
        lemma_sort_is_sorted(files.drop_last());
        lemma_insert_index(sort_by_path(files.drop_last()), files.last());
        lemma_insert_keeps_sorted(sort_by_path(files.drop_last()), files.last());
    }
}

/// Sorting neither adds nor drops a record.
pub proof fn lemma_sort_is_permutation(files: Seq<FileRecord>)
    ensures
        sort_by_path(files).to_multiset() == files.to_multiset(),
    decreases files.len(),
{
    broadcast use vstd::seq_lib::group_to_multiset_ensures;

    if files.len() == 0 {
    } else {
        let rest = files.drop_last();
        let x = files.last();
        lemma_sort_is_permutation(rest);
        let sorted = sort_by_path(rest);
        lemma_insert_index(sorted, x);
        assert(files =~= rest.push(x));
        assert(sorted.insert(insert_index(sorted, x), x).to_multiset() =~= sorted.to_multiset().insert(
            x,
        ));
        assert(rest.push(x).to_multiset() =~= rest.to_multiset().insert(x));
    }
}

/// No two records have the same path.
pub open spec fn distinct_record_paths(files: Seq<FileRecord>) -> bool {
    forall|i: int, j: int|
        0 <= i < j < files.len() ==> (#[trigger] files[i]).path != (#[trigger] files[j]).path
}

/// Whether one of the records has the path `path`.
pub open spec fn has_record(files: Seq<FileRecord>, path: Seq<char>) -> bool {
    exists|i: int| 0 <= i < files.len() && (#[trigger] files[i]).path == path
}

/// Sorting keeps the paths: the sorted records name the same paths, and none
/// twice if none was named twice before.
pub proof fn lemma_sort_keeps_paths(files: Seq<FileRecord>)
    ensures
        forall|path: Seq<char>| #[trigger]
            has_record(sort_by_path(files), path) == has_record(files, path),
        distinct_record_paths(files) ==> distinct_record_paths(sort_by_path(files)),
    decreases files.len(),
{
    if files.len() > 0 {
        let rest = files.drop_last();
        let x = files.last();
        lemma_sort_keeps_paths(rest);
        let before = sort_by_path(rest);
        lemma_insert_index(before, x);
        let k = insert_index(before, x);
        let after = sort_by_path(files);
        assert(after == before.insert(k, x));
        assert forall|path: Seq<char>| #[trigger]
            has_record(after, path) == has_record(files, path) by {
            if has_record(after, path) {
                let i = choose|i: int| 0 <= i < after.len() && (#[trigger] after[i]).path == path;
                if i == k {
                    assert(files[files.len() - 1].path == path);
                } else {
                    let j = if i < k {
                        i
                    } else {
                        i - 1
                    };
                    assert(before[j].path == path);
                    assert(has_record(before, path));
                    assert(has_record(rest, path));
                    let r = choose|r: int| 0 <= r < rest.len() && (#[trigger] rest[r]).path == path;
                    assert(files[r] == rest[r]);
                }
            }
            if has_record(files, path) {
                let i = choose|i: int| 0 <= i < files.len() && (#[trigger] files[i]).path == path;
                if i == files.len() - 1 {
                    assert(after[k].path == path);
                } else {
                    assert(rest[i] == files[i]);
                    assert(has_record(rest, path));
                    assert(has_record(before, path));
                    let b = choose|b: int|
                        0 <= b < before.len() && (#[trigger] before[b]).path == path;
                    let a = if b < k {
                        b
                    } else {
                        b + 1
                    };
                    assert(after[a] == before[b]);
                }
            }
        }
        if distinct_record_paths(files) {
            assert forall|i: int, j: int| 0 <= i < j < rest.len() implies (
            #[trigger] rest[i]).path != (#[trigger] rest[j]).path by {
                assert(rest[i] == files[i] && rest[j] == files[j]);
            }
            assert(!has_record(rest, x.path)) by {
                if has_record(rest, x.path) {
                    let r = choose|r: int|
                        0 <= r < rest.len() && (#[trigger] rest[r]).path == x.path;
                    assert(files[r] == rest[r]);
                    assert(files[r].path != files[files.len() - 1].path);
                }
            }
            assert(!has_record(before, x.path));
            assert forall|i: int, j: int| 0 <= i < j < after.len() implies (
            #[trigger] after[i]).path != (#[trigger] after[j]).path by {
                let a = if i < k {
                    i
                } else {
                    i - 1
                };
                let b = if j < k {
                    j
                } else {
                    j - 1
                };
                if i == k {
                    assert(after[j] == before[b]);
                } else if j == k {
                    assert(after[i] == before[a]);
                } else {
                    assert(after[i] == before[a] && after[j] == before[b]);
                }
            }
        }
    }
}

/// Puts an entry into entries sorted by path, behind those with the same
/// path.
pub fn insert_sorted(files: &mut Vec<FileChunkInfo>, info: FileChunkInfo)
    ensures
        records(final(files)@) == insert_by_path(records(old(files)@), info@),
{
    let ghost before = records(files@);
    let mut k: usize = files.len();
    proof {
        assert(before.take(k as int) =~= before);
    }
    while k > 0 && !path_before_or_equal(&files[k - 1].path, &info.path)
        invariant
            k <= files@.len(),
            before == records(files@),
            insert_index(before, info@) == insert_index(before.take(k as int), info@),
        decreases k,
    {
        proof {
            assert(before.take(k as int).last() == files@[k - 1]@);
            assert(before.take(k as int).drop_last() =~= before.take(k - 1));
        }
        k -= 1;
    }
    proof {
        if k > 0 {
            assert(before.take(k as int).last() == files@[k - 1]@);
        }
        assert(insert_index(before, info@) == k);
    }
    files.insert(k, info);
    assert(records(files@) =~= before.insert(k as int, info@));
}

/// The paths that a file list names, in its order.
pub open spec fn listed_paths(list: FileList) -> Seq<Seq<char>> {
    Seq::new(list.files@.len(), |i: int| list.files@[i].directory@)
}

/// The paths of the files of a directory, in the order in which it holds
/// them.
pub open spec fn directory_paths(source: Directory) -> Seq<Seq<char>> {
    Seq::new(source.files@.len(), |i: int| source.files@[i].path@)
}

/// The record of the file at `path` in `source`.
pub open spec fn record_of(source: Map<Seq<char>, Seq<u8>>, path: Seq<char>) -> FileRecord {
    FileRecord { path, chunks: spec_chunks(source[path]) }
}

/// The records of the files at `paths` in `source`, in the order of `paths`.
pub open spec fn listed_records(source: Map<Seq<char>, Seq<u8>>, paths: Seq<Seq<char>>) -> Seq<
    FileRecord,
> {
    Seq::new(paths.len(), |i: int| record_of(source, paths[i]))
}

/// The records of the manifest of a directory: the records of its files,
/// sorted by path.
pub open spec fn manifest_of(source: Directory) -> Seq<FileRecord> {
    sort_by_path(listed_records(source@, directory_paths(source)))
}

/// `path` is the first of `paths` that names no file of `source`.
pub open spec fn first_missing(
    source: Map<Seq<char>, Seq<u8>>,
    paths: Seq<Seq<char>>,
    path: Seq<char>,
) -> bool {
    exists|i: int|
        0 <= i < paths.len() && #[trigger] paths[i] == path && !source.contains_key(path)
            && forall|j: int| 0 <= j < i ==> source.contains_key(#[trigger] paths[j])
}

/// The record is that of a file of `source`: its chunks are those the
/// chunker makes of the file's bytes, they lie end to end from offset zero,
/// their lengths add up to the file's size, each carries the identifier of
/// its bytes, and they keep to the size limits, as the chunker's cut points
/// of the file do.
pub open spec fn file_described(file: FileRecord, source: Map<Seq<char>, Seq<u8>>) -> bool {
    &&& source.contains_key(file.path)
    &&& file.chunks == spec_chunks(source[file.path])
    &&& covers(file.chunks, source[file.path].len())
    &&& identifies(file.chunks, source[file.path])
    &&& sized(file.chunks)
    &&& cuts_cover(spec_cuts(source[file.path]), source[file.path].len())
    &&& cuts_sized(spec_cuts(source[file.path]), MIN_CHUNK, MAX_CHUNK)
}

/// Every record is that of a file of `source`.
pub open spec fn describes(files: Seq<FileRecord>, source: Map<Seq<char>, Seq<u8>>) -> bool {
    forall|i: int| 0 <= i < files.len() ==> file_described(#[trigger] files[i], source)
}

/// Chunks the file `contents` found at `path` and puts its entry into `files`.
fn add_file(
    files: &mut Vec<FileChunkInfo>,
    path: &String,
    contents: &Vec<u8>,
    Ghost(source): Ghost<Map<Seq<char>, Seq<u8>>>,
)
    requires
        source.contains_key(path@),
        source[path@] == contents@,
        describes(records(old(files)@), source),
    ensures
        records(final(files)@) == insert_by_path(records(old(files)@), record_of(source, path@)),
        describes(records(final(files)@), source),
{
    let ghost before = records(files@);
    let chunks = chunk_file(contents.as_slice());
    let info = FileChunkInfo { path: path.clone(), chunks };
    insert_sorted(files, info);
    proof {
        let x = record_of(source, path@);
        lemma_insert_index(before, x);
        let k = insert_index(before, x);
        let after = records(files@);
        assert forall|i: int| 0 <= i < after.len() implies file_described(
            #[trigger] after[i],
            source,
        ) by {
            if i < k {
                assert(after[i] == before[i]);
            } else if i > k {
                assert(after[i] == before[i - 1]);
            }
        }
    }
}

impl Manifest {
    /// A manifest is well formed when its files are sorted by path and the
    /// chunks of each file lie end to end from offset zero.
    pub open spec fn wf(&self) -> bool {
        &&& sorted_by_path(self@)
        &&& forall|i: int| 0 <= i < self@.len() ==> contiguous((#[trigger] self@[i]).chunks)
    }

    /// The manifest without files.
    pub fn new() -> (manifest: Manifest)
        ensures
            manifest@ == Seq::<FileRecord>::empty(),
            manifest.wf(),
    {
        let manifest = Manifest { files: Vec::new() };
        assert(manifest@ =~= Seq::<FileRecord>::empty());
        manifest
    }

    /// Builds the manifest of all files of `source`.
    ///
    /// Each file is cut into chunks and the entries are sorted by path, so
    /// that the manifest does not depend on the order in which `source` holds
    /// its files.
    pub fn from_path(source: &Directory) -> (manifest: Manifest)
        requires
            source.wf(),
        ensures
            manifest@ == manifest_of(*source),
            manifest@.len() == source.files@.len(),
            describes(manifest@, source@),
            names_files_of(manifest@, source@),
            manifest.wf(),
    {
        let ghost all = listed_records(source@, directory_paths(*source));
        let mut files: Vec<FileChunkInfo> = Vec::new();
        let mut i: usize = 0;
        proof {
            assert(records(files@) =~= sort_by_path(all.take(0)));
        }
        while i < source.files.len()
            invariant
                i <= source.files@.len(),
                source.wf(),
                all == listed_records(source@, directory_paths(*source)),
                records(files@) == sort_by_path(all.take(i as int)),
                describes(records(files@), source@),
            decreases source.files@.len() - i,
        {
            proof {
                source.lemma_entry_in_view(i as int);
                assert(all.take(i + 1).drop_last() =~= all.take(i as int));
                assert(all.take(i + 1).last() == record_of(source@, source.files@[i as int].path@));
            }
            add_file(&mut files, &source.files[i].path, &source.files[i].contents, Ghost(source@));
            i += 1;
        }
        let manifest = Manifest { files };
        proof {
            assert(all.take(i as int) =~= all);
            lemma_sort_is_sorted(all);
            lemma_described_is_contiguous(manifest@, source@);
            lemma_directory_records(*source);
            lemma_sort_keeps_paths(all);
        }
        manifest
    }

    /// Builds the manifest of the files of `source` that `file_list` names by
    /// their `directory`, sorted by path.
    ///
    /// Fails with [`Error::FileNotFound`] on the first listed path at which
    /// `source` has no file.
    pub fn from_file_list(source: &Directory, file_list: &FileList) -> (made: Result<
        Manifest,
        Error,
    >)
        requires
            source.wf(),
        ensures
            match made {
                Ok(manifest) => {
                    &&& forall|i: int|
                        0 <= i < listed_paths(*file_list).len() ==> source@.contains_key(
                            #[trigger] listed_paths(*file_list)[i],
                        )
                    &&& manifest@ == sort_by_path(
                        listed_records(source@, listed_paths(*file_list)),
                    )
                    &&& manifest@.len() == file_list.files@.len()
                    &&& describes(manifest@, source@)
                    &&& manifest.wf()
                },
                Err(error) => error matches Error::FileNotFound(path) && first_missing(
                    source@,
                    listed_paths(*file_list),
                    path@,
                ),
            },
    {
        let ghost paths = listed_paths(*file_list);
        let ghost all = listed_records(source@, paths);
        let mut files: Vec<FileChunkInfo> = Vec::new();
        let mut i: usize = 0;
        proof {
            assert(records(files@) =~= sort_by_path(all.take(0)));
        }
        while i < file_list.files.len()
            invariant
                i <= file_list.files@.len(),
                source.wf(),
                paths == listed_paths(*file_list),
                all == listed_records(source@, paths),
                forall|j: int| 0 <= j < i ==> source@.contains_key(#[trigger] paths[j]),
                records(files@) == sort_by_path(all.take(i as int)),
                describes(records(files@), source@),
            decreases file_list.files@.len() - i,
        {
            let path = &file_list.files[i].directory;
            assert(path@ == paths[i as int]);
            match source.get(path) {
                Some(contents) => {
                    proof {
                        assert(all.take(i + 1).drop_last() =~= all.take(i as int));
                        assert(all.take(i + 1).last() == record_of(source@, path@));
                    }
                    add_file(&mut files, path, contents, Ghost(source@));
                },
                None => {
                    return Err(Error::FileNotFound(path.clone()));
                },
            }
            i += 1;
        }
        let manifest = Manifest { files };
        proof {
            assert(all.take(i as int) =~= all);
            lemma_sort_is_sorted(all);
            lemma_described_is_contiguous(manifest@, source@);
        }
        Ok(manifest)
    }
}

/// The records name every file of `source` once, and nothing else.
pub open spec fn names_files_of(files: Seq<FileRecord>, source: Map<Seq<char>, Seq<u8>>) -> bool {
    &&& distinct_record_paths(files)
    &&& forall|path: Seq<char>| #[trigger] has_record(files, path) == source.contains_key(path)
}

/// The records of a well-formed directory name each of its files once.
pub proof fn lemma_directory_records(source: Directory)
    requires
        source.wf(),
    ensures
        names_files_of(listed_records(source@, directory_paths(source)), source@),
{
    let all = listed_records(source@, directory_paths(source));
    assert forall|path: Seq<char>| #[trigger]
        has_record(all, path) == source@.contains_key(path) by {
        if has_record(all, path) {
            let i = choose|i: int| 0 <= i < all.len() && (#[trigger] all[i]).path == path;
            assert(source.files@[i].path@ == path);
        }
        if source@.contains_key(path) {
            let i = choose|i: int|
                0 <= i < source.files@.len() && (#[trigger] source.files@[i]).path@ == path;
            assert(all[i].path == path);
        }
    }
    assert forall|i: int, j: int| 0 <= i < j < all.len() implies (#[trigger] all[i]).path != (
    #[trigger] all[j]).path by {
        assert(source.files@[i].path@ != source.files@[j].path@);
    }
}

/// The chunks of every described file lie end to end.
pub proof fn lemma_described_is_contiguous(files: Seq<FileRecord>, source: Map<Seq<char>, Seq<u8>>)
    requires
        describes(files, source),
    ensures
        forall|i: int| 0 <= i < files.len() ==> contiguous((#[trigger] files[i]).chunks),
{
}

impl Default for Manifest {
    fn default() -> (manifest: Manifest)
        ensures
            manifest@ == Seq::<FileRecord>::empty(),
    {
        Manifest::new()
    }
}

} // verus!

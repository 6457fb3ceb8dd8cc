//! A directory tree held in memory.
//!
//! The engine reads and rewrites files through a [`Directory`]: a set of
//! regular files, each under its path relative to the root, with forward
//! slashes between components. Directories exist only as parts of such paths.

use vstd::prelude::*;
use vstd::slice::slice_to_vec;

verus! {

/// One regular file: its relative path and its bytes.
#[derive(Debug)]
pub struct FileEntry {
    pub path: String,
    pub contents: Vec<u8>,
}

/// The regular files below one root.
#[derive(Debug)]
pub struct Directory {
    pub files: Vec<FileEntry>,
}

/// Whether some entry of `files` has the path `path`.
pub open spec fn has_path(files: Seq<FileEntry>, path: Seq<char>) -> bool {
    exists|i: int| 0 <= i < files.len() && (#[trigger] files[i]).path@ == path
}

/// The index of an entry of `files` with the path `path`.
pub open spec fn index_of(files: Seq<FileEntry>, path: Seq<char>) -> int {
    choose|i: int| 0 <= i < files.len() && (#[trigger] files[i]).path@ == path
}

/// The index of the first entry of `files` with the path `path`, if there is
/// one.
pub open spec fn first_index(files: Seq<FileEntry>, path: Seq<char>) -> Option<usize> {
    if has_path(files, path) {
        Some(
            choose|i: usize|
                i < files.len() && (#[trigger] files[i as int]).path@ == path && forall|j: int|
                    0 <= j < i ==> (#[trigger] files[j]).path@ != path,
        )
    } else {
        None
    }
}

/// No two entries have the same path.
pub open spec fn distinct_paths(files: Seq<FileEntry>) -> bool {
    forall|i: int, j: int|
        0 <= i < j < files.len() ==> (#[trigger] files[i]).path@ != (#[trigger] files[j]).path@
}

impl View for Directory {
    type V = Map<Seq<char>, Seq<u8>>;

    /// The directory as a map from path to contents.
    open spec fn view(&self) -> Map<Seq<char>, Seq<u8>> {
        Map::new(
            |path: Seq<char>| has_path(self.files@, path),
            |path: Seq<char>| self.files@[index_of(self.files@, path)].contents@,
        )
    }
}

impl Directory {
    /// A directory is well formed when no path occurs twice in it.
    pub open spec fn wf(&self) -> bool {
        distinct_paths(self.files@)
    }

    /// In a well-formed directory the entry at index `i` is the one the view
    /// shows under its path.
    pub proof fn lemma_entry_in_view(&self, i: int)
        requires
            self.wf(),
            0 <= i < self.files@.len(),
        ensures
            self@.contains_key(self.files@[i].path@),
            self@[self.files@[i].path@] == self.files@[i].contents@,
            index_of(self.files@, self.files@[i].path@) == i,
    {
        let path = self.files@[i].path@;
        assert(has_path(self.files@, path));
        let k = index_of(self.files@, path);
        assert(0 <= k < self.files@.len() && self.files@[k].path@ == path);
        if k < i {
            assert(self.files@[k].path@ != self.files@[i].path@);
        } else if i < k {
            assert(self.files@[i].path@ != self.files@[k].path@);
        }
    }

    /// Every file of a directory has a length that fits an offset.
    pub proof fn lemma_contents_fit(&self, path: Seq<char>)
        requires
            self@.contains_key(path),
        ensures
            self@[path].len() <= usize::MAX,
    {
        let i = index_of(self.files@, path);
        assert(self.files@[i].contents@.len() == self.files@[i].contents.len());
    }

    /// The empty directory.
    pub fn new() -> (dir: Directory)
        ensures
            dir.wf(),
            dir@ == Map::<Seq<char>, Seq<u8>>::empty(),
            dir.files@.len() == 0,
    {
        let dir = Directory { files: Vec::new() };
        assert(dir@ =~= Map::<Seq<char>, Seq<u8>>::empty());
        dir
    }

    /// The number of files.
    pub fn len(&self) -> (n: usize)
        ensures
            n == self.files@.len(),
    {
        self.files.len()
    }

    /// The index of the file at `path`, if there is one.
    pub fn position(&self, path: &String) -> (found: Option<usize>)
        ensures
            found == first_index(self.files@, path@),
            match found {
                Some(i) => i < self.files@.len() && self.files@[i as int].path@ == path@
                    && forall|j: int| 0 <= j < i ==> (#[trigger] self.files@[j]).path@ != path@,
                None => !has_path(self.files@, path@),
            },
    {
        let mut i: usize = 0;
        while i < self.files.len()
            invariant
                i <= self.files@.len(),
                forall|j: int| 0 <= j < i ==> (#[trigger] self.files@[j]).path@ != path@,
            decreases self.files@.len() - i,
        {
            if self.files[i].path == *path {
                proof {
                    lemma_first_index(self.files@, path@, i);
                }
                return Some(i);
            }
            i += 1;
        }
        None
    }

    /// Whether there is a file at `path`.
    pub fn contains(&self, path: &String) -> (found: bool)
        ensures
            found == self@.contains_key(path@),
    {
        let at = self.position(path);
        at.is_some()
    }

    /// The contents of the file at `path`, if there is one.
    pub fn get(&self, path: &String) -> (found: Option<&Vec<u8>>)
        requires
            self.wf(),
        ensures
            match found {
                Some(contents) => self@.contains_key(path@) && contents@ == self@[path@],
                None => !self@.contains_key(path@),
            },
    {
        match self.position(path) {
            Some(i) => {
                proof {
                    self.lemma_entry_in_view(i as int);
                }
                Some(&self.files[i].contents)
            },
            None => None,
        }
    }

    /// Writes a file: replaces the contents at `path`, or adds the file if
    /// there is none yet. Every other file stays as it is.
    pub fn put(&mut self, path: String, contents: Vec<u8>)
        requires
            old(self).wf(),
        ensures
            final(self).wf(),
            final(self)@ == old(self)@.insert(path@, contents@),
    {
        let ghost before = *self;
        let ghost p = path@;
        let ghost c = contents@;
        match self.position(&path) {
            Some(i) => {
                self.files.set(i, FileEntry { path, contents });
                assert(self.wf()) by {
                    assert forall|a: int, b: int| 0 <= a < b < self.files@.len() implies (
                    #[trigger] self.files@[a]).path@ != (#[trigger] self.files@[b]).path@ by {
                        assert(before.files@[a].path@ != before.files@[b].path@);
                    }
                }
                assert(self@ =~= before@.insert(p, c)) by {
                    assert forall|q: Seq<char>| #[trigger]
                        self@.contains_key(q) == before@.insert(p, c).contains_key(q) by {
                        if has_path(self.files@, q) {
                            let k = index_of(self.files@, q);
                            assert(before.files@[k].path@ == q);
                        }
                        if has_path(before.files@, q) {
                            let k = index_of(before.files@, q);
                            assert(self.files@[k].path@ == q);
                        }
                        if q == p {
                            assert(self.files@[i as int].path@ == q);
                        }
                    }
                    assert forall|q: Seq<char>| #[trigger] self@.contains_key(q) implies self@[q]
                        == before@.insert(p, c)[q] by {
                        let k = index_of(self.files@, q);
                        self.lemma_entry_in_view(k);
                        if k != i {
                            before.lemma_entry_in_view(k);
                        }
                    }
                }
            },
            None => {
                self.files.push(FileEntry { path, contents });
                let ghost n = before.files@.len() as int;
                assert(self.wf()) by {
                    assert forall|a: int, b: int| 0 <= a < b < self.files@.len() implies (
                    #[trigger] self.files@[a]).path@ != (#[trigger] self.files@[b]).path@ by {
                        if b < n {
                            assert(before.files@[a].path@ != before.files@[b].path@);
                        } else {
                            assert(before.files@[a].path@ == self.files@[a].path@);
                            if self.files@[a].path@ == p {
                                assert(has_path(before.files@, p));
                            }
                        }
                    }
                }
                assert(self@ =~= before@.insert(p, c)) by {
                    assert forall|q: Seq<char>| #[trigger]
                        self@.contains_key(q) == before@.insert(p, c).contains_key(q) by {
                        if has_path(self.files@, q) {
                            let k = index_of(self.files@, q);
                            if k < n {
                                assert(before.files@[k].path@ == q);
                            }
                        }
                        if has_path(before.files@, q) {
                            let k = index_of(before.files@, q);
                            assert(self.files@[k].path@ == q);
                        }
                        if q == p {
                            assert(self.files@[n].path@ == q);
                        }
                    }
                    assert forall|q: Seq<char>| #[trigger] self@.contains_key(q) implies self@[q]
                        == before@.insert(p, c)[q] by {
                        let k = index_of(self.files@, q);
                        self.lemma_entry_in_view(k);
                        if k < n {
                            assert(before.files@[k].path@ == q);
                            before.lemma_entry_in_view(k);
                        }
                    }
                }
            },
        }
    }
}

/// An entry with the path `path` before which no entry has that path is the
/// first with that path.
pub proof fn lemma_first_index(files: Seq<FileEntry>, path: Seq<char>, i: usize)
    requires
        i < files.len(),
        files[i as int].path@ == path,
        forall|j: int| 0 <= j < i ==> (#[trigger] files[j]).path@ != path,
    ensures
        first_index(files, path) == Some(i),
{
    assert(has_path(files, path));
    let k = first_index(files, path)->0;
    assert(k < files.len() && files[k as int].path@ == path && forall|j: int|
        0 <= j < k ==> (#[trigger] files[j]).path@ != path);
    if k < i {
        assert(files[k as int].path@ != path);
    } else if i < k {
        assert(files[i as int].path@ != path);
    }
}

/// Where some entry has the path `path`, there is a first one.
pub proof fn lemma_first_index_exists(files: Seq<FileEntry>, path: Seq<char>, k: int)
    requires
        files.len() <= usize::MAX,
        0 <= k < files.len(),
        files[k].path@ == path,
    ensures
        first_index(files, path) matches Some(i) && i <= k && files[i as int].path@ == path,
    decreases k,
{
    if exists|j: int| 0 <= j < k && (#[trigger] files[j]).path@ == path {
        let j = choose|j: int| 0 <= j < k && (#[trigger] files[j]).path@ == path;
        lemma_first_index_exists(files, path, j);
    } else {
        lemma_first_index(files, path, k as usize);
    }
}

/// Copies a byte string.
pub fn copy_bytes(bytes: &Vec<u8>) -> (copy: Vec<u8>)
    ensures
        copy@ == bytes@,
{
    slice_to_vec(bytes.as_slice())
}

} // verus!

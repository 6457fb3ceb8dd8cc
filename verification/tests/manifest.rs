use binsync::chunk::{FileInfo, FileList};
use binsync::chunker::chunk_file;
use binsync::path::{bytes_before_or_equal, path_before_or_equal};
use binsync::{generate_manifest, Directory, Error, Manifest};

/// Bytes that look random and are the same on every run.
fn noise(len: usize, seed: u64) -> Vec<u8> {
    let mut state = seed.wrapping_mul(0x9e3779b97f4a7c15) | 1;
    let mut out = Vec::with_capacity(len);
    while out.len() < len {
        state ^= state >> 12;
        state ^= state << 25;
        state ^= state >> 27;
        let word = state.wrapping_mul(0x2545f4914f6cdd1d);
        for byte in word.to_le_bytes() {
            if out.len() < len {
                out.push(byte);
            }
        }
    }
    out
}

fn paths(manifest: &Manifest) -> Vec<String> {
    manifest.files.iter().map(|file| file.path.clone()).collect()
}

fn listed(path: &str) -> FileInfo {
    let name = path.rsplit('/').next().unwrap().to_string();
    FileInfo { name, directory: path.to_string() }
}

#[test]
fn new_manifest_is_empty() {
    assert!(Manifest::new().files.is_empty());
    assert!(Manifest::default().files.is_empty());
}

#[test]
fn a_slash_sorts_before_any_other_byte() {
    let before = |a: &str, b: &str| path_before_or_equal(&a.to_string(), &b.to_string());
    assert!(before("a/b", "a.b"));
    assert!(!before("a.b", "a/b"));
    assert!(before("a", "a/b"));
    assert!(before("a/b", "a/b"));
    assert!(before("a/b", "a/c"));
    assert!(!before("b", "a/c"));
    assert!(before("", "a"));
    assert!(!before("a", ""));
    assert!(before("a/z", "a!"));
}

#[test]
fn bytes_are_compared_by_rank() {
    assert!(bytes_before_or_equal(&[0x2f], &[0x00]));
    assert!(!bytes_before_or_equal(&[0x00], &[0x2f]));
    assert!(bytes_before_or_equal(&[0x00], &[0x01]));
    assert!(bytes_before_or_equal(&[0xfe], &[0xff]));
    assert!(!bytes_before_or_equal(&[0xff], &[0xfe]));
    assert!(bytes_before_or_equal(&[1, 2], &[1, 2, 3]));
    assert!(!bytes_before_or_equal(&[1, 2, 3], &[1, 2]));
}

#[test]
fn manifest_is_sorted_by_path() {
    let mut source = Directory::new();
    for path in ["b/2.txt", "a.b", "c", "a/b", "b/10.txt", "a"] {
        source.put(path.to_string(), path.as_bytes().to_vec());
    }
    let manifest = generate_manifest(&source);
    assert_eq!(paths(&manifest), vec!["a", "a/b", "a.b", "b/10.txt", "b/2.txt", "c"]);
}

#[test]
fn manifest_does_not_depend_on_the_order_of_the_directory() {
    let first = noise(200000, 1);
    let second = noise(100, 2);
    let mut forward = Directory::new();
    forward.put("x/first".to_string(), first.clone());
    forward.put("second".to_string(), second.clone());
    let mut backward = Directory::new();
    backward.put("second".to_string(), second);
    backward.put("x/first".to_string(), first);
    let a = generate_manifest(&forward);
    let b = generate_manifest(&backward);
    assert_eq!(paths(&a), paths(&b));
    for (x, y) in a.files.iter().zip(b.files.iter()) {
        assert_eq!(x.chunks, y.chunks);
    }
}

#[test]
fn every_file_of_a_manifest_is_covered_by_its_chunks() {
    let mut source = Directory::new();
    source.put("big".to_string(), noise(1048576, 3));
    source.put("small".to_string(), noise(10, 4));
    source.put("empty".to_string(), Vec::new());
    let manifest = generate_manifest(&source);
    assert_eq!(manifest.files.len(), 3);
    for file in &manifest.files {
        let contents = source.get(&file.path).unwrap();
        let mut offset = 0u64;
        for chunk in &file.chunks {
            assert_eq!(chunk.offset, offset);
            offset += chunk.length;
        }
        assert_eq!(offset, contents.len() as u64);
        assert_eq!(file.chunks, chunk_file(contents));
    }
}

#[test]
fn from_path_lists_every_file() {
    let mut source = Directory::new();
    source.put("one".to_string(), vec![1]);
    source.put("two".to_string(), vec![2, 2]);
    let manifest = Manifest::from_path(&source);
    assert_eq!(paths(&manifest), vec!["one", "two"]);
    assert_eq!(manifest.files[0].chunks.len(), 1);
    assert_eq!(manifest.files[1].chunks[0].length, 2);
}

#[test]
fn from_file_list_takes_the_listed_files_only() {
    let mut source = Directory::new();
    source.put("keep/b".to_string(), vec![1, 2, 3]);
    source.put("skip".to_string(), vec![4]);
    source.put("keep/a".to_string(), vec![5, 6]);
    let list = FileList { files: vec![listed("keep/b"), listed("keep/a")] };
    let manifest = Manifest::from_file_list(&source, &list).unwrap();
    assert_eq!(paths(&manifest), vec!["keep/a", "keep/b"]);
    assert_eq!(manifest.files[0].chunks[0].length, 2);
    assert_eq!(manifest.files[1].chunks[0].length, 3);
}

#[test]
fn from_file_list_fails_on_the_first_missing_file() {
    let mut source = Directory::new();
    source.put("here".to_string(), vec![1]);
    let list = FileList { files: vec![listed("here"), listed("gone/1"), listed("gone/2")] };
    match Manifest::from_file_list(&source, &list) {
        Err(Error::FileNotFound(path)) => assert_eq!(path, "gone/1"),
        other => panic!("expected a missing file, got {:?}", other),
    }
}

#[test]
fn from_file_list_keeps_the_order_of_equal_paths() {
    let mut source = Directory::new();
    source.put("same".to_string(), vec![1]);
    source.put("other".to_string(), vec![2]);
    let list = FileList { files: vec![listed("same"), listed("other"), listed("same")] };
    let manifest = Manifest::from_file_list(&source, &list).unwrap();
    assert_eq!(paths(&manifest), vec!["other", "same", "same"]);
}

#[test]
fn from_empty_file_list_is_empty() {
    let source = Directory::new();
    let list = FileList { files: Vec::new() };
    assert!(Manifest::from_file_list(&source, &list).unwrap().files.is_empty());
}

#[test]
fn directory_replaces_and_adds() {
    let mut directory = Directory::new();
    assert_eq!(directory.len(), 0);
    directory.put("a".to_string(), vec![1]);
    directory.put("b".to_string(), vec![2]);
    directory.put("a".to_string(), vec![3, 4]);
    assert_eq!(directory.len(), 2);
    assert_eq!(directory.get(&"a".to_string()), Some(&vec![3, 4]));
    assert_eq!(directory.get(&"b".to_string()), Some(&vec![2]));
    assert_eq!(directory.get(&"c".to_string()), None);
    assert!(directory.contains(&"b".to_string()));
    assert!(!directory.contains(&"c".to_string()));
    assert_eq!(directory.position(&"b".to_string()), Some(1));
}

#[test]
fn errors_say_what_went_wrong() {
    assert_eq!(Error::FileNotFound("a/b".to_string()).message(), "File not found a/b");
    assert_eq!(Error::DirectoryNotFound("a".to_string()).message(), "Directory not found a");
    assert_eq!(Error::ChunkNotFound(42).message(), "Chunk not found 42");
    assert_eq!(Error::AccessDenied.message(), "Access is denied");
    assert_eq!(Error::Unspecified("why".to_string()).message(), "Unspecified: why");
    assert_eq!(Error::IOError("disk full".to_string()).message(), "disk full");
}

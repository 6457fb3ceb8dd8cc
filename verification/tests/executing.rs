use binsync::chunk::{Chunk, ChunkProvider, Operation, SyncPlan};
use binsync::execute::{progress_percent, FileWriter};
use binsync::sync::rewrite_file;
use binsync::{
    generate_manifest, sync_from_manifest, sync_with_progress, CachingChunkProvider, Directory,
    Error, Syncer,
};
use std::collections::HashMap;

/// Bytes that look random and are the same on every run.
fn noise(len: usize, seed: u64) -> Vec<u8> {
    let mut state = seed.wrapping_mul(0x9e3779b97f4a7c15) | 1;
    let mut out = Vec::with_capacity(len);
    while out.len() < len {
        state ^= state >> 12;
        state ^= state << 25;
        state ^= state >> 27;
        let word = state.wrapping_mul(0x2545f4914f6cdd1d);
        for byte in word.to_le_bytes() {
            if out.len() < len {
                out.push(byte);
            }
        }
    }
    out
}

fn ignore(_percent: u32) {}

/// A provider that hands out what it was given, and counts the requests.
struct Shelf {
    chunks: HashMap<u64, Vec<u8>>,
    asked: Vec<u64>,
    plans: usize,
}

impl Shelf {
    fn new(chunks: &[(u64, &[u8])]) -> Shelf {
        let chunks = chunks.iter().map(|(key, data)| (*key, data.to_vec())).collect();
        Shelf { chunks, asked: Vec::new(), plans: 0 }
    }
}

impl ChunkProvider for Shelf {
    fn set_plan(&mut self, _plan: &SyncPlan) {
        self.plans += 1;
    }

    fn get_chunk(&mut self, key: &u64) -> Result<Vec<u8>, Error> {
        self.asked.push(*key);
        self.chunks.get(key).cloned().ok_or(Error::ChunkNotFound(*key))
    }
}

fn chunk(hash: u64, offset: u64, length: u64) -> Chunk {
    Chunk { hash, offset, length }
}

fn run(existing: &[u8], operations: Vec<Operation>, shelf: &mut Shelf) -> Result<Vec<u8>, Error> {
    let mut progress = Some(ignore);
    let mut done = 0u64;
    rewrite_file(existing.to_vec(), &operations, shelf, &mut progress, &mut done, 10)
}

#[test]
fn progress_is_rounded_down() {
    assert_eq!(progress_percent(0, 3), 0);
    assert_eq!(progress_percent(1, 3), 33);
    assert_eq!(progress_percent(2, 3), 66);
    assert_eq!(progress_percent(3, 3), 100);
    assert_eq!(progress_percent(1, 1), 100);
    assert_eq!(progress_percent(199, 200), 99);
    assert_eq!(progress_percent(7, 2), 350);
}

#[test]
fn progress_without_operations() {
    assert_eq!(progress_percent(0, 0), 0);
    assert_eq!(progress_percent(1, 0), u32::MAX);
    assert_eq!(progress_percent(u64::MAX, 1), u32::MAX);
}

#[test]
fn writing_replaces_and_lengthens() {
    let mut writer = FileWriter::open(vec![1, 2, 3, 4], &Vec::new()).unwrap();
    writer.seek(2).unwrap();
    writer.write(&[9, 9, 9]).unwrap();
    assert_eq!(writer.position, 5);
    assert_eq!(writer.finish(), vec![1, 2, 9, 9, 9]);
}

#[test]
fn finishing_cuts_the_file_off_at_the_cursor() {
    let mut writer = FileWriter::open(vec![1, 2, 3, 4, 5], &Vec::new()).unwrap();
    writer.write(&[7, 8]).unwrap();
    assert_eq!(writer.finish(), vec![7, 8]);
}

#[test]
fn a_gap_fills_with_zeros() {
    let mut writer = FileWriter::open(vec![1], &Vec::new()).unwrap();
    writer.seek(3).unwrap();
    writer.write(&[5]).unwrap();
    assert_eq!(writer.finish(), vec![1, 0, 0, 5]);
    let mut beyond = FileWriter::open(vec![1], &Vec::new()).unwrap();
    beyond.seek(3).unwrap();
    assert_eq!(beyond.finish(), vec![1, 0, 0]);
}

#[test]
fn seeking_back_and_overwriting() {
    let mut writer = FileWriter::open(Vec::new(), &Vec::new()).unwrap();
    writer.write(&[1, 2, 3, 4]).unwrap();
    writer.seek(-3).unwrap();
    writer.write(&[9]).unwrap();
    writer.seek(2).unwrap();
    assert_eq!(writer.finish(), vec![1, 9, 3, 4]);
}

#[test]
fn seeking_before_the_start_is_denied() {
    let mut writer = FileWriter::open(vec![1, 2], &Vec::new()).unwrap();
    writer.seek(1).unwrap();
    assert!(matches!(writer.seek(-2), Err(Error::AccessDenied)));
    assert_eq!(writer.position, 1);
    assert!(matches!(writer.seek(i64::MIN), Err(Error::AccessDenied)));
    writer.seek(-1).unwrap();
    assert_eq!(writer.position, 0);
}

#[test]
fn copy_sources_are_read_before_anything_is_written() {
    let existing = [10u8, 11, 12, 13, 14, 15];
    let operations = vec![
        Operation::Copy(chunk(1, 3, 3)),
        Operation::Copy(chunk(2, 0, 3)),
    ];
    let mut shelf = Shelf::new(&[]);
    assert_eq!(run(&existing, operations, &mut shelf).unwrap(), vec![13, 14, 15, 10, 11, 12]);
    assert!(shelf.asked.is_empty());
}

#[test]
fn a_copy_beyond_the_end_of_the_file_fails_before_the_provider_is_asked() {
    let existing = [1u8, 2, 3];
    let operations = vec![Operation::Fetch(chunk(5, 0, 1)), Operation::Copy(chunk(1, 2, 2))];
    let mut shelf = Shelf::new(&[(5, &[9])]);
    assert!(matches!(run(&existing, operations, &mut shelf), Err(Error::IOError(_))));
    assert!(shelf.asked.is_empty());
}

#[test]
fn fetched_chunks_are_written_in_order() {
    let operations = vec![
        Operation::Fetch(chunk(1, 0, 2)),
        Operation::Seek(1),
        Operation::Fetch(chunk(2, 3, 1)),
        Operation::Fetch(chunk(1, 4, 2)),
    ];
    let mut shelf = Shelf::new(&[(1, &[7, 8]), (2, &[9])]);
    let existing = [0u8, 0, 5, 0, 0, 0, 0, 0];
    assert_eq!(run(&existing, operations, &mut shelf).unwrap(), vec![7, 8, 5, 9, 7, 8]);
    assert_eq!(shelf.asked, vec![1, 2, 1]);
}

#[test]
fn a_chunk_of_the_wrong_length_is_refused() {
    let operations = vec![Operation::Fetch(chunk(1, 0, 3))];
    let mut shelf = Shelf::new(&[(1, &[7, 8])]);
    assert!(matches!(run(&[], operations, &mut shelf), Err(Error::Unspecified(_))));
}

#[test]
fn a_failure_of_the_provider_ends_the_rewrite() {
    let operations = vec![Operation::Fetch(chunk(1, 0, 1)), Operation::Fetch(chunk(2, 1, 1))];
    let mut shelf = Shelf::new(&[(2, &[7])]);
    match run(&[], operations, &mut shelf) {
        Err(Error::ChunkNotFound(id)) => assert_eq!(id, 1),
        other => panic!("expected a missing chunk, got {:?}", other),
    }
    assert_eq!(shelf.asked, vec![1]);
}

#[test]
fn a_copy_that_was_not_loaded_is_not_found() {
    let mut writer = FileWriter::open(vec![1, 2, 3], &vec![Operation::Copy(chunk(1, 0, 2))]).unwrap();
    writer.write_copy(&chunk(1, 0, 2)).unwrap();
    match writer.write_copy(&chunk(2, 0, 2)) {
        Err(Error::ChunkNotFound(id)) => assert_eq!(id, 2),
        other => panic!("expected a missing chunk, got {:?}", other),
    }
    assert_eq!(writer.finish(), vec![1, 2]);
}

#[test]
fn a_longer_destination_is_cut_to_the_length_of_the_source() {
    let mut source = Directory::new();
    source.put("test.bin".to_string(), noise(1048576, 1));
    let mut dest = Directory::new();
    dest.put("test.bin".to_string(), noise(1048677, 2));
    sync_with_progress(&source, &mut dest, ignore).unwrap();
    let synced = dest.get(&"test.bin".to_string()).unwrap();
    assert_eq!(synced.len(), 1048576);
    assert_eq!(Some(synced), source.get(&"test.bin".to_string()));
}

#[test]
fn a_shorter_destination_grows_to_the_length_of_the_source() {
    let mut source = Directory::new();
    let data = noise(500000, 3);
    source.put("test.bin".to_string(), data.clone());
    let mut dest = Directory::new();
    dest.put("test.bin".to_string(), data[..200000].to_vec());
    sync_with_progress(&source, &mut dest, ignore).unwrap();
    assert_eq!(dest.get(&"test.bin".to_string()), Some(&data));
}

#[test]
fn progress_runs_up_to_one_hundred() {
    let mut source = Directory::new();
    source.put("a".to_string(), noise(1048576, 4));
    source.put("b".to_string(), noise(300000, 5));
    let mut dest = Directory::new();
    let mut reported: Vec<u32> = Vec::new();
    sync_with_progress(&source, &mut dest, |percent| reported.push(percent)).unwrap();
    let operations: usize =
        generate_manifest(&source).files.iter().map(|file| file.chunks.len()).sum();
    assert_eq!(reported.len(), operations);
    assert!(reported.windows(2).all(|pair| pair[0] <= pair[1]));
    assert_eq!(reported.last(), Some(&100));
    assert_eq!(reported[0], (100 / operations) as u32);
}

#[test]
fn the_syncer_hands_the_plan_to_the_provider_first() {
    let data = noise(1000, 6);
    let mut source = Directory::new();
    source.put("a".to_string(), data.clone());
    let manifest = generate_manifest(&source);
    let id = manifest.files[0].chunks[0].hash;
    let shelf = Shelf::new(&[(id, &data)]);
    let mut syncer = Syncer::new(Directory::new(), shelf, manifest);
    syncer.on_progress(ignore);
    syncer.sync().unwrap();
    assert_eq!(syncer.provider.plans, 1);
    assert_eq!(syncer.provider.asked, vec![id]);
    assert_eq!(syncer.destination.get(&"a".to_string()), Some(&data));
}

#[test]
fn sync_from_manifest_uses_the_given_provider() {
    let data = noise(1000, 7);
    let mut source = Directory::new();
    source.put("deep/down/a".to_string(), data.clone());
    let manifest = generate_manifest(&source);
    let mut dest = Directory::new();
    sync_from_manifest(manifest, CachingChunkProvider::new(&source), &mut dest).unwrap();
    assert_eq!(dest.get(&"deep/down/a".to_string()), Some(&data));
}

#[test]
fn a_failed_sync_keeps_the_files_rewritten_before() {
    let first = noise(1000, 8);
    let second = noise(1000, 9);
    let mut source = Directory::new();
    source.put("a".to_string(), first.clone());
    source.put("b".to_string(), second);
    let manifest = generate_manifest(&source);
    let shelf = Shelf::new(&[(manifest.files[0].chunks[0].hash, &first)]);
    let mut dest = Directory::new();
    dest.put("b".to_string(), vec![1, 2, 3]);
    let mut syncer = Syncer::new(dest, shelf, manifest);
    syncer.on_progress(ignore);
    assert!(matches!(syncer.sync(), Err(Error::ChunkNotFound(_))));
    assert_eq!(syncer.destination.get(&"a".to_string()), Some(&first));
    assert_eq!(syncer.destination.get(&"b".to_string()), Some(&vec![1, 2, 3]));
}

#[test]
fn the_caching_provider_serves_a_chunk_as_often_as_planned() {
    let data = noise(100, 10);
    let mut source = Directory::new();
    source.put("a".to_string(), data.clone());
    let plan = SyncPlan {
        operations: vec![(
            "a".to_string(),
            vec![
                Operation::Fetch(chunk(1, 10, 20)),
                Operation::Seek(5),
                Operation::Fetch(chunk(1, 10, 20)),
                Operation::Fetch(chunk(2, 90, 10)),
            ],
        )],
        total_ops: 4,
    };
    let mut provider = CachingChunkProvider::new(&source);
    match provider.get_chunk(&1) {
        Err(Error::ChunkNotFound(id)) => assert_eq!(id, 1),
        other => panic!("expected a missing chunk, got {:?}", other),
    }
    provider.set_plan(&plan);
    assert_eq!(provider.chunks[&1].ref_count, 2);
    assert_eq!(provider.get_chunk(&1).unwrap(), data[10..30].to_vec());
    assert_eq!(provider.chunks[&1].ref_count, 1);
    assert_eq!(provider.get_chunk(&1).unwrap(), data[10..30].to_vec());
    assert!(matches!(provider.get_chunk(&1), Err(Error::ChunkNotFound(1))));
    assert_eq!(provider.get_chunk(&2).unwrap(), data[90..].to_vec());
    assert!(provider.chunks.is_empty());
}

#[test]
fn the_caching_provider_keeps_the_first_place_of_a_chunk() {
    let mut source = Directory::new();
    source.put("a".to_string(), vec![1, 2, 3, 4]);
    source.put("b".to_string(), vec![5, 6, 7, 8]);
    let plan = SyncPlan {
        operations: vec![
            ("b".to_string(), vec![Operation::Fetch(chunk(1, 1, 2))]),
            ("a".to_string(), vec![Operation::Fetch(chunk(1, 0, 2))]),
        ],
        total_ops: 2,
    };
    let mut provider = CachingChunkProvider::new(&source);
    provider.set_plan(&plan);
    assert_eq!(provider.get_chunk(&1).unwrap(), vec![6, 7]);
    assert_eq!(provider.get_chunk(&1).unwrap(), vec![6, 7]);
}

#[test]
fn the_caching_provider_denies_what_the_source_lacks() {
    let mut source = Directory::new();
    source.put("a".to_string(), vec![1, 2, 3, 4]);
    let plan = SyncPlan {
        operations: vec![
            ("a".to_string(), vec![Operation::Fetch(chunk(1, 3, 2))]),
            ("gone".to_string(), vec![Operation::Fetch(chunk(2, 0, 1))]),
        ],
        total_ops: 2,
    };
    let mut provider = CachingChunkProvider::new(&source);
    provider.set_plan(&plan);
    assert!(matches!(provider.get_chunk(&1), Err(Error::AccessDenied)));
    assert!(matches!(provider.get_chunk(&2), Err(Error::AccessDenied)));
    assert!(matches!(provider.get_chunk(&2), Err(Error::ChunkNotFound(2))));
}

#[test]
fn the_basic_provider_serves_every_chunk_of_the_manifest() {
    let mut source = Directory::new();
    source.put("a".to_string(), noise(300000, 11));
    source.put("b".to_string(), noise(1000, 12));
    let manifest = generate_manifest(&source);
    let mut provider = binsync::BasicChunkProvider::new(&source, &manifest);
    for file in &manifest.files {
        let contents = source.get(&file.path).unwrap();
        for chunk in &file.chunks {
            let start = chunk.offset as usize;
            let expected = contents[start..start + chunk.length as usize].to_vec();
            assert_eq!(provider.get_chunk(&chunk.hash).unwrap(), expected);
            assert_eq!(provider.get_chunk(&chunk.hash).unwrap(), expected);
        }
    }
    assert!(matches!(provider.get_chunk(&12345), Err(Error::ChunkNotFound(12345))));
}

#[test]
fn the_basic_provider_syncs_without_a_plan_of_its_own() {
    let mut source = Directory::new();
    source.put("x/y".to_string(), noise(400000, 13));
    let manifest = generate_manifest(&source);
    let provider = binsync::BasicChunkProvider::new(&source, &manifest);
    let mut dest = Directory::new();
    dest.put("x/y".to_string(), noise(100, 14));
    sync_from_manifest(manifest, provider, &mut dest).unwrap();
    assert_eq!(dest.get(&"x/y".to_string()), source.get(&"x/y".to_string()));
}

#[test]
fn the_basic_provider_denies_what_the_source_lacks() {
    let mut source = Directory::new();
    source.put("a".to_string(), vec![1, 2, 3]);
    let manifest = binsync::Manifest {
        files: vec![
            binsync::FileChunkInfo { path: "a".to_string(), chunks: vec![chunk(1, 2, 5)] },
            binsync::FileChunkInfo { path: "gone".to_string(), chunks: vec![chunk(2, 0, 1)] },
        ],
    };
    let mut provider = binsync::BasicChunkProvider::new(&source, &manifest);
    assert!(matches!(provider.get_chunk(&1), Err(Error::AccessDenied)));
    assert!(matches!(provider.get_chunk(&2), Err(Error::AccessDenied)));
}

#[test]
fn a_sync_with_repeated_chunks_gets_each_as_often_as_needed() {
    let mut source = Directory::new();
    source.put("zeros".to_string(), vec![0u8; 5 * 131072 + 17]);
    source.put("more".to_string(), vec![0u8; 2 * 131072]);
    let mut dest = Directory::new();
    binsync::sync(&source, &mut dest).unwrap();
    assert_eq!(dest.get(&"zeros".to_string()), source.get(&"zeros".to_string()));
    assert_eq!(dest.get(&"more".to_string()), source.get(&"more".to_string()));
}

#[test]
fn files_the_plan_does_not_name_stay_whatever_the_provider_does() {
    let first = noise(1000, 41);
    let second = noise(1000, 42);
    let mut source = Directory::new();
    source.put("a".to_string(), first.clone());
    source.put("b".to_string(), second.clone());
    let manifest = generate_manifest(&source);
    let shelf = Shelf::new(&[(manifest.files[0].chunks[0].hash, &first)]);
    let mut dest = Directory::new();
    dest.put("other".to_string(), vec![9, 9, 9]);
    dest.put("b".to_string(), vec![1]);
    assert!(matches!(
        sync_from_manifest(manifest, shelf, &mut dest),
        Err(Error::ChunkNotFound(_))
    ));
    assert_eq!(dest.get(&"other".to_string()), Some(&vec![9, 9, 9]));
    assert_eq!(dest.get(&"a".to_string()), Some(&first));
    assert_eq!(dest.get(&"b".to_string()), Some(&vec![1]));
    assert_eq!(dest.len(), 3);
}

#[test]
fn an_empty_plan_changes_nothing() {
    let mut dest = Directory::new();
    dest.put("x".to_string(), vec![1, 2]);
    let shelf = Shelf::new(&[]);
    let mut syncer = Syncer::new(dest, shelf, binsync::Manifest::new());
    syncer.on_progress(ignore);
    let plan = SyncPlan { operations: Vec::new(), total_ops: 0 };
    syncer.sync_from_plan(&plan).unwrap();
    assert_eq!(syncer.destination.len(), 1);
    assert_eq!(syncer.destination.get(&"x".to_string()), Some(&vec![1, 2]));
    assert_eq!(syncer.provider.plans, 1);
    assert!(syncer.provider.asked.is_empty());
}

#[test]
fn a_plan_that_fetches_nothing_needs_no_provider() {
    let data = noise(400000, 43);
    let mut source = Directory::new();
    let mut doubled = data.clone();
    doubled.extend_from_slice(&data);
    source.put("a".to_string(), doubled.clone());
    let manifest = generate_manifest(&source);
    let mut dest = Directory::new();
    dest.put("a".to_string(), doubled.clone());
    dest.put("keep".to_string(), vec![7]);
    let shelf = Shelf::new(&[]);
    sync_from_manifest(manifest, shelf, &mut dest).unwrap();
    assert_eq!(dest.get(&"a".to_string()), Some(&doubled));
    assert_eq!(dest.get(&"keep".to_string()), Some(&vec![7]));
}

#[test]
fn a_second_sync_of_repeated_chunks_fetches_nothing() {
    let mut source = Directory::new();
    source.put("zeros".to_string(), vec![0u8; 3 * 131072 + 5]);
    let mut dest = Directory::new();
    binsync::sync(&source, &mut dest).unwrap();
    let manifest = generate_manifest(&source);
    let plan = binsync::plan::plan_sync(&manifest, &dest).unwrap();
    assert!(!plan.operations.is_empty());
    assert_eq!(plan.get_fetch_size(), 0);
    let shelf = Shelf::new(&[]);
    let mut again = Directory::new();
    again.put("zeros".to_string(), dest.get(&"zeros".to_string()).unwrap().clone());
    sync_from_manifest(manifest, shelf, &mut again).unwrap();
    assert_eq!(again.get(&"zeros".to_string()), source.get(&"zeros".to_string()));
}

use binsync::chunk::{Chunk, Operation, SyncPlan};
use binsync::chunker::{chunk_file, MAX_CHUNK};
use binsync::plan::{any_writes, index_existing, plan_chunk, plan_file, plan_sync};
use binsync::{generate_manifest, sync, CachingChunkProvider, Directory, Syncer};
use std::collections::HashMap;

/// Bytes that look random and are the same on every run.
fn noise(len: usize, seed: u64) -> Vec<u8> {
    let mut state = seed.wrapping_mul(0x9e3779b97f4a7c15) | 1;
    let mut out = Vec::with_capacity(len);
    while out.len() < len {
        state ^= state >> 12;
        state ^= state << 25;
        state ^= state >> 27;
        let word = state.wrapping_mul(0x2545f4914f6cdd1d);
        for byte in word.to_le_bytes() {
            if out.len() < len {
                out.push(byte);
            }
        }
    }
    out
}

fn ignore(_percent: u32) {}

#[test]
fn a_missing_file_is_fetched_whole() {
    let data = noise(1048576, 1);
    let chunks = chunk_file(&data);
    let operations = plan_file(&chunks, None);
    assert_eq!(operations.len(), chunks.len());
    for (operation, chunk) in operations.iter().zip(chunks.iter()) {
        assert_eq!(*operation, Operation::Fetch(*chunk));
    }
}

#[test]
fn an_identical_file_is_passed_over() {
    let data = noise(1048576, 2);
    let chunks = chunk_file(&data);
    let operations = plan_file(&chunks, Some(&data));
    assert_eq!(operations.len(), chunks.len());
    for (operation, chunk) in operations.iter().zip(chunks.iter()) {
        assert_eq!(*operation, Operation::Seek(chunk.length as i64));
    }
    assert!(!any_writes(&operations));
}

#[test]
fn an_unrelated_file_is_fetched_whole() {
    let data = noise(1048576, 3);
    let other = noise(1048677, 4);
    let chunks = chunk_file(&data);
    let operations = plan_file(&chunks, Some(&other));
    for (operation, chunk) in operations.iter().zip(chunks.iter()) {
        assert_eq!(*operation, Operation::Fetch(*chunk));
    }
    assert!(any_writes(&operations));
}

#[test]
fn a_chunk_found_elsewhere_is_copied_from_there() {
    let mut have: HashMap<u64, (usize, usize)> = HashMap::new();
    have.insert(7, (100, 50));
    let in_place = Chunk { hash: 7, offset: 100, length: 50 };
    let moved = Chunk { hash: 7, offset: 300, length: 50 };
    let resized = Chunk { hash: 7, offset: 100, length: 51 };
    let unknown = Chunk { hash: 8, offset: 100, length: 50 };
    assert_eq!(plan_chunk(&have, &in_place), Operation::Seek(50));
    assert_eq!(
        plan_chunk(&have, &moved),
        Operation::Copy(Chunk { hash: 7, offset: 100, length: 50 })
    );
    assert_eq!(
        plan_chunk(&have, &resized),
        Operation::Copy(Chunk { hash: 7, offset: 100, length: 50 })
    );
    assert_eq!(plan_chunk(&have, &unknown), Operation::Fetch(unknown));
}

#[test]
fn of_two_equal_chunks_the_later_is_indexed() {
    let data = vec![0u8; 3 * MAX_CHUNK];
    let have = index_existing(&data);
    assert_eq!(have.len(), 1);
    let found = have.values().next().unwrap();
    assert_eq!(*found, (2 * MAX_CHUNK, MAX_CHUNK));
}

#[test]
fn repeated_chunks_are_copied_though_nothing_differs() {
    let data = vec![0u8; 3 * MAX_CHUNK];
    let chunks = chunk_file(&data);
    let operations = plan_file(&chunks, Some(&data));
    let last = Chunk { hash: chunks[0].hash, offset: 2 * MAX_CHUNK as u64, length: MAX_CHUNK as u64 };
    assert_eq!(
        operations,
        vec![Operation::Copy(last), Operation::Copy(last), Operation::Seek(MAX_CHUNK as i64)]
    );
}

#[test]
fn a_rotated_file_is_rebuilt_from_copies() {
    let data = noise(1048576, 5);
    let mut source = data[524288..].to_vec();
    source.extend_from_slice(&data);
    source.extend_from_slice(&data[..524288]);
    let chunks = chunk_file(&source);
    let operations = plan_file(&chunks, Some(&data));
    let copies = operations.iter().filter(|op| matches!(op, Operation::Copy(_))).count();
    assert!(copies > 0);
    let mut from = Directory::new();
    from.put("test.bin".to_string(), source.clone());
    let mut to = Directory::new();
    to.put("test.bin".to_string(), data);
    sync(&from, &mut to).unwrap();
    assert_eq!(to.get(&"test.bin".to_string()), Some(&source));
}

#[test]
fn the_plan_leaves_out_files_that_are_in_sync() {
    let mut source = Directory::new();
    source.put("changed".to_string(), noise(200000, 6));
    source.put("same".to_string(), noise(200000, 7));
    source.put("added".to_string(), noise(10, 8));
    let mut dest = Directory::new();
    dest.put("same".to_string(), source.get(&"same".to_string()).unwrap().clone());
    dest.put("changed".to_string(), noise(200000, 9));
    let manifest = generate_manifest(&source);
    let plan = plan_sync(&manifest, &dest).unwrap();
    let planned: Vec<&str> = plan.operations.iter().map(|entry| entry.0.as_str()).collect();
    assert_eq!(planned, vec!["added", "changed"]);
    let count: usize = plan.operations.iter().map(|entry| entry.1.len()).sum();
    assert_eq!(plan.total_ops as usize, count);
    assert_eq!(plan.operations[0].1.len(), 1);
}

#[test]
fn the_plan_for_identical_directories_is_empty() {
    let mut source = Directory::new();
    source.put("a".to_string(), noise(1048576, 10));
    source.put("b/c".to_string(), noise(5, 11));
    let mut dest = Directory::new();
    dest.put("b/c".to_string(), source.get(&"b/c".to_string()).unwrap().clone());
    dest.put("a".to_string(), source.get(&"a".to_string()).unwrap().clone());
    let manifest = generate_manifest(&source);
    let plan = plan_sync(&manifest, &dest).unwrap();
    assert!(plan.operations.is_empty());
    assert_eq!(plan.total_ops, 0);
}

#[test]
fn a_second_sync_finds_nothing_to_do() {
    let mut source = Directory::new();
    source.put("a".to_string(), noise(1048576, 12));
    source.put("b".to_string(), noise(70000, 13));
    let mut dest = Directory::new();
    dest.put("a".to_string(), noise(300000, 14));
    sync(&source, &mut dest).unwrap();
    let after_first: Vec<Vec<u8>> =
        ["a", "b"].iter().map(|p| dest.get(&p.to_string()).unwrap().clone()).collect();
    let plan = plan_sync(&generate_manifest(&source), &dest).unwrap();
    assert!(plan.operations.is_empty());
    sync(&source, &mut dest).unwrap();
    let after_second: Vec<Vec<u8>> =
        ["a", "b"].iter().map(|p| dest.get(&p.to_string()).unwrap().clone()).collect();
    assert_eq!(after_first, after_second);
    assert_eq!(dest.len(), 2);
}

#[test]
fn an_empty_source_file_is_not_made() {
    let mut source = Directory::new();
    source.put("empty".to_string(), Vec::new());
    let mut dest = Directory::new();
    let plan = plan_sync(&generate_manifest(&source), &dest).unwrap();
    assert!(plan.operations.is_empty());
    sync(&source, &mut dest).unwrap();
    assert_eq!(dest.len(), 0);
}

#[test]
fn files_only_the_destination_has_stay() {
    let mut source = Directory::new();
    source.put("new".to_string(), noise(100, 15));
    let mut dest = Directory::new();
    dest.put("old".to_string(), vec![1, 2, 3]);
    sync(&source, &mut dest).unwrap();
    assert_eq!(dest.get(&"old".to_string()), Some(&vec![1, 2, 3]));
    assert_eq!(dest.get(&"new".to_string()), source.get(&"new".to_string()));
}

#[test]
fn fetch_size_adds_up_the_fetched_chunks() {
    let chunk = |hash, length| Chunk { hash, offset: 0, length };
    let plan = SyncPlan {
        operations: vec![
            (
                "a".to_string(),
                vec![
                    Operation::Fetch(chunk(1, 10)),
                    Operation::Seek(20),
                    Operation::Copy(chunk(2, 30)),
                    Operation::Fetch(chunk(3, 40)),
                ],
            ),
            ("b".to_string(), vec![Operation::Fetch(chunk(1, 10))]),
            ("c".to_string(), vec![]),
        ],
        total_ops: 5,
    };
    assert_eq!(plan.get_fetch_size(), 60);
    let empty = SyncPlan { operations: Vec::new(), total_ops: 0 };
    assert_eq!(empty.get_fetch_size(), 0);
}

#[test]
fn fetch_size_of_a_full_copy_is_the_size_of_the_source() {
    let mut source = Directory::new();
    source.put("a".to_string(), noise(1048576, 16));
    let dest = Directory::new();
    let plan = plan_sync(&generate_manifest(&source), &dest).unwrap();
    assert_eq!(plan.get_fetch_size(), 1048576);
}

#[test]
fn the_syncer_plans_without_changing_anything() {
    let mut source = Directory::new();
    source.put("a".to_string(), noise(100000, 17));
    let manifest = generate_manifest(&source);
    let chunks = manifest.files[0].chunks.len();
    let provider = CachingChunkProvider::new(&source);
    let mut syncer = Syncer::new(Directory::new(), provider, manifest);
    syncer.on_progress(ignore);
    let plan = syncer.plan().unwrap();
    assert_eq!(plan.operations.len(), 1);
    assert_eq!(plan.operations[0].0, "a");
    assert_eq!(plan.total_ops as usize, chunks);
    assert_eq!(syncer.destination.len(), 0);
}

#[test]
fn a_file_that_goes_on_behind_the_last_chunk_is_left_out() {
    let mut source = Directory::new();
    source.put("zeros".to_string(), vec![0u8; MAX_CHUNK]);
    let mut dest = Directory::new();
    dest.put("zeros".to_string(), vec![0u8; MAX_CHUNK + 1]);
    let plan = plan_sync(&generate_manifest(&source), &dest).unwrap();
    assert!(plan.operations.is_empty());
    sync(&source, &mut dest).unwrap();
    assert_eq!(dest.get(&"zeros".to_string()).unwrap().len(), MAX_CHUNK + 1);
}

use binsync::chunk::Chunk;
use binsync::hash::chunk_id;
use binsync::network::DEFAULT_PACK_SIZE;
use binsync::publish::{pack_contents, publish};
use binsync::remote::{slice_chunk, ChunkPackInfo, Lookup, PackRequest, WorkerState};
use binsync::{
    generate_manifest, Directory, Error, FileChunkInfo, Manifest, RemoteChunkProvider,
    RemoteManifest,
};
use std::collections::HashMap;

/// Bytes that look random and are the same on every run.
fn noise(len: usize, seed: u64) -> Vec<u8> {
    let mut state = seed.wrapping_mul(0x9e3779b97f4a7c15) | 1;
    let mut out = Vec::with_capacity(len);
    while out.len() < len {
        state ^= state >> 12;
        state ^= state << 25;
        state ^= state >> 27;
        let word = state.wrapping_mul(0x2545f4914f6cdd1d);
        for byte in word.to_le_bytes() {
            if out.len() < len {
                out.push(byte);
            }
        }
    }
    out
}

fn manifest_of(lengths: &[&[u64]]) -> Manifest {
    let mut files = Vec::new();
    let mut next = 1u64;
    for (index, file) in lengths.iter().enumerate() {
        let mut chunks = Vec::new();
        let mut offset = 0;
        for length in file.iter() {
            chunks.push(Chunk { hash: next, offset, length: *length });
            offset += length;
            next += 1;
        }
        files.push(FileChunkInfo { path: format!("file{}", index), chunks });
    }
    Manifest { files }
}

fn id_of(ids: &[u64]) -> u64 {
    let mut bytes = Vec::new();
    for id in ids {
        bytes.extend_from_slice(&id.to_le_bytes());
    }
    chunk_id(&bytes)
}

#[test]
fn default_pack_size_is_100_mib() {
    assert_eq!(DEFAULT_PACK_SIZE, 100 * 1024 * 1024);
}

#[test]
fn chunks_are_packed_greedily_in_manifest_order() {
    let manifest = manifest_of(&[&[40, 40, 40], &[30, 100, 10]]);
    let remote = RemoteManifest::with_pack_size(100, manifest);
    let packs: Vec<(u64, Vec<u64>)> =
        remote.packs.iter().map(|pack| (pack.length, pack.chunks.clone())).collect();
    assert_eq!(packs, vec![(80, vec![1, 2]), (70, vec![3, 4]), (100, vec![5]), (10, vec![6])]);
}

#[test]
fn pack_id_is_derived_from_the_chunk_ids() {
    let manifest = manifest_of(&[&[40, 40, 40]]);
    let remote = RemoteManifest::with_pack_size(100, manifest);
    assert_eq!(remote.packs.len(), 2);
    assert_eq!(remote.packs[0].hash, id_of(&[1, 2]));
    assert_eq!(remote.packs[1].hash, id_of(&[3]));
}

#[test]
fn a_chunk_larger_than_the_limit_gets_a_pack_of_its_own() {
    let manifest = manifest_of(&[&[10, 500, 10]]);
    let remote = RemoteManifest::with_pack_size(100, manifest);
    let packs: Vec<(u64, Vec<u64>)> =
        remote.packs.iter().map(|pack| (pack.length, pack.chunks.clone())).collect();
    assert_eq!(packs, vec![(10, vec![1]), (500, vec![2]), (10, vec![3])]);
}

#[test]
fn a_first_chunk_larger_than_the_limit_closes_an_empty_pack() {
    let manifest = manifest_of(&[&[500]]);
    let remote = RemoteManifest::with_pack_size(100, manifest);
    let packs: Vec<(u64, Vec<u64>)> =
        remote.packs.iter().map(|pack| (pack.length, pack.chunks.clone())).collect();
    assert_eq!(packs, vec![(0, vec![]), (500, vec![1])]);
    assert_eq!(remote.packs[0].hash, chunk_id(&[]));
}

#[test]
fn a_pack_may_be_filled_to_the_limit() {
    let manifest = manifest_of(&[&[60, 40, 1]]);
    let remote = RemoteManifest::with_pack_size(100, manifest);
    let packs: Vec<(u64, Vec<u64>)> =
        remote.packs.iter().map(|pack| (pack.length, pack.chunks.clone())).collect();
    assert_eq!(packs, vec![(100, vec![1, 2]), (1, vec![3])]);
}

#[test]
fn an_empty_manifest_has_no_packs() {
    let remote = RemoteManifest::from_manifest(Manifest::new());
    assert!(remote.packs.is_empty());
    assert!(remote.source.files.is_empty());
}

#[test]
fn from_manifest_uses_the_default_size() {
    let manifest = manifest_of(&[&[DEFAULT_PACK_SIZE as u64, 1]]);
    let remote = RemoteManifest::from_manifest(manifest);
    let lengths: Vec<u64> = remote.packs.iter().map(|pack| pack.length).collect();
    assert_eq!(lengths, vec![DEFAULT_PACK_SIZE as u64, 1]);
}

#[test]
fn every_chunk_is_in_exactly_one_pack() {
    let mut source = Directory::new();
    source.put("a".to_string(), noise(3 * 1048576, 1));
    source.put("b".to_string(), noise(1048576 + 17, 2));
    let remote = RemoteManifest::with_pack_size(1048576, generate_manifest(&source));
    let mut seen: HashMap<u64, usize> = HashMap::new();
    let mut packed = 0u64;
    for pack in &remote.packs {
        assert!(pack.length <= 1048576);
        packed += pack.length;
        for id in &pack.chunks {
            *seen.entry(*id).or_insert(0) += 1;
        }
    }
    let mut total = 0u64;
    let mut listed = Vec::new();
    for file in &remote.source.files {
        for chunk in &file.chunks {
            assert_eq!(seen.get(&chunk.hash), Some(&1));
            total += chunk.length;
            listed.push(chunk.hash);
        }
    }
    assert_eq!(packed, total);
    let in_packs: Vec<u64> = remote.packs.iter().flat_map(|pack| pack.chunks.clone()).collect();
    assert_eq!(in_packs, listed);
}

#[test]
fn pack_ids_are_the_same_on_every_run() {
    let mut source = Directory::new();
    source.put("a".to_string(), noise(2 * 1048576, 3));
    let first = RemoteManifest::with_pack_size(500000, generate_manifest(&source));
    let second = RemoteManifest::with_pack_size(500000, generate_manifest(&source));
    let ids = |remote: &RemoteManifest| -> Vec<u64> {
        remote.packs.iter().map(|pack| pack.hash).collect()
    };
    assert!(first.packs.len() > 1);
    assert_eq!(ids(&first), ids(&second));
}

/// Builds a remote manifest over 10 MiB with packs of 4 MiB, writes each pack
/// as the bytes of its chunks one after the other, and reads every chunk back
/// out of its pack.
#[test]
fn pack_round_trip() {
    let mut source = Directory::new();
    source.put("one.bin".to_string(), noise(6 * 1048576, 4));
    source.put("two.bin".to_string(), noise(4 * 1048576, 5));
    let remote = RemoteManifest::with_pack_size(4194304, generate_manifest(&source));

    let published = publish(&source, &remote).unwrap();
    assert_eq!(published.len(), remote.packs.len());
    let mut pack_files: HashMap<u64, Vec<u8>> = HashMap::new();
    for (pack, bytes) in remote.packs.iter().zip(published) {
        assert_eq!(bytes.len() as u64, pack.length);
        assert!(pack.length <= 4194304);
        pack_files.insert(pack.hash, bytes);
    }
    assert!(remote.packs.len() >= 3);

    let mut provider = RemoteChunkProvider::new("http://localhost/packs", &remote).unwrap();
    for file in &remote.source.files {
        for chunk in &file.chunks {
            let info = provider.chunk_map[&chunk.hash];
            assert_eq!(info.length, chunk.length);
            let bytes = slice_chunk(&pack_files[&info.pack_id], &info).unwrap();
            assert_eq!(chunk_id(&bytes), chunk.hash);

            let answer = match provider.get_chunk(&chunk.hash).unwrap() {
                Lookup::Ready(data) => data,
                Lookup::Wanted(request) => {
                    assert_eq!(
                        request,
                        PackRequest {
                            pack_id: info.pack_id,
                            length: info.pack_length,
                            urgent: true
                        }
                    );
                    let next = provider.downloader.next_request().unwrap();
                    assert_eq!(next, request);
                    provider.downloader.complete(Some(pack_files[&next.pack_id].clone()));
                    match provider.get_chunk(&chunk.hash).unwrap() {
                        Lookup::Ready(data) => data,
                        Lookup::Wanted(_) => panic!("the pack has arrived"),
                    }
                }
            };
            assert_eq!(answer, bytes);
        }
    }
    assert_eq!(provider.downloader.state, WorkerState::Idle);
}

#[test]
fn chunk_offsets_in_a_pack_add_up() {
    let manifest = manifest_of(&[&[40, 40, 40], &[30]]);
    let remote = RemoteManifest::with_pack_size(100, manifest);
    let provider = RemoteChunkProvider::new("base", &remote).unwrap();
    let first = remote.packs[0].hash;
    let second = remote.packs[1].hash;
    assert_eq!(
        provider.chunk_map[&1],
        ChunkPackInfo { pack_id: first, pack_length: 80, offset: 0, length: 40 }
    );
    assert_eq!(
        provider.chunk_map[&2],
        ChunkPackInfo { pack_id: first, pack_length: 80, offset: 40, length: 40 }
    );
    assert_eq!(
        provider.chunk_map[&3],
        ChunkPackInfo { pack_id: second, pack_length: 70, offset: 0, length: 40 }
    );
    assert_eq!(
        provider.chunk_map[&4],
        ChunkPackInfo { pack_id: second, pack_length: 70, offset: 40, length: 30 }
    );
    assert_eq!(provider.chunk_map.len(), 4);
}

#[test]
fn a_pack_with_an_unknown_chunk_is_refused() {
    let manifest = manifest_of(&[&[40]]);
    let mut remote = RemoteManifest::with_pack_size(100, manifest);
    remote.packs[0].chunks.push(77);
    match RemoteChunkProvider::new("base", &remote) {
        Err(Error::ChunkNotFound(id)) => assert_eq!(id, 77),
        Err(other) => panic!("expected an unknown chunk, got {:?}", other),
        Ok(_) => panic!("expected an unknown chunk"),
    }
}

#[test]
fn a_pack_too_long_for_an_offset_is_refused() {
    let manifest = manifest_of(&[&[u64::MAX, 1]]);
    let mut remote = RemoteManifest::with_pack_size(100, manifest);
    remote.packs[1].chunks = vec![1, 2];
    match RemoteChunkProvider::new("base", &remote) {
        Err(Error::Unspecified(_)) => {}
        Err(other) => panic!("expected an overflow, got {:?}", other),
        Ok(_) => panic!("expected an overflow"),
    }
}

#[test]
fn slicing_checks_the_pack_and_the_range() {
    let pack = vec![1u8, 2, 3, 4, 5];
    let info = |pack_length, offset, length| ChunkPackInfo { pack_id: 9, pack_length, offset, length };
    assert_eq!(slice_chunk(&pack, &info(5, 1, 3)).unwrap(), vec![2, 3, 4]);
    assert_eq!(slice_chunk(&pack, &info(5, 0, 5)).unwrap(), pack);
    assert_eq!(slice_chunk(&pack, &info(5, 5, 0)).unwrap(), Vec::<u8>::new());
    assert!(matches!(slice_chunk(&pack, &info(4, 1, 3)), Err(Error::Unspecified(_))));
    assert!(matches!(slice_chunk(&pack, &info(5, 3, 3)), Err(Error::Unspecified(_))));
    assert!(matches!(slice_chunk(&pack, &info(5, 6, 0)), Err(Error::Unspecified(_))));
    assert!(matches!(slice_chunk(&pack, &info(5, u64::MAX, 2)), Err(Error::Unspecified(_))));
}

#[test]
fn a_pack_is_the_bytes_of_its_chunks_in_order() {
    let mut source = Directory::new();
    source.put("a".to_string(), vec![1, 2, 3, 4, 5, 6]);
    source.put("b".to_string(), vec![7, 8, 9]);
    let chunk = |hash, offset, length| Chunk { hash, offset, length };
    let manifest = Manifest {
        files: vec![
            FileChunkInfo { path: "a".to_string(), chunks: vec![chunk(1, 0, 2), chunk(2, 2, 4)] },
            FileChunkInfo { path: "b".to_string(), chunks: vec![chunk(3, 0, 3)] },
        ],
    };
    let remote = RemoteManifest::with_pack_size(5, manifest);
    let lists: Vec<Vec<u64>> = remote.packs.iter().map(|pack| pack.chunks.clone()).collect();
    assert_eq!(lists, vec![vec![1], vec![2], vec![3]]);
    assert_eq!(publish(&source, &remote).unwrap(), vec![vec![1, 2], vec![3, 4, 5, 6], vec![7, 8, 9]]);

    let mut provider = binsync::BasicChunkProvider::new(&source, &remote.source);
    let all = binsync::Pack { hash: 0, length: 9, chunks: vec![3, 1, 2, 1] };
    assert_eq!(pack_contents(&mut provider, &all).unwrap(), vec![7, 8, 9, 1, 2, 3, 4, 5, 6, 1, 2]);
    let empty = binsync::Pack { hash: 0, length: 0, chunks: vec![] };
    assert_eq!(pack_contents(&mut provider, &empty).unwrap(), Vec::<u8>::new());
}

#[test]
fn publishing_fails_on_a_chunk_that_cannot_be_had() {
    let mut source = Directory::new();
    source.put("a".to_string(), vec![1, 2, 3]);
    let chunk = |hash, offset, length| Chunk { hash, offset, length };
    let manifest = Manifest {
        files: vec![FileChunkInfo { path: "a".to_string(), chunks: vec![chunk(1, 0, 2), chunk(2, 2, 4)] }],
    };
    let mut remote = RemoteManifest::with_pack_size(100, manifest);
    assert!(matches!(publish(&source, &remote), Err(Error::AccessDenied)));
    remote.packs[0].chunks = vec![1, 9];
    assert!(matches!(publish(&source, &remote), Err(Error::ChunkNotFound(9))));
    remote.packs[0].chunks = vec![1, 1];
    assert_eq!(publish(&source, &remote).unwrap(), vec![vec![1, 2, 1, 2]]);
}

#[test]
fn the_packs_of_a_manifest_can_always_be_indexed() {
    let mut source = Directory::new();
    source.put("a".to_string(), noise(700000, 51));
    source.put("b".to_string(), vec![0u8; 4 * 131072]);
    source.put("c".to_string(), Vec::new());
    for size in [1usize, 1000, 131072, 300000, 10_000_000] {
        let remote = RemoteManifest::with_pack_size(size, generate_manifest(&source));
        let provider = RemoteChunkProvider::new("http://host", &remote).unwrap();
        for file in &remote.source.files {
            for chunk in &file.chunks {
                assert_eq!(provider.chunk_map[&chunk.hash].length, chunk.length);
            }
        }
    }
}

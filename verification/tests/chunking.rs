use binsync::chunker::{chunk_file, cut, MAX_CHUNK, MIN_CHUNK};
use binsync::hash::chunk_id;

/// Bytes that look random and are the same on every run.
fn noise(len: usize, seed: u64) -> Vec<u8> {
    let mut state = seed.wrapping_mul(0x9e3779b97f4a7c15) | 1;
    let mut out = Vec::with_capacity(len);
    while out.len() < len {
        state ^= state >> 12;
        state ^= state << 25;
        state ^= state >> 27;
        let word = state.wrapping_mul(0x2545f4914f6cdd1d);
        for byte in word.to_le_bytes() {
            if out.len() < len {
                out.push(byte);
            }
        }
    }
    out
}

#[test]
fn chunk_id_of_empty_input() {
    // md5("") = d41d8cd98f00b204e9800998ecf8427e
    assert_eq!(chunk_id(&[]), 0x04b2008fd98c1dd4);
}

#[test]
fn chunk_id_of_abc() {
    // md5("abc") = 900150983cd24fb0d6963f7d28e17f72
    assert_eq!(chunk_id(b"abc"), 0xb04fd23c98500190);
}

#[test]
fn chunk_id_reads_little_endian() {
    // md5("a") = 0cc175b9c0f1b6a831c399e269772661
    assert_eq!(chunk_id(b"a"), 0xa8b6f1c0b975c10c);
}

#[test]
fn empty_file_has_no_chunks() {
    assert!(cut(&[]).is_empty());
    assert!(chunk_file(&[]).is_empty());
}

#[test]
fn file_smaller_than_min_chunk_is_one_chunk() {
    let data = noise(1000, 1);
    let chunks = chunk_file(&data);
    assert_eq!(chunks.len(), 1);
    assert_eq!(chunks[0].offset, 0);
    assert_eq!(chunks[0].length, 1000);
    assert_eq!(chunks[0].hash, chunk_id(&data));
}

#[test]
fn file_of_min_chunk_is_one_chunk() {
    let data = noise(MIN_CHUNK, 2);
    let chunks = chunk_file(&data);
    assert_eq!(chunks.len(), 1);
    assert_eq!(chunks[0].offset, 0);
    assert_eq!(chunks[0].length, MIN_CHUNK as u64);
}

#[test]
fn one_byte_is_one_chunk() {
    let chunks = chunk_file(&[42]);
    assert_eq!(chunks.len(), 1);
    assert_eq!((chunks[0].offset, chunks[0].length), (0, 1));
}

#[test]
fn chunks_lie_end_to_end_and_cover_the_file() {
    let data = noise(3 * 1048576 + 12345, 3);
    let chunks = chunk_file(&data);
    assert!(chunks.len() > 1);
    let mut expected_offset = 0u64;
    for chunk in &chunks {
        assert_eq!(chunk.offset, expected_offset);
        expected_offset += chunk.length;
    }
    assert_eq!(expected_offset, data.len() as u64);
}

#[test]
fn chunk_lengths_keep_to_the_limits() {
    let data = noise(4 * 1048576, 4);
    let cuts = cut(&data);
    assert!(cuts.len() >= 4 * 1048576 / MAX_CHUNK);
    for (i, (_, length)) in cuts.iter().enumerate() {
        assert!(*length >= 1);
        assert!(*length <= MAX_CHUNK);
        if i + 1 < cuts.len() {
            assert!(*length > MIN_CHUNK);
        }
    }
}

#[test]
fn chunks_carry_the_identifier_of_their_bytes() {
    let data = noise(1048576, 5);
    for chunk in chunk_file(&data) {
        let start = chunk.offset as usize;
        let end = start + chunk.length as usize;
        assert_eq!(chunk.hash, chunk_id(&data[start..end]));
    }
}

#[test]
fn chunking_is_repeatable() {
    let data = noise(2 * 1048576, 6);
    assert_eq!(chunk_file(&data), chunk_file(&data));
}

#[test]
fn chunks_put_together_are_the_file() {
    let data = noise(1048576 + 7, 7);
    let mut rebuilt = Vec::new();
    for chunk in chunk_file(&data) {
        let start = chunk.offset as usize;
        rebuilt.extend_from_slice(&data[start..start + chunk.length as usize]);
    }
    assert_eq!(rebuilt, data);
}

#[test]
fn a_run_of_zeros_is_cut_at_the_largest_size() {
    let data = vec![0u8; MAX_CHUNK + 1];
    let cuts = cut(&data);
    assert_eq!(cuts, vec![(0, MAX_CHUNK), (MAX_CHUNK, 1)]);
}

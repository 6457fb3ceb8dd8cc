//! Content-defined chunking with fixed parameters.
//!
//! The cut points come from FastCDC. The three sizes below are part of the
//! format: two parties agree on a manifest only if they cut with the same
//! sizes.

use crate::chunk::{
    contiguous, covers, lemma_offset_is_prefix_length, start_of, total_length, Chunk,
};
use crate::hash::{chunk_id, spec_chunk_id};
use vstd::prelude::*;
use vstd::slice::slice_subrange;

verus! {

/// No chunk but the last of a file is this short or shorter.
pub const MIN_CHUNK: usize = 32768;

/// The size the chunker aims at.
pub const AVG_CHUNK: usize = 65536;

/// No chunk is longer than this.
pub const MAX_CHUNK: usize = 131072;

/// The records that the FastCDC iterator yields for `data` with the given
/// sizes, each as offset and length.
pub uninterp spec fn fastcdc_cuts(
    data: Seq<u8>,
    min_size: usize,
    avg_size: usize,
    max_size: usize,
) -> Seq<(usize, usize)>;

/// Where the record at index `i` has to start: at zero if it is the first,
/// else where the record before it ends.
pub open spec fn cut_start(cuts: Seq<(usize, usize)>, i: int) -> int {
    if i == 0 {
        0
    } else {
        cuts[i - 1].0 + cuts[i - 1].1
    }
}

/// The records follow one another without gap from offset zero, none is empty,
/// and together they cover `len` bytes.
pub open spec fn cuts_cover(cuts: Seq<(usize, usize)>, len: nat) -> bool {
    &&& forall|i: int| 0 <= i < cuts.len() ==> (#[trigger] cuts[i]).1 >= 1
    &&& forall|i: int| 0 <= i < cuts.len() ==> cuts[i].0 == #[trigger] cut_start(cuts, i)
    &&& if cuts.len() == 0 {
        len == 0
    } else {
        cuts.last().0 + cuts.last().1 == len
    }
}

/// No record is longer than `max_size`, and every record but the last is
/// longer than `min_size`.
pub open spec fn cuts_sized(cuts: Seq<(usize, usize)>, min_size: usize, max_size: usize) -> bool {
    &&& forall|i: int| 0 <= i < cuts.len() ==> (#[trigger] cuts[i]).1 <= max_size
    &&& forall|i: int| 0 <= i < cuts.len() - 1 ==> (#[trigger] cuts[i]).1 > min_size
}

/// Runs `fastcdc::FastCDC::new(data, min_size, avg_size, max_size)` to its end
/// and collects offset and length of each record.
///
/// The contract names the result and adds what the iterator's source shows for
/// a chunker made by `new`, which treats `data` as the whole input: each record
/// starts where the one before it ended, the first at zero; a record is cut
/// only while bytes remain and takes at least one of them, and the iterator
/// stops only when none remain; a record cut from more than `min_size`
/// remaining bytes is longer than `min_size` and at most `max_size` long, and
/// one cut from `min_size` bytes or fewer takes them all. The bounds required
/// of the sizes are those that `new` asserts.
#[verifier::external_body]
fn fastcdc_split(data: &[u8], min_size: usize, avg_size: usize, max_size: usize) -> (cuts: Vec<
    (usize, usize),
>)
    requires
        64 <= min_size <= 67_108_864,
        256 <= avg_size <= 268_435_456,
        1024 <= max_size <= 1_073_741_824,
        min_size < max_size,
    ensures
        cuts@ == fastcdc_cuts(data@, min_size, avg_size, max_size),
        cuts_cover(cuts@, data@.len()),
        cuts_sized(cuts@, min_size, max_size),
{
    fastcdc::FastCDC::new(data, min_size, avg_size, max_size).map(|c| (c.offset, c.length)).collect()
}

/// The cut points of `data` under the fixed sizes.
pub open spec fn spec_cuts(data: Seq<u8>) -> Seq<(usize, usize)> {
    fastcdc_cuts(data, MIN_CHUNK, AVG_CHUNK, MAX_CHUNK)
}

/// Cuts `data` into ranges under the fixed sizes.
pub fn cut(data: &[u8]) -> (cuts: Vec<(usize, usize)>)
    ensures
        cuts@ == spec_cuts(data@),
        cuts_cover(cuts@, data@.len()),
        cuts_sized(cuts@, MIN_CHUNK, MAX_CHUNK),
{
    fastcdc_split(data, MIN_CHUNK, AVG_CHUNK, MAX_CHUNK)
}

/// Every record of a covering sequence ends within the bytes covered.
pub proof fn lemma_cut_in_bounds(cuts: Seq<(usize, usize)>, len: nat, i: int)
    requires
        cuts_cover(cuts, len),
        0 <= i < cuts.len(),
    ensures
        cuts[i].0 + cuts[i].1 <= len,
    decreases cuts.len() - i,
{
    if i < cuts.len() - 1 {
        lemma_cut_in_bounds(cuts, len, i + 1);
        assert(cuts[i + 1].0 == cut_start(cuts, i + 1));
    }
}

/// A file of at most [`MIN_CHUNK`] bytes, unless it is empty, is a single
/// chunk.
pub proof fn lemma_small_file_is_one_chunk(cuts: Seq<(usize, usize)>, len: nat)
    requires
        cuts_cover(cuts, len),
        cuts_sized(cuts, MIN_CHUNK, MAX_CHUNK),
        0 < len <= MIN_CHUNK,
    ensures
        cuts.len() == 1,
        cuts[0] == (0usize, len as usize),
{
    if cuts.len() > 1 {
        lemma_cut_in_bounds(cuts, len, 0);
        assert(cuts[0].1 > MIN_CHUNK);
    }
    assert(cuts[0].0 == cut_start(cuts, 0));
}

/// An empty file has no chunks.
pub proof fn lemma_empty_file_has_no_chunk(cuts: Seq<(usize, usize)>)
    requires
        cuts_cover(cuts, 0),
    ensures
        cuts.len() == 0,
{
    if cuts.len() > 0 {
        lemma_cut_in_bounds(cuts, 0, 0);
    }
}

/// The chunk that a record of `data` becomes: the record's range, identified
/// by the bytes in it.
pub open spec fn chunk_of(data: Seq<u8>, cut: (usize, usize)) -> Chunk {
    Chunk {
        hash: spec_chunk_id(data.subrange(cut.0 as int, cut.0 + cut.1)),
        offset: cut.0 as u64,
        length: cut.1 as u64,
    }
}

/// The chunks of a file with contents `data`.
pub open spec fn spec_chunks(data: Seq<u8>) -> Seq<Chunk> {
    Seq::new(spec_cuts(data).len(), |i: int| chunk_of(data, spec_cuts(data)[i]))
}

/// No chunk is empty or longer than [`MAX_CHUNK`], and every chunk but the
/// last is longer than [`MIN_CHUNK`].
pub open spec fn sized(chunks: Seq<Chunk>) -> bool {
    &&& forall|i: int| 0 <= i < chunks.len() ==> 1 <= (#[trigger] chunks[i]).length <= MAX_CHUNK
    &&& forall|i: int| 0 <= i < chunks.len() - 1 ==> (#[trigger] chunks[i]).length > MIN_CHUNK
}

/// The chunks of a file keep to the size limits, an empty file has none, and
/// a file of at most [`MIN_CHUNK`] bytes is a single chunk that spans it.
pub proof fn lemma_chunks_are_sized(data: Seq<u8>)
    requires
        cuts_cover(spec_cuts(data), data.len()),
        cuts_sized(spec_cuts(data), MIN_CHUNK, MAX_CHUNK),
    ensures
        sized(spec_chunks(data)),
        data.len() == 0 ==> spec_chunks(data).len() == 0,
        0 < data.len() <= MIN_CHUNK ==> spec_chunks(data).len() == 1 && spec_chunks(data)[0]
            == (Chunk { hash: spec_chunk_id(data), offset: 0, length: data.len() as u64 }),
{
    let cuts = spec_cuts(data);
    let chunks = spec_chunks(data);
    assert forall|i: int| 0 <= i < chunks.len() implies 1 <= (#[trigger] chunks[i]).length
        <= MAX_CHUNK by {
        assert(cuts[i].1 >= 1);
    }
    assert forall|i: int| 0 <= i < chunks.len() - 1 implies (#[trigger] chunks[i]).length
        > MIN_CHUNK by {
        assert(cuts[i].1 > MIN_CHUNK);
    }
    if data.len() == 0 {
        lemma_empty_file_has_no_chunk(cuts);
    } else if data.len() <= MIN_CHUNK {
        lemma_small_file_is_one_chunk(cuts, data.len());
        assert(data.subrange(0, data.len() as int) =~= data);
    }
}

/// Each chunk carries the identifier of the bytes of `data` in its range.
pub open spec fn identifies(chunks: Seq<Chunk>, data: Seq<u8>) -> bool {
    forall|i: int|
        0 <= i < chunks.len() ==> (#[trigger] chunks[i]).hash == spec_chunk_id(
            data.subrange(chunks[i].offset as int, chunks[i].offset + chunks[i].length),
        )
}

/// The chunks made from a covering sequence of records lie end to end and make
/// up the bytes covered.
pub proof fn lemma_chunks_cover(data: Seq<u8>, cuts: Seq<(usize, usize)>, chunks: Seq<Chunk>)
    requires
        cuts_cover(cuts, data.len()),
        chunks.len() == cuts.len(),
        forall|i: int| 0 <= i < cuts.len() ==> #[trigger] chunks[i] == chunk_of(data, cuts[i]),
    ensures
        covers(chunks, data.len()),
        identifies(chunks, data),
        forall|i: int|
            0 <= i < chunks.len() ==> (#[trigger] chunks[i]).offset + chunks[i].length
                <= data.len(),
{
    assert forall|i: int| 0 <= i < chunks.len() implies chunks[i].offset == #[trigger] start_of(
        chunks,
        i,
    ) && chunks[i].offset + chunks[i].length <= data.len() by {
        lemma_cut_in_bounds(cuts, data.len(), i);
        assert(chunks[i] == chunk_of(data, cuts[i]));
        assert(cuts[i].0 == cut_start(cuts, i));
        if i > 0 {
            lemma_cut_in_bounds(cuts, data.len(), i - 1);
            assert(chunks[i - 1] == chunk_of(data, cuts[i - 1]));
        }
    }
    assert forall|i: int| 0 <= i < chunks.len() implies (#[trigger] chunks[i]).offset
        + chunks[i].length <= data.len() by {
        assert(chunks[i].offset == start_of(chunks, i));
    }
    assert(contiguous(chunks));
    if chunks.len() == 0 {
        assert(total_length(chunks) == 0);
    } else {
        let last = chunks.len() - 1;
        lemma_offset_is_prefix_length(chunks, last);
        assert(chunks.take(last + 1) =~= chunks);
        assert(chunks[last] == chunk_of(data, cuts[last]));
    }
    assert forall|i: int| 0 <= i < chunks.len() implies (#[trigger] chunks[i]).hash
        == spec_chunk_id(
        data.subrange(chunks[i].offset as int, chunks[i].offset + chunks[i].length),
    ) by {
        assert(chunks[i] == chunk_of(data, cuts[i]));
    }
}

/// Cuts a file's contents into chunks and identifies each.
///
/// The chunks lie end to end from offset zero and their lengths add up to the
/// length of `data`. No chunk is empty or longer than [`MAX_CHUNK`], and every
/// chunk but the last is longer than [`MIN_CHUNK`]. An empty file has no
/// chunks; a file of at most [`MIN_CHUNK`] bytes is a single chunk.
pub fn chunk_file(data: &[u8]) -> (chunks: Vec<Chunk>)
    ensures
        chunks@ == spec_chunks(data@),
        covers(chunks@, data@.len()),
        identifies(chunks@, data@),
        cuts_cover(spec_cuts(data@), data@.len()),
        cuts_sized(spec_cuts(data@), MIN_CHUNK, MAX_CHUNK),
        sized(chunks@),
        data@.len() == 0 ==> chunks@.len() == 0,
        0 < data@.len() <= MIN_CHUNK ==> chunks@.len() == 1 && chunks@[0].offset == 0
            && chunks@[0].length == data@.len(),
{
    let cuts = cut(data);
    let size: usize = data.len();
    let mut chunks: Vec<Chunk> = Vec::new();
    let mut i: usize = 0;
    while i < cuts.len()
        invariant
            i <= cuts.len(),
            size == data@.len(),
            cuts@ == spec_cuts(data@),
            cuts_cover(cuts@, data@.len()),
            chunks@.len() == i,
            forall|j: int| 0 <= j < i ==> #[trigger] chunks@[j] == chunk_of(data@, cuts@[j]),
        decreases cuts.len() - i,
    {
        let offset: usize = cuts[i].0;
        let length: usize = cuts[i].1;
        proof {
            lemma_cut_in_bounds(cuts@, data@.len(), i as int);
        }
        let bytes = slice_subrange(data, offset, offset + length);
        let hash: u64 = chunk_id(bytes);
        chunks.push(Chunk { hash, offset: offset as u64, length: length as u64 });
        i += 1;
    }
    proof {
        lemma_chunks_cover(data@, cuts@, chunks@);
        assert(chunks@ =~= spec_chunks(data@));
        if data@.len() == 0 {
            lemma_empty_file_has_no_chunk(cuts@);
        } else if data@.len() <= MIN_CHUNK {
            lemma_small_file_is_one_chunk(cuts@, data@.len());
        }
    }
    chunks
}

} // verus!

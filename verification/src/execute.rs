//! The executor: carrying out the operations planned for one file.
//!
//! A file is rewritten in place. First the ranges that the copy operations
//! read are loaded from the file as it is, because the writes that follow may
//! overwrite them. Then the operations are carried out in order from the start
//! of the file, and at the end the file is cut off at the write cursor.

use crate::chunk::{Chunk, Operation};
use crate::error::Error;
use std::collections::HashMap;
use vstd::prelude::*;
use vstd::slice::{slice_subrange, slice_to_vec};

verus! {

/// A file that is being rewritten, as plain values: its bytes and the write
/// cursor.
pub struct Rewrite {
    pub buffer: Seq<u8>,
    pub position: nat,
}

/// `n` zero bytes.
pub open spec fn zeros(n: nat) -> Seq<u8> {
    Seq::new(n, |i: int| 0u8)
}

/// The bytes of a file grown with zeros to at least `length` bytes.
pub open spec fn padded(buffer: Seq<u8>, length: nat) -> Seq<u8> {
    if length > buffer.len() {
        buffer + zeros((length - buffer.len()) as nat)
    } else {
        buffer
    }
}

/// The bytes of `buffer` from `start` on, none if it is shorter.
pub open spec fn tail_from(buffer: Seq<u8>, start: nat) -> Seq<u8> {
    if start < buffer.len() {
        buffer.skip(start as int)
    } else {
        Seq::empty()
    }
}

/// Writing `data` at the cursor: the bytes replace what the file holds there
/// and lengthen the file where they reach beyond its end; a gap between the
/// end of the file and the cursor fills with zeros. The cursor moves behind
/// the bytes written. Writing nothing changes nothing.
pub open spec fn spec_write(state: Rewrite, data: Seq<u8>) -> Rewrite {
    if data.len() == 0 {
        state
    } else {
        let before = padded(state.buffer, state.position);
        let end = state.position + data.len();
        Rewrite {
            buffer: before.take(state.position as int) + data + tail_from(before, end),
            position: end,
        }
    }
}

/// Moving the cursor by `delta`. It cannot move before the start of the file
/// nor beyond what an offset can hold.
pub open spec fn spec_seek(state: Rewrite, delta: i64) -> Option<Rewrite> {
    if 0 <= state.position + delta <= usize::MAX {
        Some(Rewrite { buffer: state.buffer, position: (state.position + delta) as nat })
    } else {
        None
    }
}

/// The file when the rewrite ends: cut off at the cursor, or grown with zeros
/// up to it.
pub open spec fn spec_finish(state: Rewrite) -> Seq<u8> {
    padded(state.buffer, state.position).take(state.position as int)
}

/// Whether `data` can be written at the cursor of `state` without the cursor
/// leaving the range of offsets.
pub open spec fn fits(state: Rewrite, data: Seq<u8>) -> bool {
    state.position + data.len() <= usize::MAX
}

/// One operation carried out on `state`, with the copy sources `copies` and a
/// provider that hands out the chunks `catalog`. `None` where the operation
/// cannot be carried out: a seek out of range, a copy whose source was not
/// loaded, a fetch of a chunk the catalog lacks or holds with another length
/// than planned, a write that does not fit.
pub open spec fn spec_step(
    state: Rewrite,
    copies: Map<u64, Seq<u8>>,
    catalog: Map<u64, Seq<u8>>,
    operation: Operation,
) -> Option<Rewrite> {
    match operation {
        Operation::Seek(delta) => spec_seek(state, delta),
        Operation::Copy(chunk) => if copies.contains_key(chunk.hash) && fits(
            state,
            copies[chunk.hash],
        ) {
            Some(spec_write(state, copies[chunk.hash]))
        } else {
            None
        },
        Operation::Fetch(chunk) => if catalog.contains_key(chunk.hash)
            && catalog[chunk.hash].len() == chunk.length && fits(state, catalog[chunk.hash]) {
            Some(spec_write(state, catalog[chunk.hash]))
        } else {
            None
        },
    }
}

/// The operations carried out in order, starting from `state`.
pub open spec fn spec_run(
    state: Rewrite,
    copies: Map<u64, Seq<u8>>,
    catalog: Map<u64, Seq<u8>>,
    operations: Seq<Operation>,
) -> Option<Rewrite>
    decreases operations.len(),
{
    if operations.len() == 0 {
        Some(state)
    } else {
        match spec_run(state, copies, catalog, operations.drop_last()) {
            Some(reached) => spec_step(reached, copies, catalog, operations.last()),
            None => None,
        }
    }
}

/// The copy sources of `operations`: for each copy operation the bytes that
/// `existing` holds in the operation's range, by identifier. `None` if one of
/// the ranges reaches beyond the end of `existing`.
pub open spec fn spec_copies(existing: Seq<u8>, operations: Seq<Operation>) -> Option<
    Map<u64, Seq<u8>>,
>
    decreases operations.len(),
{
    if operations.len() == 0 {
        Some(Map::empty())
    } else {
        match spec_copies(existing, operations.drop_last()) {
            Some(copies) => match operations.last() {
                Operation::Copy(chunk) => if chunk.offset + chunk.length <= existing.len() {
                    Some(
                        copies.insert(
                            chunk.hash,
                            existing.subrange(
                                chunk.offset as int,
                                chunk.offset + chunk.length,
                            ),
                        ),
                    )
                } else {
                    None
                },
                _ => Some(copies),
            },
            None => None,
        }
    }
}

/// The file that `operations` make of a file with the bytes `existing`, with
/// a provider that hands out the chunks `catalog`. `None` where the rewrite
/// cannot be carried out.
pub open spec fn spec_rewrite(
    existing: Seq<u8>,
    operations: Seq<Operation>,
    catalog: Map<u64, Seq<u8>>,
) -> Option<Seq<u8>> {
    match spec_copies(existing, operations) {
        Some(copies) => match spec_run(
            Rewrite { buffer: existing, position: 0 },
            copies,
            catalog,
            operations,
        ) {
            Some(reached) => Some(spec_finish(reached)),
            None => None,
        },
        None => None,
    }
}

/// None of the operations fetches a chunk.
pub open spec fn fetches_nothing(operations: Seq<Operation>) -> bool {
    forall|i: int| 0 <= i < operations.len() ==> !((#[trigger] operations[i]) is Fetch)
}

/// The progress after `done` of `total` operations, in percent, rounded down.
/// With no operations in all, the progress is zero before the first operation
/// and the largest number afterwards.
pub open spec fn spec_percent(done: nat, total: nat) -> nat {
    if total == 0 {
        if done == 0 {
            0
        } else {
            u32::MAX as nat
        }
    } else if done * 100 / total > u32::MAX {
        u32::MAX as nat
    } else {
        done * 100 / total
    }
}

/// Computes the progress after `done` of `total` operations.
pub fn progress_percent(done: u64, total: u32) -> (percent: u32)
    ensures
        percent == spec_percent(done as nat, total as nat),
        0 < total && done <= total ==> percent <= 100,
{
    if total == 0 {
        if done == 0 {
            0
        } else {
            u32::MAX
        }
    } else {
        let scaled: u128 = done as u128 * 100;
        let percent: u128 = scaled / total as u128;
        proof {
            if done <= total {
                assert(done * 100 / (total as int) <= 100) by (nonlinear_arith)
                    requires
                        0 < total,
                        0 <= done <= total,
                ;
            }
        }
        if percent > u32::MAX as u128 {
            u32::MAX
        } else {
            percent as u32
        }
    }
}

/// A destination file during its rewrite.
pub struct FileWriter {
    /// The bytes of the file as they are now.
    pub buffer: Vec<u8>,
    /// The write cursor.
    pub position: usize,
    /// The bytes that the copy operations write, by identifier.
    pub copies: HashMap<u64, Vec<u8>>,
}

/// The contents of loaded copy sources as plain values.
pub open spec fn copies_view(copies: Map<u64, Vec<u8>>) -> Map<u64, Seq<u8>> {
    Map::new(|key: u64| copies.contains_key(key), |key: u64| copies[key]@)
}

impl View for FileWriter {
    type V = Rewrite;

    open spec fn view(&self) -> Rewrite {
        Rewrite { buffer: self.buffer@, position: self.position as nat }
    }
}

impl FileWriter {
    /// The copy sources that the writer has loaded.
    pub open spec fn loaded(&self) -> Map<u64, Seq<u8>> {
        copies_view(self.copies@)
    }

    /// Opens a file with the bytes `existing` for the rewrite that
    /// `operations` describe, and loads the range of every copy operation.
    ///
    /// Fails with [`Error::IOError`] if one of the ranges reaches beyond the
    /// end of the file.
    pub fn open(existing: Vec<u8>, operations: &Vec<Operation>) -> (opened: Result<
        FileWriter,
        Error,
    >)
        ensures
            match opened {
                Ok(writer) => spec_copies(existing@, operations@) == Some(writer.loaded())
                    && writer@ == (Rewrite { buffer: existing@, position: 0 }),
                Err(error) => error is IOError && spec_copies(existing@, operations@) is None,
            },
    {
        let mut copies: HashMap<u64, Vec<u8>> = HashMap::new();
        let mut i: usize = 0;
        proof {
            assert(operations@.take(0) =~= Seq::<Operation>::empty());
            assert(copies_view(copies@) =~= Map::<u64, Seq<u8>>::empty());
        }
        while i < operations.len()
            invariant
                i <= operations@.len(),
                spec_copies(existing@, operations@.take(i as int)) == Some(copies_view(copies@)),
            decreases operations@.len() - i,
        {
            proof {
                assert(operations@.take(i + 1).drop_last() =~= operations@.take(i as int));
                assert(operations@.take(i + 1).last() == operations@[i as int]);
            }
            if let Operation::Copy(chunk) = operations[i] {
                let size: u64 = existing.len() as u64;
                if chunk.offset > size || chunk.length > size - chunk.offset {
                    proof {
                        lemma_copies_fail(existing@, operations@, i + 1);
                    }
                    return Err(Error::IOError("failed to fill whole buffer".to_string()));
                }
                let start: usize = chunk.offset as usize;
                let end: usize = (chunk.offset + chunk.length) as usize;
                let data = slice_to_vec(slice_subrange(existing.as_slice(), start, end));
                let ghost before = copies_view(copies@);
                copies.insert(chunk.hash, data);
                assert(copies_view(copies@) =~= before.insert(chunk.hash, data@));
            }
            i += 1;
        }
        proof {
            assert(operations@.take(i as int) =~= operations@);
        }
        Ok(FileWriter { buffer: existing, position: 0, copies })
    }

    /// Moves the cursor by `delta` bytes.
    ///
    /// Fails with [`Error::AccessDenied`] if the cursor would come to lie
    /// before the start of the file or beyond the range of offsets.
    pub fn seek(&mut self, delta: i64) -> (moved: Result<(), Error>)
        ensures
            final(self).copies == old(self).copies,
            match moved {
                Ok(_) => spec_seek(old(self)@, delta) == Some(final(self)@),
                Err(error) => error is AccessDenied && spec_seek(old(self)@, delta) is None
                    && final(self)@ == old(self)@,
            },
    {
        let target: i128 = self.position as i128 + delta as i128;
        if target < 0 || target > usize::MAX as i128 {
            return Err(Error::AccessDenied);
        }
        self.position = target as usize;
        Ok(())
    }

    /// Writes `data` at the cursor.
    ///
    /// Fails with [`Error::AccessDenied`] if the bytes would reach beyond the
    /// range of offsets.
    pub fn write(&mut self, data: &[u8]) -> (written: Result<(), Error>)
        ensures
            final(self).copies == old(self).copies,
            match written {
                Ok(_) => fits(old(self)@, data@) && final(self)@ == spec_write(old(self)@, data@),
                Err(error) => error is AccessDenied && !fits(old(self)@, data@) && final(self)@
                    == old(self)@,
            },
    {
        if data.len() > usize::MAX - self.position {
            return Err(Error::AccessDenied);
        }
        if data.len() == 0 {
            return Ok(());
        }
        let ghost start = self@;
        let ghost before = padded(start.buffer, start.position);
        while self.buffer.len() < self.position
            invariant
                self.position == start.position,
                self.copies == old(self).copies,
                self.buffer@.len() <= self.position || self.buffer@ == start.buffer,
                self.buffer@ == padded(start.buffer, self.buffer@.len() as nat),
            decreases self.position - self.buffer@.len(),
        {
            let ghost grown = self.buffer@;
            self.buffer.push(0);
            assert(self.buffer@ =~= padded(start.buffer, self.buffer@.len() as nat));
        }
        assert(self.buffer@ =~= before);
        let position: usize = self.position;
        let mut i: usize = 0;
        assert(self.buffer@ =~= before.take(position as int) + data@.take(0) + tail_from(
            before,
            position as nat,
        ));
        while i < data.len()
            invariant
                i <= data@.len(),
                position == start.position,
                position <= before.len(),
                position + data@.len() <= usize::MAX,
                self.position == position,
                self.copies == old(self).copies,
                self.buffer@ == before.take(position as int) + data@.take(i as int) + tail_from(
                    before,
                    (position + i) as nat,
                ),
            decreases data@.len() - i,
        {
            let ghost held = self.buffer@;
            if position + i < self.buffer.len() {
                self.buffer.set(position + i, data[i]);
            } else {
                self.buffer.push(data[i]);
            }
            i += 1;
            assert(self.buffer@ =~= before.take(position as int) + data@.take(i as int)
                + tail_from(before, (position + i) as nat));
        }
        self.position = position + data.len();
        assert(data@.take(i as int) =~= data@);
        Ok(())
    }

    /// Carries out a copy operation: writes the bytes loaded for `chunk`.
    ///
    /// Fails with [`Error::ChunkNotFound`] if no bytes were loaded under the
    /// chunk's identifier.
    pub fn write_copy(&mut self, chunk: &Chunk) -> (written: Result<(), Error>)
        ensures
            final(self).copies == old(self).copies,
            match written {
                Ok(_) => spec_step(
                    old(self)@,
                    old(self).loaded(),
                    Map::empty(),
                    Operation::Copy(*chunk),
                ) == Some(final(self)@),
                Err(error) => {
                    &&& final(self)@ == old(self)@
                    &&& if old(self).loaded().contains_key(chunk.hash) {
                        error is AccessDenied && !fits(old(self)@, old(self).loaded()[chunk.hash])
                    } else {
                        error == Error::ChunkNotFound(chunk.hash)
                    }
                },
            },
    {
        let mut taken: Vec<u8> = Vec::new();
        match self.copies.get(&chunk.hash) {
            Some(data) => {
                taken = slice_to_vec(data.as_slice());
            },
            None => {
                return Err(Error::ChunkNotFound(chunk.hash));
            },
        }
        self.write(taken.as_slice())
    }

    /// Carries out a fetch operation with the bytes `data` that the provider
    /// handed out for `chunk`.
    ///
    /// Fails with [`Error::Unspecified`] if `data` is not as long as the
    /// chunk.
    pub fn write_fetched(&mut self, chunk: &Chunk, data: &Vec<u8>) -> (written: Result<(), Error>)
        ensures
            final(self).copies == old(self).copies,
            match written {
                Ok(_) => data@.len() == chunk.length && fits(old(self)@, data@) && final(self)@
                    == spec_write(old(self)@, data@),
                Err(error) => {
                    &&& final(self)@ == old(self)@
                    &&& if data@.len() == chunk.length {
                        error is AccessDenied && !fits(old(self)@, data@)
                    } else {
                        error is Unspecified
                    }
                },
            },
    {
        if data.len() as u64 != chunk.length {
            return Err(
                Error::Unspecified("the provider returned a chunk of the wrong length".to_string()),
            );
        }
        self.write(data.as_slice())
    }

    /// Ends the rewrite: cuts the file off at the cursor, or grows it with
    /// zeros up to the cursor, and hands it out.
    pub fn finish(self) -> (contents: Vec<u8>)
        ensures
            contents@ == spec_finish(self@),
    {
        let mut buffer = self.buffer;
        let position: usize = self.position;
        if buffer.len() > position {
            buffer.truncate(position);
        } else {
            let ghost start = buffer@;
            while buffer.len() < position
                invariant
                    buffer@.len() <= position || buffer@ == start,
                    buffer@ == padded(start, buffer@.len() as nat),
                decreases position - buffer@.len(),
            {
                buffer.push(0);
                assert(buffer@ =~= padded(start, buffer@.len() as nat));
            }
        }
        assert(buffer@ =~= spec_finish(self@));
        buffer
    }
}

/// Once a copy source cannot be loaded, the copy sources of a longer list of
/// operations cannot be loaded either.
pub proof fn lemma_copies_fail(existing: Seq<u8>, operations: Seq<Operation>, n: int)
    requires
        0 <= n <= operations.len(),
        spec_copies(existing, operations.take(n)) is None,
    ensures
        spec_copies(existing, operations) is None,
    decreases operations.len(),
{
    if n == operations.len() {
        assert(operations.take(n) =~= operations);
    } else {
        assert(operations.drop_last().take(n) =~= operations.take(n));
        lemma_copies_fail(existing, operations.drop_last(), n);
    }
}

/// Once an operation cannot be carried out, a longer list of operations
/// cannot be carried out either.
pub proof fn lemma_run_fails(
    state: Rewrite,
    copies: Map<u64, Seq<u8>>,
    catalog: Map<u64, Seq<u8>>,
    operations: Seq<Operation>,
    n: int,
)
    requires
        0 <= n <= operations.len(),
        spec_run(state, copies, catalog, operations.take(n)) is None,
    ensures
        spec_run(state, copies, catalog, operations) is None,
    decreases operations.len(),
{
    if n == operations.len() {
        assert(operations.take(n) =~= operations);
    } else {
        assert(operations.drop_last().take(n) =~= operations.take(n));
        lemma_run_fails(state, copies, catalog, operations.drop_last(), n);
    }
}

} // verus!

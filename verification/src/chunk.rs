//! The data model shared by the manifest, the planner and the executor.

use crate::error::Error;
use vstd::prelude::*;

verus! {

/// A contiguous byte range of a file together with the identifier of its
/// contents.
#[derive(Clone, Copy, Debug, PartialEq, Eq, Structural)]
pub struct Chunk {
    pub hash: u64,
    pub offset: u64,
    pub length: u64,
}

impl Chunk {
    /// Whether the chunk covers exactly the range that starts at `offset` and
    /// is `length` bytes long.
    pub open spec fn spec_is_at(self, offset: usize, length: usize) -> bool {
        self.offset == offset && self.length == length
    }

    /// Compares the chunk's range with a range found by the chunker. The
    /// identifier plays no part.
    #[verifier::when_used_as_spec(spec_is_at)]
    pub fn is_at(self, offset: usize, length: usize) -> (same: bool)
        ensures
            same == self.spec_is_at(offset, length),
    {
        self.offset == offset as u64 && self.length == length as u64
    }
}

/// The sum of the lengths of `chunks`.
pub open spec fn total_length(chunks: Seq<Chunk>) -> nat
    decreases chunks.len(),
{
    if chunks.len() == 0 {
        0
    } else {
        total_length(chunks.drop_last()) + chunks.last().length as nat
    }
}

/// Where the chunk at index `i` has to start: at zero if it is the first, else
/// where the chunk before it ends.
pub open spec fn start_of(chunks: Seq<Chunk>, i: int) -> int {
    if i == 0 {
        0
    } else {
        chunks[i - 1].offset + chunks[i - 1].length
    }
}

/// Each chunk starts where the one before it ended, the first at offset zero.
pub open spec fn contiguous(chunks: Seq<Chunk>) -> bool {
    forall|i: int| 0 <= i < chunks.len() ==> chunks[i].offset == #[trigger] start_of(chunks, i)
}

/// The chunks lie end to end and make up exactly `len` bytes.
pub open spec fn covers(chunks: Seq<Chunk>, len: nat) -> bool {
    contiguous(chunks) && total_length(chunks) == len
}

/// In a contiguous sequence the offset of a chunk is the total length of the
/// chunks before it.
pub proof fn lemma_offset_is_prefix_length(chunks: Seq<Chunk>, i: int)
    requires
        contiguous(chunks),
        0 <= i < chunks.len(),
    ensures
        chunks[i].offset == total_length(chunks.take(i)),
        chunks[i].offset + chunks[i].length == total_length(chunks.take(i + 1)),
    decreases i,
{
    assert(chunks.take(i + 1).drop_last() =~= chunks.take(i));
    assert(chunks.take(i + 1).last() == chunks[i]);
    assert(chunks[i].offset == start_of(chunks, i));
    if i == 0 {
        assert(chunks.take(0).len() == 0);
    } else {
        lemma_offset_is_prefix_length(chunks, i - 1);
    }
}

/// The total length of a sequence of chunks is that of a first part plus that
/// of the rest.
pub proof fn lemma_total_length_split(chunks: Seq<Chunk>, at: int)
    requires
        0 <= at <= chunks.len(),
    ensures
        total_length(chunks) == total_length(chunks.take(at)) + total_length(chunks.skip(at)),
    decreases chunks.len(),
{
    if at == chunks.len() {
        assert(chunks.take(at) =~= chunks);
        assert(chunks.skip(at).len() == 0);
    } else {
        lemma_total_length_split(chunks.drop_last(), at);
        assert(chunks.drop_last().take(at) =~= chunks.take(at));
        assert(chunks.skip(at).drop_last() =~= chunks.drop_last().skip(at));
        assert(chunks.skip(at).last() == chunks.last());
    }
}

/// Name and location of a single file. `directory` is the file's path relative
/// to the root it was listed under; `name` is its last component.
#[derive(Clone, Debug)]
pub struct FileInfo {
    pub name: String,
    pub directory: String,
}

/// A list of files below one root.
#[derive(Clone, Debug)]
pub struct FileList {
    pub files: Vec<FileInfo>,
}

/// One step of the program that rewrites a destination file.
#[derive(Clone, Copy, Debug, PartialEq, Eq, Structural)]
pub enum Operation {
    /// Move the write cursor by this many bytes without writing. The bytes
    /// passed over are already in place.
    Seek(i64),
    /// Write the bytes that the destination file held in this range before the
    /// rewrite began.
    Copy(Chunk),
    /// Write the bytes of this chunk as the provider hands them out.
    Fetch(Chunk),
}

impl Operation {
    /// Whether the operation writes anything.
    pub open spec fn spec_writes(self) -> bool {
        !(self is Seek)
    }

    /// Whether the operation writes anything. A file whose operations write
    /// nothing is already in sync.
    #[verifier::when_used_as_spec(spec_writes)]
    pub fn writes(self) -> (w: bool)
        ensures
            w == self.spec_writes(),
    {
        match self {
            Operation::Seek(_) => false,
            Operation::Copy(_) => true,
            Operation::Fetch(_) => true,
        }
    }
}

/// The operations planned for one file as plain values: what an entry of a
/// [`SyncPlan`] stands for.
pub struct FilePlan {
    pub path: Seq<char>,
    pub operations: Seq<Operation>,
}

/// What has to be done to a destination so that it matches a manifest.
#[derive(Debug)]
pub struct SyncPlan {
    /// The files that have to be rewritten, each with its operations, in the
    /// order in which they are to be carried out.
    pub operations: Vec<(String, Vec<Operation>)>,
    /// The number of operations in the plan.
    pub total_ops: u32,
}

/// The file plans that a sequence of entries stands for.
pub open spec fn file_plans(entries: Seq<(String, Vec<Operation>)>) -> Seq<FilePlan> {
    Seq::new(entries.len(), |i: int| FilePlan { path: entries[i].0@, operations: entries[i].1@ })
}

impl View for SyncPlan {
    type V = Seq<FilePlan>;

    open spec fn view(&self) -> Seq<FilePlan> {
        file_plans(self.operations@)
    }
}

/// The number of bytes that the fetch operations among `operations` ask for.
pub open spec fn fetch_bytes(operations: Seq<Operation>) -> nat
    decreases operations.len(),
{
    if operations.len() == 0 {
        0
    } else {
        fetch_bytes(operations.drop_last()) + match operations.last() {
            Operation::Fetch(chunk) => chunk.length as nat,
            _ => 0,
        }
    }
}

/// The number of bytes that the fetch operations of `plan` ask for.
pub open spec fn spec_fetch_size(plan: Seq<FilePlan>) -> nat
    decreases plan.len(),
{
    if plan.len() == 0 {
        0
    } else {
        spec_fetch_size(plan.drop_last()) + fetch_bytes(plan.last().operations)
    }
}

/// The number of operations in `plan`.
pub open spec fn count_operations(plan: Seq<FilePlan>) -> nat
    decreases plan.len(),
{
    if plan.len() == 0 {
        0
    } else {
        count_operations(plan.drop_last()) + plan.last().operations.len()
    }
}

/// The fetch operations of the first files of a plan ask for no more bytes
/// than those of the whole plan.
pub proof fn lemma_fetch_size_grows(plan: Seq<FilePlan>, n: int)
    requires
        0 <= n <= plan.len(),
    ensures
        spec_fetch_size(plan.take(n)) <= spec_fetch_size(plan),
    decreases plan.len(),
{
    if n == plan.len() {
        assert(plan.take(n) =~= plan);
    } else {
        lemma_fetch_size_grows(plan.drop_last(), n);
        assert(plan.drop_last().take(n) =~= plan.take(n));
    }
}

/// The first fetch operations of a file ask for no more bytes than all of
/// them.
pub proof fn lemma_fetch_bytes_grows(operations: Seq<Operation>, n: int)
    requires
        0 <= n <= operations.len(),
    ensures
        fetch_bytes(operations.take(n)) <= fetch_bytes(operations),
    decreases operations.len(),
{
    if n == operations.len() {
        assert(operations.take(n) =~= operations);
    } else {
        lemma_fetch_bytes_grows(operations.drop_last(), n);
        assert(operations.drop_last().take(n) =~= operations.take(n));
    }
}

impl SyncPlan {
    /// The total size of the chunks that the plan fetches from the provider.
    pub fn get_fetch_size(&self) -> (size: u64)
        requires
            spec_fetch_size(self@) <= u64::MAX,
        ensures
            size == spec_fetch_size(self@),
    {
        let mut size: u64 = 0;
        let mut f: usize = 0;
        proof {
            assert(self@.take(0) =~= Seq::<FilePlan>::empty());
        }
        while f < self.operations.len()
            invariant
                f <= self.operations@.len(),
                spec_fetch_size(self@) <= u64::MAX,
                size == spec_fetch_size(self@.take(f as int)),
            decreases self.operations@.len() - f,
        {
            let operations = &self.operations[f].1;
            let ghost done = size;
            let mut i: usize = 0;
            proof {
                assert(self@.take(f + 1).drop_last() =~= self@.take(f as int));
                assert(self@.take(f + 1).last().operations == operations@);
                lemma_fetch_size_grows(self@, f + 1);
                assert(operations@.take(0) =~= Seq::<Operation>::empty());
            }
            while i < operations.len()
                invariant
                    i <= operations@.len(),
                    done + fetch_bytes(operations@) <= u64::MAX,
                    size == done + fetch_bytes(operations@.take(i as int)),
                decreases operations@.len() - i,
            {
                proof {
                    assert(operations@.take(i + 1).drop_last() =~= operations@.take(i as int));
                    assert(operations@.take(i + 1).last() == operations@[i as int]);
                    lemma_fetch_bytes_grows(operations@, i + 1);
                }
                if let Operation::Fetch(chunk) = operations[i] {
                    size = size + chunk.length;
                }
                i += 1;
            }
            proof {
                assert(operations@.take(i as int) =~= operations@);
            }
            f += 1;
        }
        proof {
            assert(self@.take(f as int) =~= self@);
        }
        size
    }
}

/// How often `operations` fetch the chunk `key`.
pub open spec fn fetch_count(operations: Seq<Operation>, key: u64) -> nat
    decreases operations.len(),
{
    if operations.len() == 0 {
        0
    } else {
        fetch_count(operations.drop_last(), key) + match operations.last() {
            Operation::Fetch(chunk) => if chunk.hash == key {
                1nat
            } else {
                0nat
            },
            _ => 0nat,
        }
    }
}

/// How often `plan` fetches the chunk `key`.
pub open spec fn plan_fetch_count(plan: Seq<FilePlan>, key: u64) -> nat
    decreases plan.len(),
{
    if plan.len() == 0 {
        0
    } else {
        plan_fetch_count(plan.drop_last(), key) + fetch_count(plan.last().operations, key)
    }
}

/// The first operations of a file fetch a chunk no more often than all of
/// them.
pub proof fn lemma_fetch_count_grows(operations: Seq<Operation>, n: int, key: u64)
    requires
        0 <= n <= operations.len(),
    ensures
        fetch_count(operations.take(n), key) <= fetch_count(operations, key),
    decreases operations.len(),
{
    if n == operations.len() {
        assert(operations.take(n) =~= operations);
    } else {
        lemma_fetch_count_grows(operations.drop_last(), n, key);
        assert(operations.drop_last().take(n) =~= operations.take(n));
    }
}

/// The first files of a plan fetch a chunk no more often than the whole
/// plan.
pub proof fn lemma_plan_fetch_count_grows(plan: Seq<FilePlan>, n: int, key: u64)
    requires
        0 <= n <= plan.len(),
    ensures
        plan_fetch_count(plan.take(n), key) <= plan_fetch_count(plan, key),
    decreases plan.len(),
{
    if n == plan.len() {
        assert(plan.take(n) =~= plan);
    } else {
        lemma_plan_fetch_count_grows(plan.drop_last(), n, key);
        assert(plan.drop_last().take(n) =~= plan.take(n));
    }
}

/// Every chunk of `part` is a chunk of `whole`, with the same bytes.
pub open spec fn part_of(part: Map<u64, Seq<u8>>, whole: Map<u64, Seq<u8>>) -> bool {
    forall|key: u64| #[trigger]
        part.contains_key(key) ==> whole.contains_key(key) && whole[key] == part[key]
}

/// A source of chunk contents.
///
/// The executor asks a provider for the bytes of each chunk that a plan
/// fetches. Where the bytes come from is the provider's business: another
/// directory, a cache, a remote store.
///
/// A provider may vouch for what it hands out. One that does says so by
/// [`vouches`](ChunkProvider::vouches), names its
/// [`catalog`](ChunkProvider::catalog) and tells what it has
/// [`in_stock`](ChunkProvider::in_stock); what is proved of a sync then rests
/// on the provider keeping to both. A provider that does not vouch, which is
/// the default, promises nothing.
pub trait ChunkProvider {
    /// Whether the provider keeps to its catalog and its stock.
    open spec fn vouches(&self) -> bool {
        false
    }

    /// The chunks the provider is ready to hand out, each identifier with its
    /// bytes.
    open spec fn catalog(&self) -> Map<u64, Seq<u8>> {
        Map::empty()
    }

    /// The catalog the provider has once it has been given `plan`.
    open spec fn catalog_with(&self, plan: Seq<FilePlan>) -> Map<u64, Seq<u8>> {
        Map::empty()
    }

    /// Whether the provider is sure to hand out the chunk `key` `times` more
    /// times.
    open spec fn in_stock(&self, key: u64, times: nat) -> bool {
        times == 0
    }

    /// What the provider has in stock once it has been given `plan`.
    open spec fn in_stock_with(&self, plan: Seq<FilePlan>, key: u64, times: nat) -> bool {
        times == 0
    }

    /// Tells the provider what is about to be asked of it, so that it can
    /// prepare: every fetch operation of `plan` will lead to one call of
    /// [`get_chunk`](ChunkProvider::get_chunk).
    fn set_plan(&mut self, plan: &SyncPlan)
        ensures
            old(self).vouches() ==> final(self).vouches() && final(self).catalog() == old(
                self,
            ).catalog_with(plan@),
            old(self).vouches() ==> forall|key: u64, times: nat|
                old(self).in_stock_with(plan@, key, times) ==> #[trigger] final(self).in_stock(
                    key,
                    times,
                ),
            old(self).vouches() ==> forall|key: u64, more: nat, fewer: nat|
                fewer <= more && #[trigger] final(self).in_stock(key, more)
                    ==> #[trigger] final(self).in_stock(key, fewer),
    ;

    /// Hands out the bytes of the chunk `key`.
    ///
    /// Of a provider that vouches: a chunk that comes back is the one the
    /// catalog holds under `key`, and the catalog may lose chunks on the way
    /// but does not otherwise change; a chunk that is in stock does come
    /// back, and the stock of that chunk goes down by one at most.
    fn get_chunk(&mut self, key: &u64) -> (got: Result<Vec<u8>, Error>)
        ensures
            old(self).vouches() ==> final(self).vouches() && part_of(
                final(self).catalog(),
                old(self).catalog(),
            ),
            old(self).vouches() ==> (got matches Ok(data) ==> old(self).catalog().contains_key(
                *key,
            ) && old(self).catalog()[*key] == data@),
            old(self).vouches() ==> forall|times: nat|
                times > 0 && #[trigger] old(self).in_stock(*key, times) ==> got is Ok,
            old(self).vouches() ==> forall|other: u64, more: nat, fewer: nat|
                fewer <= more && #[trigger] final(self).in_stock(other, more)
                    ==> #[trigger] final(self).in_stock(other, fewer),
            old(self).vouches() ==> forall|other: u64, times: nat|
                old(self).in_stock(
                    other,
                    if other == *key {
                        times + 1
                    } else {
                        times
                    },
                ) ==> #[trigger] final(self).in_stock(other, times),
    ;
}

/// What is in stock so many times is in stock fewer times too.
#[verifier::opaque]
pub open spec fn steady_stock<T: ChunkProvider + ?Sized>(provider: &T) -> bool {
    forall|key: u64, more: nat, fewer: nat|
        fewer <= more && #[trigger] provider.in_stock(key, more) ==> #[trigger] provider.in_stock(
            key,
            fewer,
        )
}

/// The provider has in stock what `operations` fetch.
#[verifier::opaque]
pub open spec fn has_stock<T: ChunkProvider + ?Sized>(
    provider: &T,
    operations: Seq<Operation>,
) -> bool {
    forall|key: u64| provider.in_stock(key, #[trigger] fetch_count(operations, key))
}

/// The provider has in stock what `plan` fetches.
#[verifier::opaque]
pub open spec fn has_stock_for_plan<T: ChunkProvider + ?Sized>(
    provider: &T,
    plan: Seq<FilePlan>,
) -> bool {
    forall|key: u64| provider.in_stock(key, #[trigger] plan_fetch_count(plan, key))
}

/// What remains in stock after the fetches of `operations`: whatever was in
/// stock `before` as often as `operations` fetch it and `times` more is in
/// stock `times` more `after`.
#[verifier::opaque]
pub open spec fn stock_left<T: ChunkProvider + ?Sized>(
    before: &T,
    after: &T,
    operations: Seq<Operation>,
) -> bool {
    forall|key: u64, times: nat|
        before.in_stock(key, times + fetch_count(operations, key)) ==> #[trigger] after.in_stock(
            key,
            times,
        )
}

/// What remains in stock after the fetches of `plan`.
#[verifier::opaque]
pub open spec fn stock_left_of_plan<T: ChunkProvider + ?Sized>(
    before: &T,
    after: &T,
    plan: Seq<FilePlan>,
) -> bool {
    forall|key: u64, times: nat|
        before.in_stock(key, times + plan_fetch_count(plan, key)) ==> #[trigger] after.in_stock(
            key,
            times,
        )
}

/// A provider that had a plan in stock and has served the first files of the
/// plan has the next file in stock.
pub proof fn lemma_next_file_in_stock<T: ChunkProvider + ?Sized>(
    before: &T,
    now: &T,
    plan: Seq<FilePlan>,
    f: int,
)
    requires
        0 <= f < plan.len(),
        steady_stock(before),
        has_stock_for_plan(before, plan),
        stock_left_of_plan(before, now, plan.take(f)),
    ensures
        has_stock(now, plan[f].operations),
{
    reveal(steady_stock);
    reveal(has_stock);
    reveal(has_stock_for_plan);
    reveal(stock_left_of_plan);
    let operations = plan[f].operations;
    assert forall|key: u64| now.in_stock(key, #[trigger] fetch_count(operations, key)) by {
        lemma_plan_fetch_count_grows(plan, f + 1, key);
        assert(plan.take(f + 1).drop_last() =~= plan.take(f));
        assert(plan.take(f + 1).last() == plan[f]);
        assert(before.in_stock(key, plan_fetch_count(plan, key)));
        assert(before.in_stock(
            key,
            fetch_count(operations, key) + plan_fetch_count(plan.take(f), key),
        ));
    }
}

/// What is left in stock after the first files of a plan and then the next
/// file is what is left after one file more.
pub proof fn lemma_stock_left_after_file<T: ChunkProvider + ?Sized>(
    before: &T,
    between: &T,
    after: &T,
    plan: Seq<FilePlan>,
    f: int,
)
    requires
        0 <= f < plan.len(),
        stock_left_of_plan(before, between, plan.take(f)),
        stock_left(between, after, plan[f].operations),
    ensures
        stock_left_of_plan(before, after, plan.take(f + 1)),
{
    reveal(stock_left);
    reveal(stock_left_of_plan);
    let operations = plan[f].operations;
    assert(plan.take(f + 1).drop_last() =~= plan.take(f));
    assert(plan.take(f + 1).last() == plan[f]);
    assert forall|key: u64, times: nat|
        before.in_stock(
            key,
            times + plan_fetch_count(plan.take(f + 1), key),
        ) implies #[trigger] after.in_stock(key, times) by {
        assert(between.in_stock(key, times + fetch_count(operations, key)));
    }
}

/// A provider that has served nothing yet has left what it had.
pub proof fn lemma_stock_left_at_start<T: ChunkProvider + ?Sized>(provider: &T)
    ensures
        stock_left(provider, provider, Seq::empty()),
        stock_left_of_plan(provider, provider, Seq::empty()),
{
    reveal(stock_left);
    reveal(stock_left_of_plan);
}

} // verus!

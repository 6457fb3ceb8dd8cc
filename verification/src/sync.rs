//! The syncer: planning and executing the rewrite of a destination.
//!
//! What a sync does to the destination depends on what the provider hands
//! out. For a provider that vouches for its answers the contracts say what
//! each file holds afterwards, and when the sync is sure to succeed; for any
//! provider they say it for plans that fetch nothing.

use crate::chunk::{
    count_operations, fetch_count, has_stock, has_stock_for_plan, lemma_fetch_count_grows,
    lemma_next_file_in_stock, lemma_stock_left_after_file, lemma_stock_left_at_start, part_of,
    plan_fetch_count, steady_stock, stock_left, stock_left_of_plan, ChunkProvider, FilePlan,
    Operation, SyncPlan,
};
use crate::error::Error;
use crate::execute::{
    fetches_nothing, lemma_run_fails, progress_percent, spec_copies, spec_rewrite, spec_run,
    spec_step, FileWriter, Rewrite,
};
use crate::manifest::Manifest;
use crate::plan::{existing_at, plan_sync, spec_plan, well_cut};
use crate::tree::{copy_bytes, Directory};
use vstd::prelude::*;

verus! {

/// Whether the callback, if there is one, may be called with every number.
pub open spec fn accepts_all<F: FnMut(u32)>(progress: Option<F>) -> bool {
    progress matches Some(callback) ==> forall|percent: u32| call_requires(callback, (percent,))
}

/// The bytes that a rewrite of the file at `path` starts from: what `dest`
/// holds there, or nothing if the file is yet to be made.
pub open spec fn existing_or_empty(dest: Map<Seq<char>, Seq<u8>>, path: Seq<char>) -> Seq<u8> {
    if dest.contains_key(path) {
        dest[path]
    } else {
        Seq::empty()
    }
}

/// The destination after the files of `plan` have been rewritten one after
/// the other, with a provider that hands out the chunks `catalog`. `None`
/// where one of the rewrites cannot be carried out.
pub open spec fn spec_execute(
    dest: Map<Seq<char>, Seq<u8>>,
    plan: Seq<FilePlan>,
    catalog: Map<u64, Seq<u8>>,
) -> Option<Map<Seq<char>, Seq<u8>>>
    decreases plan.len(),
{
    if plan.len() == 0 {
        Some(dest)
    } else {
        match spec_execute(dest, plan.drop_last(), catalog) {
            Some(reached) => {
                let file = plan.last();
                match spec_rewrite(
                    existing_or_empty(reached, file.path),
                    file.operations,
                    catalog,
                ) {
                    Some(contents) => Some(reached.insert(file.path, contents)),
                    None => None,
                }
            },
            None => None,
        }
    }
}

/// The destination `after` is what carrying out the first files of `plan`,
/// but not all of them, makes of `dest`.
pub open spec fn stopped_midway(
    dest: Map<Seq<char>, Seq<u8>>,
    plan: Seq<FilePlan>,
    catalog: Map<u64, Seq<u8>>,
    after: Map<Seq<char>, Seq<u8>>,
) -> bool {
    exists|n: int|
        0 <= n < plan.len() && spec_execute(dest, #[trigger] plan.take(n), catalog) == Some(after)
}

/// Whether `plan` holds a file at `path`.
pub open spec fn plan_names(plan: Seq<FilePlan>, path: Seq<char>) -> bool {
    exists|k: int| 0 <= k < plan.len() && (#[trigger] plan[k]).path == path
}

/// Carrying out `plan`, or a part of it, has left every other file alone: a
/// path that the plan does not name holds in `after` what it held in
/// `before`, or nothing if it held nothing; and no file of `before` is
/// missing in `after`.
#[verifier::opaque]
pub open spec fn keeps_other_files(
    before: Map<Seq<char>, Seq<u8>>,
    after: Map<Seq<char>, Seq<u8>>,
    plan: Seq<FilePlan>,
) -> bool {
    &&& forall|path: Seq<char>|
        !plan_names(plan, path) ==> (#[trigger] after.contains_key(path)) == before.contains_key(
            path,
        ) && (before.contains_key(path) ==> after[path] == before[path])
    &&& forall|path: Seq<char>| #[trigger]
        before.contains_key(path) ==> after.contains_key(path)
}

/// Every file that `plan` holds is a file of `dest`.
#[verifier::opaque]
pub open spec fn holds_planned(dest: Map<Seq<char>, Seq<u8>>, plan: Seq<FilePlan>) -> bool {
    forall|k: int| 0 <= k < plan.len() ==> dest.contains_key((#[trigger] plan[k]).path)
}

/// A destination that has not been touched has kept its files.
pub proof fn lemma_keeps_at_start(dest: Map<Seq<char>, Seq<u8>>, plan: Seq<FilePlan>)
    ensures
        keeps_other_files(dest, dest, plan),
        holds_planned(dest, Seq::empty()),
{
    reveal(keeps_other_files);
    reveal(holds_planned);
}

/// Rewriting the next file of a plan leaves alone what the plan up to that
/// file does not name.
pub proof fn lemma_keeps_after_file(
    before: Map<Seq<char>, Seq<u8>>,
    between: Map<Seq<char>, Seq<u8>>,
    plan: Seq<FilePlan>,
    f: int,
    contents: Seq<u8>,
)
    requires
        0 <= f < plan.len(),
        keeps_other_files(before, between, plan.take(f)),
        holds_planned(between, plan.take(f)),
    ensures
        keeps_other_files(before, between.insert(plan[f].path, contents), plan.take(f + 1)),
        holds_planned(between.insert(plan[f].path, contents), plan.take(f + 1)),
{
    reveal(keeps_other_files);
    reveal(holds_planned);
    let after = between.insert(plan[f].path, contents);
    assert forall|path: Seq<char>| !plan_names(plan.take(f + 1), path) implies (
    #[trigger] after.contains_key(path)) == before.contains_key(path) && (before.contains_key(path)
        ==> after[path] == before[path]) by {
        assert(plan.take(f + 1)[f] == plan[f]);
        assert(path != plan[f].path);
        if plan_names(plan.take(f), path) {
            let k = choose|k: int| 0 <= k < f && (#[trigger] plan.take(f)[k]).path == path;
            assert(plan.take(f + 1)[k] == plan.take(f)[k]);
        }
    }
    assert forall|k: int| 0 <= k < f + 1 implies after.contains_key(
        (#[trigger] plan.take(f + 1)[k]).path,
    ) by {
        if k < f {
            assert(plan.take(f)[k] == plan.take(f + 1)[k]);
        }
    }
}

/// What the first files of a plan do not name includes what the whole plan
/// does not name.
pub proof fn lemma_keeps_for_whole_plan(
    before: Map<Seq<char>, Seq<u8>>,
    after: Map<Seq<char>, Seq<u8>>,
    plan: Seq<FilePlan>,
    n: int,
)
    requires
        0 <= n <= plan.len(),
        keeps_other_files(before, after, plan.take(n)),
    ensures
        keeps_other_files(before, after, plan),
{
    reveal(keeps_other_files);
    assert forall|path: Seq<char>| !plan_names(plan, path) implies (#[trigger] after.contains_key(
        path,
    )) == before.contains_key(path) && (before.contains_key(path) ==> after[path]
        == before[path]) by {
        if plan_names(plan.take(n), path) {
            let k = choose|k: int| 0 <= k < n && (#[trigger] plan.take(n)[k]).path == path;
            assert(plan[k] == plan.take(n)[k]);
        }
    }
}

/// A file that the plan does not name is after the plan what it was before.
pub proof fn lemma_other_file_is_kept(
    before: Map<Seq<char>, Seq<u8>>,
    after: Map<Seq<char>, Seq<u8>>,
    plan: Seq<FilePlan>,
    path: Seq<char>,
)
    requires
        keeps_other_files(before, after, plan),
        !plan_names(plan, path),
    ensures
        after.contains_key(path) == before.contains_key(path),
        before.contains_key(path) ==> after[path] == before[path],
{
    reveal(keeps_other_files);
}

/// No file is lost to a plan.
pub proof fn lemma_no_file_is_lost(
    before: Map<Seq<char>, Seq<u8>>,
    after: Map<Seq<char>, Seq<u8>>,
    plan: Seq<FilePlan>,
    path: Seq<char>,
)
    requires
        keeps_other_files(before, after, plan),
        before.contains_key(path),
    ensures
        after.contains_key(path),
{
    reveal(keeps_other_files);
}

/// An empty plan changes nothing.
pub proof fn lemma_empty_plan_changes_nothing(
    before: Map<Seq<char>, Seq<u8>>,
    after: Map<Seq<char>, Seq<u8>>,
    plan: Seq<FilePlan>,
)
    requires
        keeps_other_files(before, after, plan),
        plan.len() == 0,
    ensures
        after == before,
{
    reveal(keeps_other_files);
    assert forall|path: Seq<char>| !plan_names(plan, path) by {}
    assert(after =~= before);
}

/// Once the provider has been given `plan`, it has in stock what the plan
/// fetches.
pub open spec fn stocks_plan<T: ChunkProvider + ?Sized>(provider: &T, plan: Seq<FilePlan>) -> bool {
    forall|key: u64| provider.in_stock_with(plan, key, #[trigger] plan_fetch_count(plan, key))
}

/// None of the operations of `plan` fetches a chunk.
pub open spec fn plan_fetches_nothing(plan: Seq<FilePlan>) -> bool {
    forall|k: int| 0 <= k < plan.len() ==> fetches_nothing((#[trigger] plan[k]).operations)
}

/// Once a file cannot be rewritten, a longer plan cannot be carried out
/// either.
pub proof fn lemma_execute_fails(
    dest: Map<Seq<char>, Seq<u8>>,
    plan: Seq<FilePlan>,
    catalog: Map<u64, Seq<u8>>,
    n: int,
)
    requires
        0 <= n <= plan.len(),
        spec_execute(dest, plan.take(n), catalog) is None,
    ensures
        spec_execute(dest, plan, catalog) is None,
    decreases plan.len(),
{
    if n == plan.len() {
        assert(plan.take(n) =~= plan);
    } else {
        assert(plan.drop_last().take(n) =~= plan.take(n));
        lemma_execute_fails(dest, plan.drop_last(), catalog, n);
    }
}

/// A step that can be carried out with a part of a catalog can be carried out
/// with the whole catalog, to the same effect.
pub proof fn lemma_step_with_larger_catalog(
    state: Rewrite,
    copies: Map<u64, Seq<u8>>,
    part: Map<u64, Seq<u8>>,
    whole: Map<u64, Seq<u8>>,
    operation: Operation,
)
    requires
        part_of(part, whole),
        spec_step(state, copies, part, operation) is Some,
    ensures
        spec_step(state, copies, whole, operation) == spec_step(state, copies, part, operation),
{
}

/// Operations that can be carried out with a part of a catalog can be carried
/// out with the whole catalog, to the same effect.
pub proof fn lemma_run_with_larger_catalog(
    state: Rewrite,
    copies: Map<u64, Seq<u8>>,
    part: Map<u64, Seq<u8>>,
    whole: Map<u64, Seq<u8>>,
    operations: Seq<Operation>,
)
    requires
        part_of(part, whole),
        spec_run(state, copies, part, operations) is Some,
    ensures
        spec_run(state, copies, whole, operations) == spec_run(state, copies, part, operations),
    decreases operations.len(),
{
    if operations.len() > 0 {
        lemma_run_with_larger_catalog(state, copies, part, whole, operations.drop_last());
        let reached = spec_run(state, copies, part, operations.drop_last())->0;
        lemma_step_with_larger_catalog(reached, copies, part, whole, operations.last());
    }
}

/// A rewrite that can be carried out with a part of a catalog can be carried
/// out with the whole catalog, to the same effect.
pub proof fn lemma_rewrite_with_larger_catalog(
    existing: Seq<u8>,
    operations: Seq<Operation>,
    part: Map<u64, Seq<u8>>,
    whole: Map<u64, Seq<u8>>,
)
    requires
        part_of(part, whole),
        spec_rewrite(existing, operations, part) is Some,
    ensures
        spec_rewrite(existing, operations, whole) == spec_rewrite(existing, operations, part),
{
    let copies = spec_copies(existing, operations)->0;
    lemma_run_with_larger_catalog(
        Rewrite { buffer: existing, position: 0 },
        copies,
        part,
        whole,
        operations,
    );
}

/// The number of operations carried out after `more` more than `done`, as
/// far as the counter counts.
pub open spec fn counted(done: u64, more: nat) -> u64 {
    if done + more > u64::MAX {
        u64::MAX
    } else {
        (done + more) as u64
    }
}

/// Counts one more operation and reports the progress.
fn report<F: FnMut(u32)>(progress: &mut Option<F>, done: &mut u64, total: u32)
    requires
        accepts_all(*old(progress)),
    ensures
        accepts_all(*final(progress)),
        *final(done) == counted(*old(done), 1),
{
    if *done < u64::MAX {
        *done = *done + 1;
    }
    match progress {
        Some(callback) => {
            callback(progress_percent(*done, total));
        },
        None => {},
    }
}

/// Rewrites one file: carries out `operations` on a file with the bytes
/// `existing` and hands out the file's new bytes.
///
/// Each fetch operation asks `provider` for its chunk once, in order. After
/// each operation `done` goes up by one and `progress`, if there is one, is
/// called with the percentage of `done` in `total`.
///
/// The rewrite fails if a copy range lies outside `existing` (before the
/// provider is asked for anything), if a seek or a write leaves the range of
/// offsets, if the provider fails, and if a chunk comes back with another
/// length than planned.
///
/// With a provider that vouches for its answers, the new bytes are those of
/// [`spec_rewrite`] for the provider's catalog, and the rewrite succeeds
/// whenever the provider has the fetched chunks in stock and
/// [`spec_rewrite`] gives a result. With any provider, operations that fetch
/// nothing succeed exactly where [`spec_rewrite`] gives a result, and that is
/// the result.
pub fn rewrite_file<T: ChunkProvider, F: FnMut(u32)>(
    existing: Vec<u8>,
    operations: &Vec<Operation>,
    provider: &mut T,
    progress: &mut Option<F>,
    done: &mut u64,
    total: u32,
) -> (rewritten: Result<Vec<u8>, Error>)
    requires
        accepts_all(*old(progress)),
    ensures
        accepts_all(*final(progress)),
        *old(done) <= *final(done),
        rewritten is Ok ==> *final(done) == counted(*old(done), operations@.len()),
        old(provider).vouches() ==> final(provider).vouches() && part_of(
            final(provider).catalog(),
            old(provider).catalog(),
        ),
        old(provider).vouches() ==> (rewritten matches Ok(contents) ==> spec_rewrite(
            existing@,
            operations@,
            old(provider).catalog(),
        ) == Some(contents@)),
        spec_copies(existing@, operations@) is None ==> (rewritten matches Err(error)
            && error is IOError) && *final(provider) == *old(provider),
        fetches_nothing(operations@) ==> *final(provider) == *old(provider) && match rewritten {
            Ok(contents) => spec_rewrite(existing@, operations@, Map::empty()) == Some(
                contents@,
            ),
            Err(_) => spec_rewrite(existing@, operations@, Map::empty()) is None,
        },
        old(provider).vouches() && steady_stock(old(provider)) ==> steady_stock(final(provider)),
        old(provider).vouches() && rewritten is Ok ==> stock_left(
            old(provider),
            final(provider),
            operations@,
        ),
        old(provider).vouches() && steady_stock(old(provider)) && has_stock(
            old(provider),
            operations@,
        ) ==> forall|whole: Map<u64, Seq<u8>>| #[trigger]
            part_of(old(provider).catalog(), whole) && spec_rewrite(
                existing@,
                operations@,
                whole,
            ) is Some ==> rewritten is Ok,
{
    let ghost catalog = provider.catalog();
    let ghost start = Rewrite { buffer: existing@, position: 0 };
    let ghost none = Map::<u64, Seq<u8>>::empty();
    proof {
        lemma_stock_left_at_start(old(provider));
    }
    let mut writer = match FileWriter::open(existing, operations) {
        Ok(writer) => writer,
        Err(error) => {
            return Err(error);
        },
    };
    let ghost copies = writer.loaded();
    let mut i: usize = 0;
    proof {
        assert(operations@.take(0) =~= Seq::<Operation>::empty());
    }
    while i < operations.len()
        invariant
            i <= operations@.len(),
            accepts_all(*progress),
            *done == counted(*old(done), i as nat),
            catalog == old(provider).catalog(),
            old(provider).vouches() ==> provider.vouches() && part_of(
                provider.catalog(),
                catalog,
            ),
            writer.loaded() == copies,
            spec_copies(existing@, operations@) is Some,
            old(provider).vouches() ==> spec_run(
                start,
                copies,
                catalog,
                operations@.take(i as int),
            ) == Some(writer@),
            start == (Rewrite { buffer: existing@, position: 0 }),
            copies == spec_copies(existing@, operations@)->0,
            none == Map::<u64, Seq<u8>>::empty(),
            fetches_nothing(operations@) ==> *provider == *old(provider) && spec_run(
                start,
                copies,
                none,
                operations@.take(i as int),
            ) == Some(writer@),
            old(provider).vouches() && steady_stock(old(provider)) ==> steady_stock(provider),
            old(provider).vouches() ==> stock_left(
                old(provider),
                provider,
                operations@.take(i as int),
            ),
        decreases operations@.len() - i,
    {
        let ghost before = writer@;
        let ghost held = provider.catalog();
        proof {
            reveal(steady_stock);
            reveal(has_stock);
            reveal(stock_left);
            assert(operations@.take(i + 1).drop_last() =~= operations@.take(i as int));
            assert(operations@.take(i + 1).last() == operations@[i as int]);
        }
        let ghost asked = *provider;
        let outcome = match operations[i] {
            Operation::Seek(delta) => writer.seek(delta),
            Operation::Copy(chunk) => writer.write_copy(&chunk),
            Operation::Fetch(chunk) => {
                proof {
                    if old(provider).vouches() && steady_stock(old(provider)) && has_stock(
                        old(provider),
                        operations@,
                    ) {
                        lemma_fetch_count_grows(operations@, i + 1, chunk.hash);
                        assert(old(provider).in_stock(
                            chunk.hash,
                            fetch_count(operations@, chunk.hash),
                        ));
                        assert(old(provider).in_stock(
                            chunk.hash,
                            1 + fetch_count(operations@.take(i as int), chunk.hash),
                        ));
                        assert(provider.in_stock(chunk.hash, 1));
                    }
                }
                match provider.get_chunk(&chunk.hash) {
                    Ok(data) => writer.write_fetched(&chunk, &data),
                    Err(error) => {
                        return Err(error);
                    },
                }
            },
        };
        proof {
            if old(provider).vouches() {
                assert forall|key: u64, times: nat|
                    old(provider).in_stock(
                        key,
                        times + fetch_count(operations@.take(i + 1), key),
                    ) implies #[trigger] provider.in_stock(key, times) by {
                    match operations@[i as int] {
                        Operation::Fetch(chunk) => {
                            let more = if key == chunk.hash {
                                times + 1
                            } else {
                                times
                            };
                            assert(asked.in_stock(key, more));
                        },
                        _ => {
                            assert(asked.in_stock(key, times));
                        },
                    }
                }
            }
        }
        match outcome {
            Ok(_) => {},
            Err(error) => {
                proof {
                    if fetches_nothing(operations@) {
                        assert(!(operations@[i as int] is Fetch));
                        lemma_run_fails(start, copies, none, operations@, i + 1);
                    }
                    if old(provider).vouches() {
                        assert forall|whole: Map<u64, Seq<u8>>| #[trigger]
                            part_of(catalog, whole) implies spec_rewrite(
                            existing@,
                            operations@,
                            whole,
                        ) is None by {
                            lemma_run_with_larger_catalog(
                                start,
                                copies,
                                catalog,
                                whole,
                                operations@.take(i as int),
                            );
                            lemma_run_fails(start, copies, whole, operations@, i + 1);
                        }
                    }
                }
                return Err(error);
            },
        }
        proof {
            if fetches_nothing(operations@) {
                assert(!(operations@[i as int] is Fetch));
            }
        }
        report(progress, done, total);
        i += 1;
    }
    proof {
        assert(operations@.take(i as int) =~= operations@);
    }
    Ok(writer.finish())
}

/// Plans and carries out the rewrite of a destination directory with the
/// chunks of a provider, as a manifest asks for it.
pub struct Syncer<T: ChunkProvider, F: FnMut(u32)> {
    /// The destination: rewritten by a sync.
    pub destination: Directory,
    /// Where the chunks come from that the destination lacks.
    pub provider: T,
    /// What the destination has to look like.
    pub manifest: Manifest,
    /// Called with the progress in percent after each operation.
    pub progress: Option<F>,
}

impl<T: ChunkProvider, F: FnMut(u32)> Syncer<T, F> {
    /// The destination holds no path twice, and the callback, if there is
    /// one, may be called with every number.
    pub open spec fn wf(&self) -> bool {
        self.destination.wf() && accepts_all(self.progress)
    }

    /// A syncer for `destination`, without a progress callback.
    pub fn new(destination: Directory, provider: T, manifest: Manifest) -> (syncer: Self)
        ensures
            syncer.destination == destination,
            syncer.provider == provider,
            syncer.manifest == manifest,
            syncer.progress is None,
    {
        Syncer { destination, provider, manifest, progress: None }
    }

    /// Sets the function that receives the progress: it is called after each
    /// operation of a sync with a number from 0 to 100.
    pub fn on_progress(&mut self, callback: F)
        ensures
            final(self).progress == Some(callback),
            final(self).destination == old(self).destination,
            final(self).provider == old(self).provider,
            final(self).manifest == old(self).manifest,
    {
        self.progress = Some(callback);
    }

    /// Plans the sync: which files of the destination have to be rewritten,
    /// and by which operations. Nothing is changed.
    pub fn plan(&self) -> (planned: Result<SyncPlan, Error>)
        requires
            self.destination.wf(),
        ensures
            match planned {
                Ok(plan) => {
                    &&& plan@ == spec_plan(self.manifest@, self.destination@)
                    &&& plan.total_ops == count_operations(plan@)
                    &&& forall|i: int|
                        0 <= i < self.manifest@.len() ==> well_cut(
                            existing_at(self.destination@, (#[trigger] self.manifest@[i]).path),
                        )
                },
                Err(error) => error is Unspecified && count_operations(
                    spec_plan(self.manifest@, self.destination@),
                ) > u32::MAX,
            },
    {
        plan_sync(&self.manifest, &self.destination)
    }

    /// Carries out `plan` on the destination with the chunks the provider
    /// holds: rewrites the files of the plan one after the other. A file
    /// that the destination lacks is made.
    ///
    /// On failure the files rewritten before the failing one stay rewritten,
    /// and the failing one stays as it was.
    ///
    /// With a provider that vouches for its answers, the destination after a
    /// success is that of [`spec_execute`] for the provider's catalog, and
    /// success is sure if the provider has the plan in stock and
    /// [`spec_execute`] gives a result.
    pub fn execute(&mut self, plan: &SyncPlan) -> (executed: Result<(), Error>)
        requires
            old(self).wf(),
        ensures
            final(self).wf(),
            final(self).manifest == old(self).manifest,
            old(self).provider.vouches() ==> final(self).provider.vouches() && part_of(
                final(self).provider.catalog(),
                old(self).provider.catalog(),
            ),
            old(self).provider.vouches() && executed is Ok ==> spec_execute(
                old(self).destination@,
                plan@,
                old(self).provider.catalog(),
            ) == Some(final(self).destination@),
            plan_fetches_nothing(plan@) ==> final(self).provider == old(self).provider && match executed {
                Ok(_) => spec_execute(old(self).destination@, plan@, Map::empty()) == Some(
                    final(self).destination@,
                ),
                Err(_) => spec_execute(old(self).destination@, plan@, Map::empty()) is None,
            },
            old(self).provider.vouches() && steady_stock(&old(self).provider)
                && has_stock_for_plan(&old(self).provider, plan@) && spec_execute(
                old(self).destination@,
                plan@,
                old(self).provider.catalog(),
            ) is Some ==> executed is Ok,
            old(self).provider.vouches() && executed is Err ==> stopped_midway(
                old(self).destination@,
                plan@,
                old(self).provider.catalog(),
                final(self).destination@,
            ),
            keeps_other_files(old(self).destination@, final(self).destination@, plan@),
            executed is Ok ==> holds_planned(final(self).destination@, plan@),
    {
        let ghost catalog = self.provider.catalog();
        let ghost dest = self.destination@;
        let mut done: u64 = 0;
        proof {
            lemma_stock_left_at_start(&old(self).provider);
        }
        let mut f: usize = 0;
        proof {
            assert(plan@.take(0) =~= Seq::<FilePlan>::empty());
            lemma_keeps_at_start(dest, plan@.take(0));
        }
        while f < plan.operations.len()
            invariant
                f <= plan.operations@.len(),
                self.wf(),
                self.manifest == old(self).manifest,
                keeps_other_files(dest, self.destination@, plan@.take(f as int)),
                holds_planned(self.destination@, plan@.take(f as int)),
                catalog == old(self).provider.catalog(),
                old(self).provider.vouches() ==> self.provider.vouches() && part_of(
                    self.provider.catalog(),
                    catalog,
                ),
                old(self).provider.vouches() ==> spec_execute(dest, plan@.take(f as int), catalog)
                    == Some(self.destination@),
                dest == old(self).destination@,
                plan_fetches_nothing(plan@) ==> self.provider == old(self).provider
                    && spec_execute(dest, plan@.take(f as int), Map::empty()) == Some(
                    self.destination@,
                ),
                old(self).provider.vouches() && steady_stock(&old(self).provider) ==> steady_stock(
                    &self.provider,
                ),
                old(self).provider.vouches() ==> stock_left_of_plan(
                    &old(self).provider,
                    &self.provider,
                    plan@.take(f as int),
                ),
            decreases plan.operations@.len() - f,
        {
            let path = &plan.operations[f].0;
            let operations = &plan.operations[f].1;
            let existing = match self.destination.get(path) {
                Some(contents) => copy_bytes(contents),
                None => Vec::new(),
            };
            let ghost held = self.provider.catalog();
            proof {
                assert(plan@.take(f + 1).drop_last() =~= plan@.take(f as int));
                assert(plan@.take(f + 1).last() == plan@[f as int]);
                assert(existing@ =~= existing_or_empty(self.destination@, path@));
            }
            let ghost asked = self.provider;
            let ghost owed = old(self).provider.vouches() && steady_stock(&old(self).provider)
                && has_stock_for_plan(&old(self).provider, plan@) && spec_execute(
                dest,
                plan@,
                catalog,
            ) is Some;
            proof {
                if owed {
                    lemma_next_file_in_stock(&old(self).provider, &asked, plan@, f as int);
                    if spec_execute(dest, plan@.take(f + 1), catalog) is None {
                        lemma_execute_fails(dest, plan@, catalog, f + 1);
                    }
                    assert(part_of(held, catalog));
                    assert(spec_rewrite(existing@, operations@, catalog) is Some);
                }
            }
            let rewritten = rewrite_file(
                existing,
                operations,
                &mut self.provider,
                &mut self.progress,
                &mut done,
                plan.total_ops,
            );
            proof {
                if old(self).provider.vouches() && rewritten is Ok {
                    lemma_stock_left_after_file(
                        &old(self).provider,
                        &asked,
                        &self.provider,
                        plan@,
                        f as int,
                    );
                }
            }
            let contents = match rewritten {
                Ok(contents) => contents,
                Err(error) => {
                    proof {
                        if plan_fetches_nothing(plan@) {
                            assert(fetches_nothing(plan@[f as int].operations));
                            lemma_execute_fails(dest, plan@, Map::empty(), f + 1);
                        }
                        if old(self).provider.vouches() {
                            assert(spec_execute(dest, plan@.take(f as int), catalog) == Some(
                                self.destination@,
                            ));
                        }
                        lemma_keeps_for_whole_plan(dest, self.destination@, plan@, f as int);
                    }
                    return Err(error);
                },
            };
            proof {
                if plan_fetches_nothing(plan@) {
                    assert(fetches_nothing(plan@[f as int].operations));
                }
            }
            proof {
                if old(self).provider.vouches() {
                    lemma_rewrite_with_larger_catalog(existing@, operations@, held, catalog);
                }
            }
            proof {
                lemma_keeps_after_file(dest, self.destination@, plan@, f as int, contents@);
            }
            self.destination.put(path.clone(), contents);
            f += 1;
        }
        proof {
            assert(plan@.take(f as int) =~= plan@);
        }
        Ok(())
    }

    /// Hands `plan` to the provider and carries it out, as
    /// [`execute`](Syncer::execute) does.
    pub fn sync_from_plan(&mut self, plan: &SyncPlan) -> (synced: Result<(), Error>)
        requires
            old(self).wf(),
        ensures
            final(self).wf(),
            final(self).manifest == old(self).manifest,
            old(self).provider.vouches() && synced is Ok ==> spec_execute(
                old(self).destination@,
                plan@,
                old(self).provider.catalog_with(plan@),
            ) == Some(final(self).destination@),
            plan_fetches_nothing(plan@) ==> match synced {
                Ok(_) => spec_execute(old(self).destination@, plan@, Map::empty()) == Some(
                    final(self).destination@,
                ),
                Err(_) => spec_execute(old(self).destination@, plan@, Map::empty()) is None,
            },
            old(self).provider.vouches() && stocks_plan(&old(self).provider, plan@)
                && spec_execute(
                old(self).destination@,
                plan@,
                old(self).provider.catalog_with(plan@),
            ) is Some ==> synced is Ok,
            old(self).provider.vouches() && synced is Err ==> stopped_midway(
                old(self).destination@,
                plan@,
                old(self).provider.catalog_with(plan@),
                final(self).destination@,
            ),
            keeps_other_files(old(self).destination@, final(self).destination@, plan@),
            synced is Ok ==> holds_planned(final(self).destination@, plan@),
    {
        self.provider.set_plan(plan);
        proof {
            reveal(steady_stock);
            reveal(has_stock_for_plan);
            if old(self).provider.vouches() && stocks_plan(&old(self).provider, plan@) {
                assert forall|key: u64|
                    self.provider.in_stock(key, #[trigger] plan_fetch_count(plan@, key)) by {
                    assert(old(self).provider.in_stock_with(
                        plan@,
                        key,
                        plan_fetch_count(plan@, key),
                    ));
                }
            }
        }
        self.execute(plan)
    }

    /// Brings the destination to the state that the manifest describes: plans
    /// the sync and carries the plan out.
    ///
    /// Fails, and changes nothing, if the plan holds more operations than fit
    /// in 32 bits; otherwise as [`sync_from_plan`](Syncer::sync_from_plan)
    /// does with the plan.
    pub fn sync(&mut self) -> (synced: Result<(), Error>)
        requires
            old(self).wf(),
        ensures
            final(self).wf(),
            final(self).manifest == old(self).manifest,
            count_operations(spec_plan(old(self).manifest@, old(self).destination@)) <= u32::MAX
                ==> forall|i: int|
                0 <= i < old(self).manifest@.len() ==> well_cut(
                    existing_at(old(self).destination@, (#[trigger] old(self).manifest@[i]).path),
                ),
            old(self).provider.vouches() && synced is Ok ==> ({
                let plan = spec_plan(old(self).manifest@, old(self).destination@);
                spec_execute(
                    old(self).destination@,
                    plan,
                    old(self).provider.catalog_with(plan),
                ) == Some(final(self).destination@)
            }),
            synced is Ok ==> count_operations(
                spec_plan(old(self).manifest@, old(self).destination@),
            ) <= u32::MAX,
            old(self).provider.vouches() && synced is Err ==> ({
                let plan = spec_plan(old(self).manifest@, old(self).destination@);
                if count_operations(plan) > u32::MAX {
                    final(self).destination@ == old(self).destination@
                } else {
                    stopped_midway(
                        old(self).destination@,
                        plan,
                        old(self).provider.catalog_with(plan),
                        final(self).destination@,
                    )
                }
            }),
            old(self).provider.vouches() ==> ({
                let plan = spec_plan(old(self).manifest@, old(self).destination@);
                count_operations(plan) <= u32::MAX && stocks_plan(&old(self).provider, plan)
                    && spec_execute(
                    old(self).destination@,
                    plan,
                    old(self).provider.catalog_with(plan),
                ) is Some ==> synced is Ok
            }),
            plan_fetches_nothing(spec_plan(old(self).manifest@, old(self).destination@)) ==> ({
                let plan = spec_plan(old(self).manifest@, old(self).destination@);
                match synced {
                    Ok(_) => spec_execute(old(self).destination@, plan, Map::empty()) == Some(
                        final(self).destination@,
                    ),
                    Err(_) => count_operations(plan) > u32::MAX || spec_execute(
                        old(self).destination@,
                        plan,
                        Map::empty(),
                    ) is None,
                }
            }),
            count_operations(spec_plan(old(self).manifest@, old(self).destination@)) > u32::MAX
                ==> final(self).destination@ == old(self).destination@ && final(self).provider
                == old(self).provider,
            keeps_other_files(
                old(self).destination@,
                final(self).destination@,
                spec_plan(old(self).manifest@, old(self).destination@),
            ),
            synced is Ok ==> holds_planned(
                final(self).destination@,
                spec_plan(old(self).manifest@, old(self).destination@),
            ),
    {
        let plan = match self.plan() {
            Ok(plan) => plan,
            Err(error) => {
                proof {
                    lemma_keeps_at_start(
                        self.destination@,
                        spec_plan(self.manifest@, self.destination@),
                    );
                }
                return Err(error);
            },
        };
        self.sync_from_plan(&plan)
    }
}

} // verus!

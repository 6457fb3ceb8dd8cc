//! Differential synchronisation of directory trees by content-defined
//! chunking.
//!
//! A [`Manifest`] lists the files of a source tree and, for each file, the
//! chunks it is made of. A [`Syncer`] compares a manifest with a destination
//! tree, plans for each file a program of seek, copy and fetch operations, and
//! rewrites the destination so that it holds the source's bytes, fetching from
//! a [`ChunkProvider`] only the chunks the destination does not already have.
//!
//! The library works on values in memory: a [`Directory`] maps relative paths
//! to file contents. Reading a tree from disk and writing it back is left to
//! the caller, and so is the transport of packs from a remote source.
//!
//! ```text
//! source tree -> Manifest -> SyncPlan <- destination tree
//!                               |
//!                               v
//!                 Syncer <-> ChunkProvider
//! ```
//!
//! The modules, from the leaves up:
//!
//! - [`hash`] and [`chunker`]: chunk identifiers and cut points, the two
//!   places where the library relies on code it does not verify;
//! - [`chunk`], [`tree`], [`path`], [`text`], [`error`]: the data model;
//! - [`manifest`] and [`network`]: manifests and their packs;
//! - [`plan`], [`execute`], [`sync`]: the planner and the executor;
//! - [`provider`], [`remote`], [`publish`]: where chunks come from;
//! - [`laws`], [`supply`] and [`roundtrip`]: what is proved of all of it
//!   together.

use crate::chunk::count_operations;
use crate::laws::{lemma_sync_reproduces_source, nothing_stale};
use crate::manifest::{describes, manifest_of, names_files_of};
use crate::plan::spec_plan;
use crate::supply::{
    destination_well_cut, directory_catalog, left_by_sync, lemma_directory_can_sync,
    lemma_directory_second_sync, lemma_directory_stocks_plan, lemma_directory_sync_mirrors,
    mirrors, sound_identifiers,
};
use crate::sync::{
    holds_planned, keeps_other_files, plan_fetches_nothing, spec_execute, stocks_plan,
    stopped_midway,
};
use vstd::prelude::*;

pub mod chunk;
pub mod chunker;
pub mod error;
pub mod execute;
pub mod hash;
pub mod laws;
pub mod manifest;
pub mod network;
pub mod path;
pub mod plan;
pub mod provider;
pub mod publish;
pub mod remote;
pub mod roundtrip;
pub mod supply;
pub mod sync;
pub mod text;
pub mod tree;

pub use chunk::{Chunk, ChunkProvider, FileInfo, FileList, Operation, SyncPlan};
pub use error::Error;
pub use manifest::{FileChunkInfo, Manifest};
pub use network::{Pack, RemoteManifest};
pub use provider::{BasicChunkProvider, CachingChunkProvider};
pub use remote::RemoteChunkProvider;
pub use sync::Syncer;
pub use tree::{Directory, FileEntry};

verus! {

/// A progress callback that ignores what it is told.
pub fn silent(_percent: u32) {
}

/// Builds the manifest of the files of `from`: every file cut into chunks,
/// the files sorted by path.
pub fn generate_manifest(from: &Directory) -> (manifest: Manifest)
    requires
        from.wf(),
    ensures
        manifest@ == manifest_of(*from),
        manifest@.len() == from.files@.len(),
        describes(manifest@, from@),
        names_files_of(manifest@, from@),
        manifest.wf(),
{
    Manifest::from_path(from)
}

/// Brings the directory `to` to the state that `manifest` describes, with the
/// chunks of `provider`, and reports the progress to `on_progress`.
fn sync_into<T: ChunkProvider, F: FnMut(u32)>(
    manifest: Manifest,
    provider: T,
    to: &mut Directory,
    on_progress: F,
) -> (synced: Result<(), Error>)
    requires
        old(to).wf(),
        forall|percent: u32| call_requires(on_progress, (percent,)),
    ensures
        final(to).wf(),
        synced is Ok ==> count_operations(spec_plan(manifest@, old(to)@)) <= u32::MAX,
        count_operations(spec_plan(manifest@, old(to)@)) <= u32::MAX ==> destination_well_cut(
            manifest@,
            old(to)@,
        ),
        provider.vouches() && synced is Ok ==> ({
            let plan = spec_plan(manifest@, old(to)@);
            spec_execute(old(to)@, plan, provider.catalog_with(plan)) == Some(final(to)@)
        }),
        provider.vouches() ==> ({
            let plan = spec_plan(manifest@, old(to)@);
            count_operations(plan) <= u32::MAX && stocks_plan(&provider, plan) && spec_execute(
                old(to)@,
                plan,
                provider.catalog_with(plan),
            ) is Some ==> synced is Ok
        }),
        provider.vouches() && synced is Err ==> ({
            let plan = spec_plan(manifest@, old(to)@);
            if count_operations(plan) > u32::MAX {
                final(to)@ == old(to)@
            } else {
                stopped_midway(old(to)@, plan, provider.catalog_with(plan), final(to)@)
            }
        }),
        plan_fetches_nothing(spec_plan(manifest@, old(to)@)) ==> ({
            let plan = spec_plan(manifest@, old(to)@);
            match synced {
                Ok(_) => spec_execute(old(to)@, plan, Map::empty()) == Some(final(to)@),
                Err(_) => count_operations(plan) > u32::MAX || spec_execute(
                    old(to)@,
                    plan,
                    Map::empty(),
                ) is None,
            }
        }),
        count_operations(spec_plan(manifest@, old(to)@)) > u32::MAX ==> final(to)@ == old(to)@,
        keeps_other_files(old(to)@, final(to)@, spec_plan(manifest@, old(to)@)),
        synced is Ok ==> holds_planned(final(to)@, spec_plan(manifest@, old(to)@)),
{
    let mut destination = Directory::new();
    std::mem::swap(to, &mut destination);
    let mut syncer = Syncer::new(destination, provider, manifest);
    syncer.on_progress(on_progress);
    let synced = syncer.sync();
    let Syncer { destination, provider: _, manifest: _, progress: _ } = syncer;
    *to = destination;
    synced
}

/// Brings the directory `to` to the state that `manifest` describes, with the
/// chunks of `provider`.
///
/// The sync is planned against `to` as it is and the plan is carried out file
/// by file. Files of `to` that the manifest does not name stay as they are. If
/// the sync fails, the files rewritten before the failure stay rewritten.
///
/// Whatever the provider does, a file that the plan does not name is left as
/// it is, no file is lost, and a sync that fetches nothing succeeds exactly
/// where every rewrite can be carried out. Of a provider that vouches for its
/// answers the contract also says what `to` holds after a successful sync,
/// and that the sync succeeds if the provider has the plan in stock and every
/// rewrite can be carried out. The plan must not hold more operations than
/// fit in 32 bits; if it does, the sync fails and changes nothing.
pub fn sync_from_manifest<T: ChunkProvider>(manifest: Manifest, provider: T, to: &mut Directory) -> (synced:
    Result<(), Error>)
    requires
        old(to).wf(),
    ensures
        final(to).wf(),
        synced is Ok ==> count_operations(spec_plan(manifest@, old(to)@)) <= u32::MAX,
        count_operations(spec_plan(manifest@, old(to)@)) <= u32::MAX ==> destination_well_cut(
            manifest@,
            old(to)@,
        ),
        provider.vouches() && synced is Ok ==> ({
            let plan = spec_plan(manifest@, old(to)@);
            spec_execute(old(to)@, plan, provider.catalog_with(plan)) == Some(final(to)@)
        }),
        provider.vouches() ==> ({
            let plan = spec_plan(manifest@, old(to)@);
            count_operations(plan) <= u32::MAX && stocks_plan(&provider, plan) && spec_execute(
                old(to)@,
                plan,
                provider.catalog_with(plan),
            ) is Some ==> synced is Ok
        }),
        provider.vouches() && synced is Err ==> ({
            let plan = spec_plan(manifest@, old(to)@);
            if count_operations(plan) > u32::MAX {
                final(to)@ == old(to)@
            } else {
                stopped_midway(old(to)@, plan, provider.catalog_with(plan), final(to)@)
            }
        }),
        plan_fetches_nothing(spec_plan(manifest@, old(to)@)) ==> ({
            let plan = spec_plan(manifest@, old(to)@);
            match synced {
                Ok(_) => spec_execute(old(to)@, plan, Map::empty()) == Some(final(to)@),
                Err(_) => count_operations(plan) > u32::MAX || spec_execute(
                    old(to)@,
                    plan,
                    Map::empty(),
                ) is None,
            }
        }),
        count_operations(spec_plan(manifest@, old(to)@)) > u32::MAX ==> final(to)@ == old(to)@,
        keeps_other_files(old(to)@, final(to)@, spec_plan(manifest@, old(to)@)),
        synced is Ok ==> holds_planned(final(to)@, spec_plan(manifest@, old(to)@)),
{
    sync_into(manifest, provider, to, silent)
}

/// Makes the files of `to` that `from` has too equal to those of `from`, and
/// adds the ones it lacks, reporting the progress to `on_progress`: a number
/// from 0 to 100 after each operation.
///
/// The contract is that of [`sync`].
pub fn sync_with_progress<F: FnMut(u32)>(from: &Directory, to: &mut Directory, on_progress: F) -> (synced:
    Result<(), Error>)
    requires
        from.wf(),
        old(to).wf(),
        forall|percent: u32| call_requires(on_progress, (percent,)),
    ensures
        final(to).wf(),
        synced is Ok ==> ({
            let plan = spec_plan(manifest_of(*from), old(to)@);
            spec_execute(old(to)@, plan, directory_catalog(*from, plan)) == Some(final(to)@)
        }),
        sound_identifiers(manifest_of(*from), from@, old(to)@) ==> (synced is Ok
            <==> count_operations(spec_plan(manifest_of(*from), old(to)@)) <= u32::MAX),
        synced is Err ==> ({
            let plan = spec_plan(manifest_of(*from), old(to)@);
            if count_operations(plan) > u32::MAX {
                final(to)@ == old(to)@
            } else {
                stopped_midway(old(to)@, plan, directory_catalog(*from, plan), final(to)@)
            }
        }),
        plan_fetches_nothing(spec_plan(manifest_of(*from), old(to)@)) ==> ({
            let plan = spec_plan(manifest_of(*from), old(to)@);
            match synced {
                Ok(_) => spec_execute(old(to)@, plan, Map::empty()) == Some(final(to)@),
                Err(_) => count_operations(plan) > u32::MAX || spec_execute(
                    old(to)@,
                    plan,
                    Map::empty(),
                ) is None,
            }
        }),
        keeps_other_files(old(to)@, final(to)@, spec_plan(manifest_of(*from), old(to)@)),
        synced is Ok ==> holds_planned(final(to)@, spec_plan(manifest_of(*from), old(to)@)),
        count_operations(spec_plan(manifest_of(*from), old(to)@)) <= u32::MAX
            ==> destination_well_cut(manifest_of(*from), old(to)@),
        synced is Ok && sound_identifiers(manifest_of(*from), from@, old(to)@) ==> left_by_sync(
            *from,
            old(to)@,
            final(to)@,
        ),
        forall|before: Map<Seq<char>, Seq<u8>>| #[trigger]
            left_by_sync(*from, before, old(to)@) ==> synced is Ok && final(to)@ == old(to)@,
        synced is Ok && sound_identifiers(manifest_of(*from), from@, old(to)@) && nothing_stale(
            manifest_of(*from),
            from@,
            old(to)@,
        ) ==> mirrors(from@, old(to)@, final(to)@),
{
    let manifest = generate_manifest(from);
    let provider = CachingChunkProvider::new(from);
    let ghost books = provider;
    let synced = sync_into(manifest, provider, to, on_progress);
    proof {
        let files = manifest_of(*from);
        let plan = spec_plan(files, old(to)@);
        if sound_identifiers(files, from@, old(to)@) && count_operations(plan) <= u32::MAX {
            lemma_directory_can_sync(*from, files, old(to)@);
            lemma_sync_reproduces_source(files, from@, old(to)@, directory_catalog(*from, plan));
            lemma_directory_stocks_plan(*from, files, old(to)@, books);
        }
        if synced is Ok && sound_identifiers(manifest_of(*from), from@, old(to)@) && nothing_stale(
            manifest_of(*from),
            from@,
            old(to)@,
        ) {
            lemma_directory_sync_mirrors(*from, manifest_of(*from), old(to)@);
        }
        assert forall|before: Map<Seq<char>, Seq<u8>>| #[trigger]
            left_by_sync(*from, before, old(to)@) implies synced is Ok && final(to)@
            == old(to)@ by {
            lemma_directory_second_sync(*from, files, before, Map::empty());
        }
    }
    synced
}

/// Makes the files of `to` that `from` has too equal to those of `from`, and
/// adds the ones it lacks. Files that only `to` has stay as they are.
///
/// The manifest of `from` is built, the sync is planned against `to` as it is,
/// and the plan is carried out with the chunks of `from`.
///
/// Chunks are told apart by their identifiers alone. Where identifiers are
/// sound, that is where no two chunks that meet in the sync have different
/// bytes and the same identifier, the sync succeeds unless the plan holds
/// more operations than fit in 32 bits, and afterwards `to` mirrors `from`,
/// but for stale files: the sync does not make a file that is empty at the
/// source and missing at the destination, and it does not cut a destination
/// file that goes on behind a copy of the source file whose last chunk ends
/// where the chunker would have cut anyway. A sync of what such a sync has
/// left succeeds and changes nothing.
///
/// Whatever the identifiers, a file of `to` that the plan does not name is
/// left as it is, and no file is lost.
pub fn sync(from: &Directory, to: &mut Directory) -> (synced: Result<(), Error>)
    requires
        from.wf(),
        old(to).wf(),
    ensures
        final(to).wf(),
        synced is Ok ==> ({
            let plan = spec_plan(manifest_of(*from), old(to)@);
            spec_execute(old(to)@, plan, directory_catalog(*from, plan)) == Some(final(to)@)
        }),
        sound_identifiers(manifest_of(*from), from@, old(to)@) ==> (synced is Ok
            <==> count_operations(spec_plan(manifest_of(*from), old(to)@)) <= u32::MAX),
        synced is Err ==> ({
            let plan = spec_plan(manifest_of(*from), old(to)@);
            if count_operations(plan) > u32::MAX {
                final(to)@ == old(to)@
            } else {
                stopped_midway(old(to)@, plan, directory_catalog(*from, plan), final(to)@)
            }
        }),
        plan_fetches_nothing(spec_plan(manifest_of(*from), old(to)@)) ==> ({
            let plan = spec_plan(manifest_of(*from), old(to)@);
            match synced {
                Ok(_) => spec_execute(old(to)@, plan, Map::empty()) == Some(final(to)@),
                Err(_) => count_operations(plan) > u32::MAX || spec_execute(
                    old(to)@,
                    plan,
                    Map::empty(),
                ) is None,
            }
        }),
        keeps_other_files(old(to)@, final(to)@, spec_plan(manifest_of(*from), old(to)@)),
        synced is Ok ==> holds_planned(final(to)@, spec_plan(manifest_of(*from), old(to)@)),
        count_operations(spec_plan(manifest_of(*from), old(to)@)) <= u32::MAX
            ==> destination_well_cut(manifest_of(*from), old(to)@),
        synced is Ok && sound_identifiers(manifest_of(*from), from@, old(to)@) ==> left_by_sync(
            *from,
            old(to)@,
            final(to)@,
        ),
        forall|before: Map<Seq<char>, Seq<u8>>| #[trigger]
            left_by_sync(*from, before, old(to)@) ==> synced is Ok && final(to)@ == old(to)@,
        synced is Ok && sound_identifiers(manifest_of(*from), from@, old(to)@) && nothing_stale(
            manifest_of(*from),
            from@,
            old(to)@,
        ) ==> mirrors(from@, old(to)@, final(to)@),
{
    sync_with_progress(from, to, silent)
}

} // verus!

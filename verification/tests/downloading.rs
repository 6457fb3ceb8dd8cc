use binsync::chunk::{Chunk, Operation, SyncPlan};
use binsync::remote::{
    AsyncDownloader, Lookup, PackDownloader, PackRequest, WorkerState, DEFAULT_CACHE_LIMIT,
};
use binsync::text::{decimal, ends_with_slash};
use binsync::{Error, FileChunkInfo, Manifest, RemoteChunkProvider, RemoteManifest};

fn request(pack_id: u64, length: u64, urgent: bool) -> PackRequest {
    PackRequest { pack_id, length, urgent }
}

fn remote_of(lengths: &[u64], size: usize) -> RemoteManifest {
    let mut chunks = Vec::new();
    let mut offset = 0;
    for (index, length) in lengths.iter().enumerate() {
        chunks.push(Chunk { hash: index as u64 + 1, offset, length: *length });
        offset += length;
    }
    let manifest = Manifest { files: vec![FileChunkInfo { path: "file".to_string(), chunks }] };
    RemoteManifest::with_pack_size(size, manifest)
}

#[test]
fn numbers_are_written_in_decimal() {
    assert_eq!(decimal(0), "0");
    assert_eq!(decimal(7), "7");
    assert_eq!(decimal(10), "10");
    assert_eq!(decimal(1234567890), "1234567890");
    assert_eq!(decimal(u64::MAX), "18446744073709551615");
}

#[test]
fn a_trailing_slash_is_recognised() {
    assert!(ends_with_slash("http://host/"));
    assert!(!ends_with_slash("http://host"));
    assert!(!ends_with_slash(""));
    assert!(ends_with_slash("/"));
}

#[test]
fn addresses_are_built_below_the_base() {
    let bare = AsyncDownloader::new("http://host/packs");
    assert_eq!(bare.base_url, "http://host/packs/");
    assert_eq!(bare.pack_url(42), "http://host/packs/42.binpack");
    assert_eq!(bare.manifest_url(), "http://host/packs/manifest.binsync");
    let slashed = AsyncDownloader::new("http://host/packs/");
    assert_eq!(slashed.base_url, "http://host/packs/");
    assert_eq!(slashed.pack_url(u64::MAX), "http://host/packs/18446744073709551615.binpack");
}

#[test]
fn the_default_cache_holds_100_mib() {
    assert_eq!(DEFAULT_CACHE_LIMIT, 100 * 1024 * 1024);
}

#[test]
fn a_new_downloader_is_idle() {
    let mut downloader = PackDownloader::new(10);
    assert_eq!(downloader.state, WorkerState::Idle);
    assert!(downloader.alive());
    assert_eq!(downloader.next_request(), None);
    assert_eq!(downloader.get_pack(1), None);
}

#[test]
fn requests_are_served_in_the_order_in_which_they_came() {
    let mut downloader = PackDownloader::new(100);
    assert!(downloader.preload(1, 10));
    assert_eq!(downloader.state, WorkerState::Enqueued);
    assert!(downloader.preload(2, 10));
    assert_eq!(downloader.next_request(), Some(request(1, 10, false)));
    assert_eq!(downloader.state, WorkerState::Fetching);
    assert_eq!(downloader.next_request(), None);
    downloader.complete(Some(vec![0; 10]));
    assert_eq!(downloader.state, WorkerState::Enqueued);
    assert_eq!(downloader.next_request(), Some(request(2, 10, false)));
    downloader.complete(Some(vec![1; 10]));
    assert_eq!(downloader.state, WorkerState::Idle);
    assert_eq!(downloader.get_pack(1), Some(&vec![0; 10]));
    assert_eq!(downloader.get_pack(2), Some(&vec![1; 10]));
    assert_eq!(downloader.cache_size, 20);
    assert_eq!(downloader.queued_size, 0);
}

#[test]
fn an_urgent_request_goes_first() {
    let mut downloader = PackDownloader::new(100);
    assert!(downloader.preload(1, 10));
    assert!(downloader.preload(2, 10));
    assert!(downloader.download(3, 10));
    assert!(downloader.download(4, 10));
    assert_eq!(downloader.next_request(), Some(request(3, 10, true)));
    downloader.complete(Some(vec![3; 10]));
    assert_eq!(downloader.next_request(), Some(request(4, 10, true)));
    downloader.complete(Some(vec![4; 10]));
    assert_eq!(downloader.next_request(), Some(request(1, 10, false)));
    downloader.complete(Some(vec![1; 10]));
    assert_eq!(downloader.next_request(), Some(request(2, 10, false)));
}

#[test]
fn fetching_ahead_stops_when_the_cache_is_full() {
    let mut downloader = PackDownloader::new(25);
    assert!(downloader.preload(1, 10));
    assert!(downloader.preload(2, 10));
    assert!(downloader.preload(3, 10));
    assert!(!downloader.preload(4, 10));
    assert_eq!(downloader.queue.len(), 3);
    assert_eq!(downloader.queued_size, 30);
    assert!(downloader.download(5, 10));
    assert_eq!(downloader.queued_size, 40);
    assert_eq!(downloader.next_request(), Some(request(5, 10, true)));
    downloader.complete(Some(vec![5; 10]));
    assert_eq!(downloader.cache_size, 10);
    assert_eq!(downloader.queued_size, 30);
    assert!(!downloader.preload(6, 1));
}

#[test]
fn a_cache_without_room_takes_no_request_ahead() {
    let mut downloader = PackDownloader::new(0);
    assert!(!downloader.preload(1, 10));
    assert_eq!(downloader.state, WorkerState::Idle);
    assert!(downloader.download(1, 10));
}

#[test]
fn a_failed_fetch_stops_the_worker() {
    let mut downloader = PackDownloader::new(100);
    assert!(downloader.preload(1, 10));
    assert!(downloader.preload(2, 10));
    assert_eq!(downloader.next_request(), Some(request(1, 10, false)));
    downloader.complete(None);
    assert_eq!(downloader.state, WorkerState::Failed);
    assert!(!downloader.alive());
    assert_eq!(downloader.next_request(), None);
    assert!(!downloader.preload(3, 10));
    assert!(!downloader.download(3, 10));
    assert_eq!(downloader.get_pack(1), None);
    assert_eq!(downloader.queue.len(), 1);
}

#[test]
fn termination_ends_everything() {
    let mut downloader = PackDownloader::new(100);
    assert!(downloader.download(1, 10));
    assert_eq!(downloader.next_request(), Some(request(1, 10, true)));
    downloader.terminate();
    assert_eq!(downloader.state, WorkerState::Exited);
    downloader.complete(Some(vec![1; 10]));
    assert_eq!(downloader.get_pack(1), None);
    assert_eq!(downloader.next_request(), None);
    assert!(!downloader.download(2, 10));
    let mut idle = PackDownloader::new(100);
    idle.terminate();
    assert_eq!(idle.state, WorkerState::Exited);
}

#[test]
fn completing_without_a_fetch_changes_nothing() {
    let mut downloader = PackDownloader::new(100);
    downloader.complete(Some(vec![1, 2, 3]));
    assert_eq!(downloader.state, WorkerState::Idle);
    assert_eq!(downloader.cache_size, 0);
    assert_eq!(downloader.get_pack(0), None);
}

#[test]
fn the_plan_names_each_pack_once() {
    let remote = remote_of(&[40, 40, 40, 40, 40], 100);
    let packs: Vec<(u64, u64)> = remote.packs.iter().map(|pack| (pack.hash, pack.length)).collect();
    assert_eq!(packs.len(), 3);
    let mut provider = RemoteChunkProvider::new("http://host", &remote).unwrap();
    let fetch = |hash| Operation::Fetch(Chunk { hash, offset: 0, length: 40 });
    let plan = SyncPlan {
        operations: vec![
            ("x".to_string(), vec![fetch(5), Operation::Seek(1), fetch(1)]),
            ("y".to_string(), vec![fetch(2), fetch(99), fetch(5), Operation::Copy(Chunk { hash: 3, offset: 0, length: 40 })]),
        ],
        total_ops: 7,
    };
    assert_eq!(provider.planned_packs(&plan), vec![packs[2], packs[0]]);
    assert_eq!(provider.set_plan(&plan), 2);
    assert_eq!(
        provider.downloader.queue,
        vec![request(packs[2].0, 40, false), request(packs[0].0, 80, false)]
    );
    assert_eq!(provider.urls.pack_url(7), "http://host/7.binpack");
}

#[test]
fn a_chunk_is_served_once_its_pack_has_arrived() {
    let remote = remote_of(&[3, 2], 100);
    let pack_id = remote.packs[0].hash;
    let mut provider = RemoteChunkProvider::new("http://host/", &remote).unwrap();
    match provider.get_chunk(&2).unwrap() {
        Lookup::Wanted(wanted) => assert_eq!(wanted, request(pack_id, 5, true)),
        Lookup::Ready(_) => panic!("nothing has arrived yet"),
    }
    assert_eq!(provider.downloader.next_request(), Some(request(pack_id, 5, true)));
    provider.downloader.complete(Some(vec![1, 2, 3, 4, 5]));
    match provider.get_chunk(&2).unwrap() {
        Lookup::Ready(data) => assert_eq!(data, vec![4, 5]),
        Lookup::Wanted(_) => panic!("the pack has arrived"),
    }
    match provider.get_chunk(&1).unwrap() {
        Lookup::Ready(data) => assert_eq!(data, vec![1, 2, 3]),
        Lookup::Wanted(_) => panic!("the pack has arrived"),
    }
}

#[test]
fn the_remote_provider_reports_what_goes_wrong() {
    let remote = remote_of(&[3, 2], 100);
    let mut provider = RemoteChunkProvider::new("http://host/", &remote).unwrap();
    assert!(matches!(provider.get_chunk(&9), Err(Error::ChunkNotFound(9))));
    assert!(provider.downloader.queue.is_empty());
    assert_eq!(provider.downloader.state, WorkerState::Idle);
    assert!(matches!(provider.get_chunk(&1), Ok(Lookup::Wanted(_))));
    provider.downloader.next_request().unwrap();
    provider.downloader.complete(Some(vec![1, 2, 3, 4]));
    assert!(matches!(provider.get_chunk(&1), Err(Error::Unspecified(_))));
    let mut stopped = RemoteChunkProvider::new("http://host/", &remote).unwrap();
    stopped.downloader.terminate();
    assert!(matches!(stopped.get_chunk(&1), Err(Error::Unspecified(_))));
}

#[test]
fn a_stopped_worker_takes_no_plan() {
    let remote = remote_of(&[40, 40, 40], 100);
    let mut provider = RemoteChunkProvider::new("http://host", &remote).unwrap();
    provider.downloader.terminate();
    let fetch = |hash| Operation::Fetch(Chunk { hash, offset: 0, length: 40 });
    let plan = SyncPlan { operations: vec![("x".to_string(), vec![fetch(1), fetch(3)])], total_ops: 2 };
    assert_eq!(provider.set_plan(&plan), 0);
    assert!(provider.downloader.queue.is_empty());
    assert_eq!(provider.downloader.state, WorkerState::Exited);
}

#[test]
fn a_plan_is_taken_as_far_as_there_is_room() {
    let remote = remote_of(&[40, 40, 40, 40, 40], 50);
    let packs: Vec<(u64, u64)> = remote.packs.iter().map(|pack| (pack.hash, pack.length)).collect();
    assert_eq!(packs.len(), 5);
    let mut provider = RemoteChunkProvider::new("http://host", &remote).unwrap();
    provider.downloader.cache_limit = 70;
    let fetch = |hash| Operation::Fetch(Chunk { hash, offset: 0, length: 40 });
    let plan = SyncPlan {
        operations: vec![("x".to_string(), vec![fetch(1), fetch(2), fetch(3), fetch(4)])],
        total_ops: 4,
    };
    assert_eq!(provider.set_plan(&plan), 2);
    assert_eq!(
        provider.downloader.queue,
        vec![request(packs[0].0, 40, false), request(packs[1].0, 40, false)]
    );
    assert_eq!(provider.downloader.queued_size, 80);
    assert_eq!(provider.downloader.state, WorkerState::Enqueued);
}

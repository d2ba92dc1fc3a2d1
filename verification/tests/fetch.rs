use scup::fetch::{object_refs, total_objects_hint, Fetch, FetchFault, Fetched};
use scup::model::{
    Blob, Chunk, List, Object, ObjectId, PathMap, Repository, RepositoryId, Snapshot, Timestamp,
};
use scup::protocol::{Request, Response};
use scup::serve::{dispatch_request, Task};
use scup::snapshot::FileRecord;
use scup::sorted_map::{SortedMap, SortedSet};

fn id(n: u8) -> ObjectId {
    ObjectId([n; 32])
}

fn at(secs: u64) -> Timestamp {
    Timestamp { before_epoch: false, secs, nanos: 0 }
}

fn record(path: &str, chunks: &[u8], mtime: u64) -> FileRecord {
    FileRecord {
        path: path.to_string(),
        modified_time: Some(at(mtime)),
        accessed_time: None,
        created_time: None,
        leaves: chunks.iter().map(|n| (id(*n), 0)).collect(),
    }
}

fn remote() -> Repository {
    let mut repo = Repository::init_at(
        RepositoryId([1; 32]),
        &vec![record("a", &[1, 2, 3], 1), record("b", &[4], 1)],
        at(1),
    );
    repo.snapshot_at(&vec![record("a", &[5, 1], 2), record("b", &[4], 1)], None, at(2));
    repo
}

/// Walks over what `server` has; the bytes of a chunk are the first byte of its id.
fn walk(server: &Repository, local: SortedSet<ObjectId>, hint: Option<usize>, max: usize) -> (Fetched, usize) {
    let mut fetch = Fetch::new(server.repo_uuid, local, hint, max);
    let mut requests = 0;
    while let Some(request) = fetch.next_request() {
        requests += 1;
        if let Request::PullObjects { object_ids, .. } = &request {
            assert!(!object_ids.is_empty() && object_ids.len() <= max);
        }
        let response = match dispatch_request(&request, Some(server)) {
            Task::Reply(r) => r,
            Task::ReadChunks(a) => {
                let reads = a.chunk_ids.iter().map(|c| Some(vec![c.0[0]])).collect();
                a.finish(reads)
            }
            Task::PullBack => panic!("not asked for"),
        };
        assert_eq!(fetch.take_response(&response), Ok(()));
        assert!(fetch.total() >= fetch.pulled());
    }
    (fetch.finish(), requests)
}

#[test]
fn objects_lead_to_objects() {
    assert_eq!(object_refs(&Object::Chunk(Chunk)), vec![]);
    let blob = Blob {
        chunks: id(3),
        modified_time: None,
        accessed_time: None,
        created_time: None,
        mode: 0,
    };
    assert_eq!(object_refs(&Object::Blob(blob)), vec![id(3)]);
    assert_eq!(object_refs(&Object::List(List { entries: vec![id(2), id(1)] })), vec![id(2), id(1)]);
    let mut entries = SortedMap::new();
    entries.insert("z".to_string(), id(1));
    entries.insert("a".to_string(), id(9));
    assert_eq!(object_refs(&Object::PathMap(PathMap { entries })), vec![id(9), id(1)]);
    let snap = Snapshot { parents: vec![id(7)], tree: id(8), message: None, date: at(0) };
    assert_eq!(object_refs(&Object::Snapshot(snap)), vec![id(8), id(7)]);
}

#[test]
fn a_clone_is_whole() {
    let server = remote();
    for max in [1, 2, 2048] {
        let (fetched, _) = walk(&server, SortedMap::new(), Some(server.objects.len()), max);
        assert_eq!(fetched.head, server.head);
        assert_eq!(fetched.objects, server.objects);
        assert_eq!(fetched.chunks.len(), 5);
        assert_eq!(fetched.chunks.get(&id(4)), Some(&vec![4]));
        let clone = Repository::from_fetched(server.repo_uuid, fetched.head, fetched.objects);
        assert_eq!(clone, server);
    }
}

#[test]
fn only_what_is_missing_is_asked_for() {
    let server = remote();
    let mut local = server.clone();
    let mut server = server;
    server.snapshot_at(&vec![record("c", &[6], 3)], None, at(3));
    let before = local.objects.len();
    let (fetched, requests) = walk(&server, local.object_ids(), None, 2048);
    // The chunk, its list, its blob, the tree and the snapshot.
    assert_eq!(fetched.objects.len(), 5);
    assert_eq!(fetched.chunks.len(), 1);
    assert_eq!(requests, 6);
    local.merge_fetched_at(fetched.head, &fetched.objects, at(9));
    // The tree of the merge, and the merge.
    assert_eq!(local.objects.len(), before + 5 + 2);
    let files = local.map_entries_for_snapshot(local.head);
    assert_eq!(files.len(), 3);
}

#[test]
fn a_peer_with_nothing_new_is_asked_once() {
    let server = remote();
    let mut local = server.clone();
    let (fetched, requests) = walk(&server, local.object_ids(), None, 64);
    assert_eq!(requests, 1);
    local.merge_fetched(fetched.head, &fetched.objects);
    assert_eq!(local, server);
}

#[test]
fn objects_that_a_peer_lacks_are_not_waited_for() {
    let mut server = remote();
    server.objects.remove(&id(4));
    let (fetched, _) = walk(&server, SortedMap::new(), None, 3);
    assert_eq!(fetched.objects, server.objects);
}

#[test]
fn faults_of_a_walk() {
    let start = || Fetch::new(RepositoryId([1; 32]), SortedMap::new(), None, 10);
    let mut f = start();
    let e = f.take_response(&Response::Error("no".to_string())).unwrap_err();
    assert_eq!(e, FetchFault::SnapshotIdsFailed("no".to_string()));
    assert_eq!(e.message(), "snapshot id pull failed: no");
    let e = f.take_response(&Response::PushComplete).unwrap_err();
    assert_eq!(e, FetchFault::UnexpectedToSnapshotIds);
    assert_eq!(e.message(), "unexpected response to PullSnapshotIds");
    let told = Response::PullSnapshotIds { head: id(1), snapshot_ids: vec![id(1)] };
    assert_eq!(f.take_response(&told), Ok(()));
    assert_eq!(
        f.next_request(),
        Some(Request::PullObjects { repo_uuid: RepositoryId([1; 32]), object_ids: vec![id(1)] })
    );
    let e = f.take_response(&Response::Error("gone".to_string())).unwrap_err();
    assert_eq!(e, FetchFault::ObjectsFailed("gone".to_string()));
    assert_eq!(e.message(), "object pull failed: gone");
    let e = f.take_response(&told).unwrap_err();
    assert_eq!(e, FetchFault::UnexpectedToObjects);
    assert_eq!(e.message(), "unexpected response to PullObjects");
}

#[test]
fn progress_goes_by_the_hint_and_by_what_is_needed() {
    let mut local: SortedSet<ObjectId> = SortedMap::new();
    local.insert(id(50), ());
    let told = Response::PullSnapshotIds { head: id(1), snapshot_ids: vec![id(1), id(2), id(50)] };
    let mut f = Fetch::new(RepositoryId([1; 32]), local, Some(10), 5);
    assert_eq!(f.take_response(&told), Ok(()));
    assert_eq!(f.total(), 9);
    let mut f = Fetch::new(RepositoryId([1; 32]), SortedMap::new(), None, 5);
    assert_eq!(f.take_response(&told), Ok(()));
    assert_eq!(f.total(), 3);
    assert_eq!(f.pulled(), 0);
    let _ = f.next_request();
    let list = Object::List(List { entries: vec![id(5), id(6), id(7), id(8), id(9)] });
    let given = Response::PullObjects { objects: vec![(id(1), list)], chunks: vec![] };
    assert_eq!(f.take_response(&given), Ok(()));
    assert_eq!(f.pulled(), 1);
    assert_eq!(f.total(), 6);
}

#[test]
fn the_first_bytes_of_a_chunk_stay() {
    let mut f = Fetch::new(RepositoryId([1; 32]), SortedMap::new(), None, 5);
    let told = Response::PullSnapshotIds { head: id(1), snapshot_ids: vec![id(1)] };
    assert_eq!(f.take_response(&told), Ok(()));
    let given = Response::PullObjects {
        objects: vec![(id(1), Object::Chunk(Chunk))],
        chunks: vec![(id(1), vec![1]), (id(1), vec![2])],
    };
    assert_eq!(f.take_response(&given), Ok(()));
    assert_eq!(f.finish().chunks.get(&id(1)), Some(&vec![1]));
}

#[test]
fn the_status_of_a_peer_tells_how_many_objects_it_has() {
    assert_eq!(total_objects_hint(&Response::Status { head: id(1), object_count: 7 }), Some(7));
    assert_eq!(total_objects_hint(&Response::PushComplete), None);
}

#[test]
fn a_walk_brings_the_same_in_any_batches() {
    let before = remote();
    let local = before.object_ids();
    let mut server = before;
    server.snapshot_at(&vec![record("c", &[6, 7], 3)], None, at(3));
    // What no snapshot leads to stays where it is.
    server.objects.insert(id(99), Object::Chunk(Chunk));
    let (whole, _) = walk(&server, local.clone(), None, 2048);
    // Two chunks, their list, their blob, the tree and the snapshot.
    assert_eq!(whole.objects.len(), 6);
    assert!(!whole.objects.contains_key(&id(99)));
    assert_eq!(whole.chunks.len(), 2);
    assert_eq!(whole.chunks.get(&id(6)), Some(&vec![6]));
    assert_eq!(whole.chunks.get(&id(7)), Some(&vec![7]));
    for i in 0..whole.objects.len() {
        let (k, object) = whole.objects.entry(i);
        assert!(!local.contains_key(k));
        assert_eq!(server.objects.get(k), Some(object));
    }
    for (hint, max) in [(None, 1), (Some(1000), 2), (Some(0), 3), (None, 64)] {
        let (part, _) = walk(&server, local.clone(), hint, max);
        assert_eq!(part.objects, whole.objects);
        assert_eq!(part.chunks, whole.chunks);
        assert_eq!(part.head, whole.head);
    }
}

use scup::model::{
    Blob, Chunk, Object, ObjectId, Repository, RepositoryId, Snapshot, Timestamp,
};
use scup::protocol::{Request, Response, PROTOCOL_VERSION};
use scup::serve::{
    accepts_key, dispatch_request, eof_reply, has_changed, is_early_eof, local_pull_response,
    PullAnswer, Task,
};
use scup::sorted_map::SortedMap;

const UUID: RepositoryId = RepositoryId([5; 32]);
const OTHER: RepositoryId = RepositoryId([6; 32]);

fn id(n: u8) -> ObjectId {
    ObjectId([n; 32])
}

fn snapshot() -> Object {
    Object::Snapshot(Snapshot {
        parents: vec![],
        tree: id(0),
        message: None,
        date: Timestamp { before_epoch: false, secs: 0, nanos: 0 },
    })
}

fn blob() -> Object {
    Object::Blob(Blob {
        chunks: id(1),
        modified_time: None,
        accessed_time: None,
        created_time: None,
        mode: 0,
    })
}

fn repo() -> Repository {
    let mut objects = SortedMap::new();
    objects.insert(id(9), snapshot());
    objects.insert(id(2), blob());
    objects.insert(id(4), snapshot());
    objects.insert(id(3), Object::Chunk(Chunk));
    objects.insert(id(7), Object::Chunk(Chunk));
    Repository { repo_uuid: UUID, objects, head: id(9) }
}

fn error(task: Task) -> String {
    match task {
        Task::Reply(Response::Error(e)) => e,
        other => panic!("{other:?}"),
    }
}

fn answer(task: Task) -> PullAnswer {
    match task {
        Task::ReadChunks(a) => a,
        other => panic!("{other:?}"),
    }
}

#[test]
fn version_and_status() {
    let r = repo();
    let version = Task::Reply(Response::Version { version: PROTOCOL_VERSION });
    assert_eq!(dispatch_request(&Request::Version, None), version);
    assert_eq!(
        dispatch_request(&Request::Status, Some(&r)),
        Task::Reply(Response::Status { head: id(9), object_count: 5 })
    );
    assert_eq!(
        error(dispatch_request(&Request::Status, None)),
        "repository not found — run `scup init` first"
    );
}

#[test]
fn snapshots_are_told_in_order() {
    let r = repo();
    let asked = Request::PullSnapshotIds { repo_uuid: UUID };
    let told =
        Task::Reply(Response::PullSnapshotIds { head: id(9), snapshot_ids: vec![id(4), id(9)] });
    assert_eq!(dispatch_request(&asked, Some(&r)), told);
    let told =
        Task::Reply(Response::PullSnapshotIds { head: id(9), snapshot_ids: vec![id(4), id(9)] });
    assert_eq!(local_pull_response(&r, &asked), told);
}

#[test]
fn requests_for_another_repository_are_refused() {
    let r = repo();
    let text = format!(
        "unknown repo_uuid: requested={}, available={}",
        "06".repeat(32),
        "05".repeat(32)
    );
    let requests = [
        Request::Push { repo_uuid: OTHER },
        Request::PullSnapshotIds { repo_uuid: OTHER },
        Request::PullObjects { repo_uuid: OTHER, object_ids: vec![id(2)] },
    ];
    for q in &requests {
        assert_eq!(error(dispatch_request(q, Some(&r))), text);
        assert_eq!(
            error(dispatch_request(q, None)),
            "repository not found — run `scup init` first"
        );
    }
    assert_eq!(error(local_pull_response(&r, &requests[1])), text);
    assert_eq!(error(local_pull_response(&r, &requests[2])), text);
}

#[test]
fn a_push_is_answered_by_a_pull() {
    let r = repo();
    let push = Request::Push { repo_uuid: UUID };
    assert_eq!(dispatch_request(&push, Some(&r)), Task::PullBack);
    assert_eq!(error(local_pull_response(&r, &push)), "unsupported local pull request");
    assert_eq!(error(local_pull_response(&r, &Request::Status)), "unsupported local pull request");
    assert_eq!(
        local_pull_response(&r, &Request::Version),
        Task::Reply(Response::Version { version: PROTOCOL_VERSION })
    );
}

fn pull() -> Request {
    Request::PullObjects { repo_uuid: UUID, object_ids: vec![id(7), id(200), id(2), id(3)] }
}

#[test]
fn objects_are_given_with_the_bytes_of_their_chunks() {
    let r = repo();
    let a = answer(dispatch_request(&pull(), Some(&r)));
    assert_eq!(a.chunk_ids, vec![id(7), id(3)]);
    assert_eq!(
        a.finish(vec![Some(vec![70]), Some(vec![30])]),
        Response::PullObjects {
            objects: vec![
                (id(7), Object::Chunk(Chunk)),
                (id(2), blob()),
                (id(3), Object::Chunk(Chunk)),
            ],
            chunks: vec![(id(7), vec![70]), (id(3), vec![30])],
        }
    );
}

#[test]
fn a_missing_chunk_fails_at_the_server_and_is_left_out_by_the_client() {
    let r = repo();
    let missing = Response::Error(format!("missing chunk {}", "03".repeat(32)));
    let a = answer(dispatch_request(&pull(), Some(&r)));
    assert_eq!(a.finish(vec![Some(vec![70]), None]), missing);
    let a = answer(dispatch_request(&pull(), Some(&r)));
    assert_eq!(a.finish(vec![Some(vec![70])]), missing);
    let a = answer(local_pull_response(&r, &pull()));
    match a.finish_with_what_is_there(vec![None, Some(vec![30])]) {
        Response::PullObjects { objects, chunks } => {
            assert_eq!(objects.len(), 3);
            assert_eq!(chunks, vec![(id(3), vec![30])]);
        }
        other => panic!("{other:?}"),
    }
}

#[test]
fn bytes_left_at_the_end_are_an_error() {
    assert_eq!(eof_reply(&vec![]), None);
    assert_eq!(
        eof_reply(&vec![1]),
        Some(Response::Error("incomplete framed request at EOF".to_string()))
    );
}

#[test]
fn authentication_goes_by_the_key() {
    assert!(accepts_key(&None, &vec![1, 2]));
    assert!(accepts_key(&Some(vec![1, 2]), &vec![1, 2]));
    assert!(!accepts_key(&Some(vec![1, 2]), &vec![1, 3]));
    assert!(!accepts_key(&Some(vec![1, 2]), &vec![1]));
}

#[test]
fn a_repository_file_that_changed_is_read_again() {
    let t = |secs| Timestamp { before_epoch: false, secs, nanos: 0 };
    assert!(!has_changed(&Some((t(1), 5)), &Some((t(1), 5))));
    assert!(has_changed(&Some((t(1), 5)), &Some((t(2), 5))));
    assert!(has_changed(&Some((t(1), 5)), &Some((t(1), 6))));
    assert!(has_changed(&None, &Some((t(1), 6))));
    assert!(has_changed(&Some((t(1), 6)), &None));
    assert!(!has_changed(&None, &None));
}

#[test]
fn peers_that_just_go_are_told_from_errors() {
    assert!(is_early_eof("IO error: Early EOF"));
    assert!(!is_early_eof("broken pipe"));
}

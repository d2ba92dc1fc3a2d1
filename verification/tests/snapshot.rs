use scup::checkout::{
    assemble, blob_chunk_ids, checkout, checkout_head, parse_snapshot_hash, CheckoutFault,
    CheckoutPlan,
};
use scup::chunk::{split_chunks, ChunkStep};
use scup::clock::{now, timestamp_of};
use scup::model::{Object, ObjectId, Repository, RepositoryId, Timestamp};
use scup::snapshot::{is_unchanged, FileRecord};
use scup::sorted_map::SortedMap;
use std::collections::BTreeMap;

type Store = BTreeMap<ObjectId, Vec<u8>>;
type Tree = BTreeMap<String, Vec<u8>>;

fn at(secs: u64) -> Timestamp {
    Timestamp { before_epoch: false, secs, nanos: 0 }
}

fn record(path: &str, data: &[u8], mtime: u64, store: &mut Store) -> FileRecord {
    let mut reader = split_chunks();
    let mut leaves = Vec::new();
    let mut pieces = data.chunks(65536);
    loop {
        match reader.next() {
            ChunkStep::Chunk { id, data, digest } => {
                leaves.push((id, digest));
                store.insert(id, data);
            }
            ChunkStep::NeedInput => reader.refill(pieces.next().unwrap_or(&[]).to_vec()),
            ChunkStep::Done => break,
        }
    }
    FileRecord {
        path: path.to_string(),
        modified_time: Some(at(mtime)),
        accessed_time: None,
        created_time: Some(at(1)),
        leaves,
    }
}

fn empty() -> Repository {
    Repository {
        repo_uuid: RepositoryId([3; 32]),
        objects: SortedMap::new(),
        head: ObjectId::zero(),
    }
}

fn perform(plan: &CheckoutPlan, tree: &mut Tree, store: &Store) {
    for i in 0..plan.removals.len() {
        tree.remove(plan.removals.entry(i).0);
    }
    for w in &plan.writes {
        let parts: Vec<Vec<u8>> =
            w.chunks.as_ref().unwrap().iter().map(|id| store[id].clone()).collect();
        tree.insert(w.path.clone(), assemble(&parts));
    }
}

fn noise(n: usize) -> Vec<u8> {
    let mut x = 0x9e3779b97f4a7c15u64;
    (0..n)
        .map(|_| {
            x ^= x << 13;
            x ^= x >> 7;
            x ^= x << 17;
            (x >> 30) as u8
        })
        .collect()
}

#[test]
fn a_first_snapshot_has_no_parents() {
    let mut store = Store::new();
    let files = vec![record("./a", b"hello", 5, &mut store)];
    let repo = Repository::init_at(RepositoryId([8; 32]), &files, at(9));
    match repo.objects.get(&repo.head) {
        Some(Object::Snapshot(s)) => {
            assert_eq!(s.parents, vec![]);
            assert_eq!(s.message, Some("Initial snapshot".to_string()));
            assert_eq!(s.date, at(9));
        }
        other => panic!("{other:?}"),
    }
    // A chunk, its list, its blob, the tree and the snapshot.
    assert_eq!(repo.objects.len(), 5);
}

#[test]
fn repositories_get_names_of_their_own() {
    let files = vec![];
    let a = Repository::init(&files);
    let b = Repository::init(&files);
    assert_ne!(a.repo_uuid, b.repo_uuid);
    assert_ne!(a.repo_uuid, RepositoryId([0; 32]));
}

#[test]
fn a_later_snapshot_follows_on_the_head() {
    let mut store = Store::new();
    let mut repo = empty();
    repo.snapshot_at(&vec![record("./a", b"1", 5, &mut store)], None, at(1));
    let first = repo.head;
    repo.snapshot_at(&vec![record("./a", b"2", 6, &mut store)], Some("two".to_string()), at(2));
    match repo.objects.get(&repo.head) {
        Some(Object::Snapshot(s)) => assert_eq!(s.parents, vec![first]),
        other => panic!("{other:?}"),
    }
    repo.snapshot(&vec![], None);
    match repo.objects.get(&repo.head) {
        Some(Object::Snapshot(s)) => assert!(s.date.secs > 1_600_000_000),
        other => panic!("{other:?}"),
    }
}

#[test]
fn a_file_with_the_same_time_keeps_its_blob() {
    let mut store = Store::new();
    let mut repo = empty();
    repo.snapshot_at(&vec![record("./a", b"1", 5, &mut store)], None, at(1));
    let before = repo.map_entries_for_snapshot(repo.head);
    let prev = repo.previous_tree();
    assert!(is_unchanged(&prev, &"./a".to_string(), &Some(at(5))));
    assert!(!is_unchanged(&prev, &"./a".to_string(), &Some(at(6))));
    assert!(!is_unchanged(&prev, &"./a".to_string(), &None));
    assert!(!is_unchanged(&prev, &"./b".to_string(), &Some(at(5))));
    // Other bytes, but the time has not changed.
    repo.snapshot_at(&vec![record("./a", b"other", 5, &mut store)], None, at(2));
    assert_eq!(repo.map_entries_for_snapshot(repo.head), before);
}

#[test]
fn a_file_reads_back_as_it_was() {
    let mut store = Store::new();
    let mut repo = empty();
    let big = noise(400_000);
    let files = vec![
        record("./big.bin", &big, 1, &mut store),
        record("./none", b"", 1, &mut store),
    ];
    repo.snapshot_at(&files, None, at(1));
    let tree = repo.map_entries_for_snapshot(repo.head);
    let read = |path: &str| {
        let blob = *tree.get(&path.to_string()).unwrap();
        let parts: Vec<Vec<u8>> =
            blob_chunk_ids(&repo, blob).unwrap().iter().map(|id| store[id].clone()).collect();
        assemble(&parts)
    };
    assert_eq!(read("./big.bin"), big);
    assert_eq!(read("./none"), b"");
}

#[test]
fn checkout_moves_head_and_removes_files_not_in_target_snapshot() {
    let mut store = Store::new();
    let mut tree = Tree::new();
    let mut repo = empty();
    tree.insert("note.txt".to_string(), b"v1\n".to_vec());
    repo.snapshot_at(&vec![record("./note.txt", b"v1\n", 1, &mut store)], None, at(1));
    let first_head = repo.head;

    tree.insert("note.txt".to_string(), b"v2\n".to_vec());
    tree.insert("extra.txt".to_string(), b"extra\n".to_vec());
    tree.insert("mine".to_string(), b"not in any snapshot".to_vec());
    repo.snapshot_at(
        &vec![
            record("./extra.txt", b"extra\n", 2, &mut store),
            record("./note.txt", b"v2\n", 2, &mut store),
        ],
        Some("second snapshot".to_string()),
        at(2),
    );
    let second_head = repo.head;
    assert_ne!(first_head, second_head, "head should move after second snapshot");

    let plan = checkout(&repo, &first_head.to_hex()).ok().unwrap();
    perform(&plan, &mut tree, &store);
    plan.finish(&mut repo);

    assert_eq!(tree["note.txt"], b"v1\n");
    assert!(!tree.contains_key("extra.txt"));
    assert_eq!(tree["mine"], b"not in any snapshot");
    assert_eq!(repo.head, first_head);

    // And back again, with white space around the hash.
    let plan = checkout(&repo, &format!("  {}\n", second_head.to_hex())).ok().unwrap();
    perform(&plan, &mut tree, &store);
    assert_eq!(tree["note.txt"], b"v2\n");
    assert_eq!(tree["extra.txt"], b"extra\n");
}

#[test]
fn a_checkout_restores_the_time_of_change() {
    let mut store = Store::new();
    let mut repo = empty();
    repo.snapshot_at(&vec![record("./a", b"1", 42, &mut store)], None, at(1));
    let plan = checkout_head(&repo).ok().unwrap();
    assert_eq!(plan.writes.len(), 1);
    assert_eq!(plan.writes[0].path, "a");
    assert_eq!(plan.writes[0].modified_time, Some(at(42)));
    assert!(plan.removals.is_empty());
    assert_eq!(plan.head, repo.head);
}

#[test]
fn files_outside_the_working_tree_are_not_written() {
    let mut store = Store::new();
    let mut repo = empty();
    let files = vec![
        record("../outside", b"1", 1, &mut store),
        record("./.scup/repository", b"2", 1, &mut store),
        record("./ok", b"3", 1, &mut store),
    ];
    repo.snapshot_at(&files, None, at(1));
    let plan = checkout_head(&repo).ok().unwrap();
    let paths: Vec<String> = plan.writes.iter().map(|w| w.path.clone()).collect();
    assert_eq!(paths, vec!["ok"]);
}

#[test]
fn faults_of_a_checkout() {
    let mut store = Store::new();
    let mut repo = empty();
    let fault = |repo: &Repository, hash: &str| checkout(repo, hash).err().unwrap();
    assert_eq!(fault(&repo, "abc"), CheckoutFault::HashLength);
    assert_eq!(fault(&repo, &"x".repeat(64)), CheckoutFault::HashDigits);
    assert_eq!(parse_snapshot_hash("abc"), Err(CheckoutFault::HashLength));
    assert_eq!(parse_snapshot_hash(&"x".repeat(64)), Err(CheckoutFault::HashDigits));
    let spaced = format!(" {}\n", "1A".repeat(32));
    assert_eq!(parse_snapshot_hash(&spaced), Ok(ObjectId([0x1a; 32])));
    // The head comes first.
    assert_eq!(fault(&repo, &"11".repeat(32)), CheckoutFault::NotASnapshot(ObjectId::zero()));
    repo.snapshot_at(&vec![record("./a", b"1", 1, &mut store)], None, at(1));
    let other = ObjectId([0x11; 32]);
    assert_eq!(fault(&repo, &"11".repeat(32)), CheckoutFault::NotASnapshot(other));
    if let Some(Object::Snapshot(s)) = repo.objects.get(&repo.head) {
        let tree = s.tree;
        repo.objects.remove(&tree);
    }
    assert_eq!(checkout_head(&repo).err().unwrap(), CheckoutFault::NoTree);
    assert_eq!(CheckoutFault::HashLength.message(), "snapshot hash must be 64 hex characters");
    assert_eq!(CheckoutFault::HashDigits.message(), "invalid snapshot hash: non-hex characters");
    assert_eq!(
        CheckoutFault::NotASnapshot(other).message(),
        format!("requested object is not a snapshot: {}", "11".repeat(32))
    );
    assert_eq!(CheckoutFault::NoTree.message(), "snapshot tree is not a map");
}

#[test]
fn a_file_whose_blob_is_missing_is_a_fault_of_that_file() {
    let mut store = Store::new();
    let mut repo = empty();
    repo.snapshot_at(&vec![record("./a", b"1", 1, &mut store)], None, at(1));
    let blob = *repo.map_entries_for_snapshot(repo.head).entry(0).1;
    repo.objects.remove(&blob);
    let plan = checkout_head(&repo).ok().unwrap();
    let fault = plan.writes[0].chunks.as_ref().err().unwrap();
    assert_eq!(fault.message(), format!("missing blob object {}", blob.to_hex()));
}

#[test]
fn a_merge_keeps_the_content_of_the_newer_file() {
    let mut store = Store::new();
    let mut seed = empty();
    seed.snapshot_at(&vec![record("./base.txt", b"base\n", 1, &mut store)], None, at(1));
    let mut remote1 = seed.clone();
    let mut remote2 = seed.clone();
    let base = || b"base\n".to_vec();
    remote1.snapshot_at(
        &vec![
            record("./base.txt", &base(), 1, &mut store),
            record("./conflict.txt", b"older\n", 5, &mut store),
        ],
        None,
        at(2),
    );
    remote2.snapshot_at(
        &vec![
            record("./base.txt", &base(), 1, &mut store),
            record("./conflict.txt", b"newer\n", 7, &mut store),
        ],
        None,
        at(3),
    );
    let mut local = seed;
    local.merge_at(&remote2, at(4));
    local.merge_at(&remote1, at(5));
    let mut tree = Tree::new();
    perform(&checkout_head(&local).ok().unwrap(), &mut tree, &store);
    assert_eq!(tree["conflict.txt"], b"newer\n");
    assert_eq!(tree["base.txt"], b"base\n");
}

#[test]
fn readings_of_the_clock() {
    assert_eq!(timestamp_of(Ok((7, 8))), Timestamp { before_epoch: false, secs: 7, nanos: 8 });
    assert_eq!(
        timestamp_of(Err((7, 8))),
        Timestamp { before_epoch: true, secs: 7, nanos: 8 }
    );
    let a = now();
    let b = now();
    assert!(!a.before_epoch && a.secs > 1_600_000_000 && a.nanos < 1_000_000_000);
    assert!(!a.is_after(&b) || a.secs - b.secs < 5);
}

#[test]
fn a_checkout_restores_a_file_that_had_not_changed() {
    let mut store = Store::new();
    let mut repo = empty();
    repo.snapshot_at(&vec![record("./a", b"kept", 5, &mut store)], None, at(1));
    let mut unread = record("./a", b"", 5, &mut store);
    unread.leaves.clear();
    let files = vec![unread, record("./b", b"new", 6, &mut store)];
    repo.snapshot_at(&files, None, at(2));
    let kept = repo.head;
    repo.snapshot_at(&vec![record("./c", b"later", 7, &mut store)], None, at(3));
    let mut tree = Tree::new();
    tree.insert("c".to_string(), b"later".to_vec());
    perform(&checkout(&repo, &kept.to_hex()).ok().unwrap(), &mut tree, &store);
    assert_eq!(tree.len(), 2);
    assert_eq!(tree["a"], b"kept");
    assert_eq!(tree["b"], b"new");
}

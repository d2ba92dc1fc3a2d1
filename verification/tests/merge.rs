use scup::ids::{map_object_id, snapshot_object_id};
use scup::model::{
    Blob, Chunk, Object, ObjectId, PathMap, Repository, RepositoryId, Snapshot, Timestamp,
};
use scup::sorted_map::SortedMap;

fn blob(mtime: Option<u64>) -> Object {
    Object::Blob(Blob {
        chunks: ObjectId([9; 32]),
        modified_time: mtime.map(|secs| Timestamp { before_epoch: false, secs, nanos: 0 }),
        accessed_time: None,
        created_time: None,
        mode: 0,
    })
}

fn id(n: u8) -> ObjectId {
    ObjectId([n; 32])
}

/// A repository whose head has the given files: path, id of the blob, its time of change.
fn repo(files: &[(&str, u8, Option<u64>)], date: u64) -> Repository {
    let mut objects = SortedMap::new();
    let mut entries = SortedMap::new();
    for (path, n, mtime) in files {
        objects.insert(id(*n), blob(*mtime));
        entries.insert(path.to_string(), id(*n));
    }
    let tree = map_object_id(&entries);
    objects.insert(tree, Object::PathMap(PathMap { entries }));
    let snap = Snapshot {
        parents: vec![],
        tree,
        message: None,
        date: Timestamp { before_epoch: false, secs: date, nanos: 0 },
    };
    let head = snapshot_object_id(&snap);
    objects.insert(head, Object::Snapshot(snap));
    Repository { repo_uuid: RepositoryId([5; 32]), objects, head }
}

fn files(repo: &Repository) -> Vec<(String, ObjectId)> {
    let m = repo.map_entries_for_snapshot(repo.head);
    (0..m.len()).map(|i| (m.entry(i).0.clone(), *m.entry(i).1)).collect()
}

const DATE: Timestamp = Timestamp { before_epoch: false, secs: 100, nanos: 1 };

#[test]
fn the_newer_file_stays() {
    let mut local = repo(&[("both", 1, Some(10)), ("same", 3, Some(1))], 1);
    let other = repo(&[("both", 2, Some(11)), ("same", 3, Some(1))], 2);
    local.merge_at(&other, DATE);
    assert_eq!(files(&local), vec![("both".to_string(), id(2)), ("same".to_string(), id(3))]);
    let mut local = repo(&[("both", 1, Some(11))], 1);
    local.merge_at(&repo(&[("both", 2, Some(10))], 2), DATE);
    assert_eq!(files(&local), vec![("both".to_string(), id(1))]);
}

#[test]
fn without_times_the_incoming_file_stays_unless_only_the_local_one_has_a_time() {
    let chosen = |l: Option<u64>, r: Option<u64>| {
        let mut local = repo(&[("f", 1, l)], 1);
        local.merge_at(&repo(&[("f", 2, r)], 2), DATE);
        files(&local)[0].1
    };
    assert_eq!(chosen(Some(1), None), id(1));
    assert_eq!(chosen(None, Some(1)), id(2));
    assert_eq!(chosen(None, None), id(2));
    assert_eq!(chosen(Some(7), Some(7)), id(1));
}

#[test]
fn no_path_and_no_object_is_lost() {
    let mut local = repo(&[("a", 1, Some(1))], 1);
    let mut other = repo(&[("b", 2, Some(1))], 2);
    other.objects.insert(id(77), Object::Chunk(Chunk));
    let before = local.clone();
    local.merge_at(&other, DATE);
    assert_eq!(files(&local), vec![("a".to_string(), id(1)), ("b".to_string(), id(2))]);
    for r in [&before, &other] {
        for i in 0..r.objects.len() {
            assert!(local.objects.contains_key(r.objects.entry(i).0));
        }
    }
}

#[test]
fn the_merge_is_a_snapshot_with_both_heads_as_parents() {
    let mut local = repo(&[("a", 1, Some(1))], 1);
    let other = repo(&[("b", 2, Some(1))], 2);
    let mut parents = vec![local.head, other.head];
    parents.sort();
    local.merge_at(&other, DATE);
    match local.objects.get(&local.head) {
        Some(Object::Snapshot(s)) => {
            assert_eq!(s.parents, parents);
            assert_eq!(s.message, Some("Merge".to_string()));
            assert_eq!(s.date, DATE);
            assert_eq!(snapshot_object_id(s), local.head);
        }
        other => panic!("{other:?}"),
    }
}

#[test]
fn either_side_comes_to_the_same() {
    let a = repo(&[("f", 1, Some(3)), ("a", 4, None)], 1);
    let b = repo(&[("f", 2, Some(5)), ("b", 6, None)], 2);
    let mut x = a.clone();
    x.merge_at(&b, DATE);
    let mut y = b.clone();
    y.merge_at(&a, DATE);
    assert_eq!(x, y);
}

#[test]
fn nothing_new_changes_nothing() {
    let mut local = repo(&[("a", 1, Some(1))], 1);
    let before = local.clone();
    let mut same_head = local.clone();
    same_head.objects.insert(id(50), Object::Chunk(Chunk));
    local.merge_at(&same_head, DATE);
    assert_eq!(local, before);
    let mut foreign = repo(&[("b", 2, Some(1))], 2);
    foreign.repo_uuid = RepositoryId([6; 32]);
    local.merge_at(&foreign, DATE);
    assert_eq!(local, before);
}

#[test]
fn a_merge_bears_the_time_of_day() {
    let mut local = repo(&[("a", 1, Some(1))], 1);
    local.merge(repo(&[("b", 2, Some(1))], 2));
    match local.objects.get(&local.head) {
        Some(Object::Snapshot(s)) => assert!(s.date.secs > 1_600_000_000),
        other => panic!("{other:?}"),
    }
}

fn head_of(repo: &Repository) -> &Snapshot {
    match repo.objects.get(&repo.head) {
        Some(Object::Snapshot(s)) => s,
        other => panic!("{other:?}"),
    }
}

#[test]
fn either_side_comes_to_the_same_tree_at_any_time() {
    let a = repo(&[("f", 1, Some(3)), ("a", 4, None)], 1);
    let b = repo(&[("f", 2, Some(5)), ("b", 6, None)], 2);
    let mut x = a.clone();
    x.merge_at(&b, DATE);
    let mut y = b.clone();
    y.merge_at(&a, Timestamp { secs: 200, ..DATE });
    assert_ne!(x.head, y.head);
    assert_eq!(head_of(&x).tree, head_of(&y).tree);
    assert_eq!(head_of(&x).parents, head_of(&y).parents);
    assert_eq!(files(&x), files(&y));
}

#[test]
fn what_has_been_taken_in_has_nothing_more_to_give() {
    let mut local = repo(&[("f", 1, Some(9)), ("g", 3, None), ("a", 4, None)], 1);
    let other = repo(&[("f", 2, Some(5)), ("g", 5, None), ("b", 6, None)], 2);
    local.merge_at(&other, DATE);
    let once = local.clone();
    assert_eq!(
        files(&once),
        vec![
            ("a".to_string(), id(4)),
            ("b".to_string(), id(6)),
            ("f".to_string(), id(1)),
            ("g".to_string(), id(5)),
        ]
    );
    local.merge_at(&other, Timestamp { secs: 200, ..DATE });
    assert_ne!(local.head, once.head);
    assert_eq!(head_of(&local).tree, head_of(&once).tree);
    assert_eq!(files(&local), files(&once));
}

#[test]
fn a_file_changed_before_1970_is_older() {
    let early = |secs| {
        Object::Blob(Blob {
            chunks: id(9),
            modified_time: Some(Timestamp { before_epoch: true, secs, nanos: 0 }),
            accessed_time: None,
            created_time: None,
            mode: 0,
        })
    };
    let mut local = repo(&[("f", 1, None)], 1);
    local.objects.insert(id(1), early(5));
    let mut other = repo(&[("f", 2, Some(0))], 2);
    let mut late = local.clone();
    late.merge_at(&other, DATE);
    assert_eq!(files(&late), vec![("f".to_string(), id(2))]);
    other.objects.insert(id(2), early(6));
    local.merge_at(&other, DATE);
    assert_eq!(files(&local), vec![("f".to_string(), id(1))]);
}

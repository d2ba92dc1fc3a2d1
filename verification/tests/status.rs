use scup::model::{ObjectId, Repository, RepositoryId, Timestamp};
use scup::snapshot::FileRecord;
use scup::sorted_map::{SortedMap, SortedSet};
use scup::status::SeenFile;

fn at(secs: u64) -> Option<Timestamp> {
    Some(Timestamp { before_epoch: false, secs, nanos: 0 })
}

fn repo(files: &[(&str, Option<Timestamp>)]) -> Repository {
    let mut repo = Repository {
        repo_uuid: RepositoryId([1; 32]),
        objects: SortedMap::new(),
        head: ObjectId::zero(),
    };
    let mut n = 0u8;
    let records = files
        .iter()
        .map(|(path, modified_time)| {
            n += 1;
            FileRecord {
                path: path.to_string(),
                modified_time: *modified_time,
                accessed_time: None,
                created_time: None,
                leaves: vec![(ObjectId([n; 32]), 0)],
            }
        })
        .collect();
    repo.snapshot_at(&records, None, Timestamp { before_epoch: false, secs: 1, nanos: 0 });
    repo
}

fn seen(files: &[(&str, Option<Timestamp>)]) -> Vec<SeenFile> {
    files
        .iter()
        .map(|(path, modified_time)| SeenFile {
            path: path.to_string(),
            modified_time: *modified_time,
        })
        .collect()
}

fn list(s: &SortedSet<String>) -> Vec<String> {
    (0..s.len()).map(|i| s.entry(i).0.clone()).collect()
}

#[test]
fn a_working_tree_as_the_snapshot_has_it_is_clean() {
    let repo = repo(&[("a", at(1)), ("d/b", at(2)), ("t", None)]);
    let here = seen(&[("./a", at(1)), ("d//b", at(2)), ("t", at(9)), (".scup/repository", at(5))]);
    let status = repo.local_status(&here);
    assert!(status.is_clean());
    assert_eq!(repo.status(&here).lines(), vec!["working tree clean"]);
}

#[test]
fn changed_new_and_deleted_files_are_told_apart() {
    let repo = repo(&[("a", at(1)), ("b", at(2)), ("c", at(3))]);
    let here = seen(&[("z", at(1)), ("b", at(7)), ("c", None), ("y", None), ("y", None)]);
    let status = repo.local_status(&here);
    assert!(!status.is_clean());
    assert_eq!(list(&status.modified), vec!["b", "c"]);
    assert_eq!(list(&status.created), vec!["y", "z"]);
    assert_eq!(list(&status.deleted), vec!["a"]);
    assert_eq!(
        repo.status(&here).lines(),
        vec!["changed: a", "changed: b", "changed: c", "untracked: y", "untracked: z"]
    );
}

#[test]
fn without_a_snapshot_all_is_new() {
    let repo = Repository {
        repo_uuid: RepositoryId([1; 32]),
        objects: SortedMap::new(),
        head: ObjectId::zero(),
    };
    let status = repo.local_status(&seen(&[("x", at(1))]));
    assert_eq!(list(&status.created), vec!["x"]);
    assert!(status.deleted.is_empty());
}

use scup::ids::{
    blob_object_id, chunk_object_id, list_object_id, map_object_id, snapshot_object_id,
};
use scup::model::{ObjectId, Snapshot, Timestamp};
use scup::sorted_map::SortedMap;

const ZERO: ObjectId = ObjectId([0; 32]);
const ONE: ObjectId = ObjectId([1; 32]);

#[test]
fn chunks_are_named_after_their_bytes() {
    assert_eq!(
        chunk_object_id(b"abc").to_hex(),
        "ba7816bf8f01cfea414140de5dae2223b00361a396177a9cb410ff61f20015ad"
    );
    assert_eq!(
        chunk_object_id(b"").to_hex(),
        "e3b0c44298fc1c149afbf4c8996fb92427ae41e4649b934ca495991b7852b855"
    );
}

#[test]
fn lists_are_named_after_their_entries() {
    assert_eq!(
        list_object_id(&[]).to_hex(),
        "a330395cc0a53ad1207736546afff4735940937564bbf75ce1edad40780d9139"
    );
    assert_eq!(
        list_object_id(&[ZERO, ONE]).to_hex(),
        "05769f393a0a3ce98a9e0f035eba8f9adc5f29bb887f3e8ced34e7970e886352"
    );
    assert_ne!(list_object_id(&[ZERO, ONE]), list_object_id(&[ONE, ZERO]));
}

#[test]
fn blobs_are_named_after_their_list() {
    assert_eq!(
        blob_object_id(ZERO).to_hex(),
        "e16cf176c8c74d8b888341d0b4f9773d2a9d6dafcebec27ccdd79a4373bce636"
    );
    assert_ne!(blob_object_id(ZERO), blob_object_id(ONE));
}

#[test]
fn maps_are_named_after_their_paths() {
    let mut files = SortedMap::new();
    assert_eq!(
        map_object_id(&files).to_hex(),
        "60be9861750facbfad8758254a2f76c0cfe78d54459a3bc187d49b1401fcd8e8"
    );
    files.insert("é".to_string(), ONE);
    files.insert("a".to_string(), ZERO);
    assert_eq!(
        map_object_id(&files).to_hex(),
        "642f0d084d0e61c096107c2a1c9f23dc3f8611db69b017eb6f5b6ec774934d7b"
    );
}

#[test]
fn snapshots_are_named_after_all_they_hold() {
    let snap = Snapshot {
        parents: vec![ONE],
        tree: ZERO,
        message: Some("hi".to_string()),
        date: Timestamp { before_epoch: false, secs: 5, nanos: 7 },
    };
    assert_eq!(
        snapshot_object_id(&snap).to_hex(),
        "34c3a861701dac1aebae4882f67789d1a56f0729bb92f9f97812607141f8ec46"
    );
    let bare = Snapshot {
        parents: vec![],
        tree: ZERO,
        message: None,
        date: Timestamp { before_epoch: false, secs: 0, nanos: 0 },
    };
    assert_eq!(
        snapshot_object_id(&bare).to_hex(),
        "f1b6e7a2b40a50d3ccc3b81ef0fdae1baa91e0c458619040c6cb7513fb55a176"
    );
}

#[test]
fn a_date_before_1970_counts_as_its_beginning() {
    let snap = |date| Snapshot { parents: vec![], tree: ZERO, message: None, date };
    let early = snap(Timestamp { before_epoch: true, secs: 9, nanos: 9 });
    assert_eq!(
        snapshot_object_id(&early).to_hex(),
        "f1b6e7a2b40a50d3ccc3b81ef0fdae1baa91e0c458619040c6cb7513fb55a176"
    );
}

#[test]
fn kinds_of_objects_never_share_a_name() {
    let all = [
        list_object_id(&[ZERO]),
        blob_object_id(ZERO),
        map_object_id(&SortedMap::new()),
        chunk_object_id(&[0; 32]),
    ];
    for i in 0..all.len() {
        for j in 0..i {
            assert_ne!(all[i], all[j]);
        }
    }
}

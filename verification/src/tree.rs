//! The files of a snapshot.

use crate::duplicate::Duplicate;
use crate::model::{
    Id, Object, ObjectId, ObjectView, Objects, Repository, SnapshotView, Timestamp,
};
use crate::sorted_map::SortedMap;
use vstd::prelude::*;

verus! {

/// The files of a working tree: the ids of their blobs by their paths.
pub type Files = Map<Seq<char>, Id>;

/// The files of the snapshot `id`, or none where `id` names no snapshot or its tree no map.
pub open spec fn files_of(objects: Objects, id: Id) -> Files {
    if objects.contains_key(id) && objects[id] is Snapshot {
        let tree = objects[id]->Snapshot_0.tree;
        if objects.contains_key(tree) && objects[tree] is PathMap {
            objects[tree]->PathMap_0
        } else {
            Map::empty()
        }
    } else {
        Map::empty()
    }
}

/// When the file of the blob `id` was last changed, if `id` names a blob and this is known.
pub open spec fn blob_time(objects: Objects, id: Id) -> Option<Timestamp> {
    if objects.contains_key(id) && objects[id] is Blob {
        objects[id]->Blob_0.modified_time
    } else {
        None
    }
}

impl Repository {
    /// The files of the snapshot `snapshot_id`.
    pub fn map_entries_for_snapshot(&self, snapshot_id: ObjectId) -> (r: SortedMap<
        String,
        ObjectId,
    >)
        ensures
            r@ == files_of(self@.objects, snapshot_id@),
    {
        if let Some(Object::Snapshot(snap)) = self.objects.get(&snapshot_id) {
            if let Some(Object::PathMap(tree)) = self.objects.get(&snap.tree) {
                return tree.entries.duplicate();
            }
        }
        SortedMap::new()
    }

    /// When the file of the blob `blob_id` was last changed.
    pub fn blob_modified_time(&self, blob_id: ObjectId) -> (r: Option<Timestamp>)
        ensures
            r == blob_time(self@.objects, blob_id@),
    {
        match self.objects.get(&blob_id) {
            Some(Object::Blob(blob)) => blob.modified_time,
            _ => None,
        }
    }
}

/// The files of a snapshot are those of the map that it names as its tree.
pub proof fn law_files_are_those_of_the_tree(
    objects: Objects,
    id: Id,
    snap: SnapshotView,
    files: Files,
)
    requires
        objects.contains_key(id),
        objects[id] == ObjectView::Snapshot(snap),
        objects.contains_key(snap.tree),
        objects[snap.tree] == ObjectView::PathMap(files),
    ensures
        files_of(objects, id) == files,
{
}

/// Where the id is not that of a snapshot, or its tree is not there or no map, there are no files.
pub proof fn law_no_tree_no_files(objects: Objects, id: Id, path: Seq<char>)
    requires
        files_of(objects, id).contains_key(path),
    ensures
        objects.contains_key(id),
        objects[id] is Snapshot,
        objects.contains_key(objects[id]->Snapshot_0.tree),
        objects[objects[id]->Snapshot_0.tree] is PathMap,
        objects[objects[id]->Snapshot_0.tree]->PathMap_0.contains_key(path),
{
}

/// The time of change of a file is the one that its blob holds, and no other object has one.
pub proof fn law_time_is_that_of_the_blob(objects: Objects, id: Id)
    ensures
        objects.contains_key(id) && objects[id] is Blob ==> blob_time(objects, id)
            == objects[id]->Blob_0.modified_time,
        blob_time(objects, id) is Some ==> objects.contains_key(id) && objects[id] is Blob,
{
}

} // verus!

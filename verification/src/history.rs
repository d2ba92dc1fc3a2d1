//! What was put into a repository stays readable.

use crate::checkout::{
    after_plan, blob_chunks, bytes_of, law_checkout_reaches_snapshot, plan_for, snapshot_files,
    written_paths, BlobFaultView, WorkingTree,
};
use crate::chunk::{chunk_data, file_chunks, law_chunks_concat};
use crate::fanout::{
    fanout_lists, fanout_root, ids_are_free, law_fanout_leads_back, law_lists_add_nothing_else,
    lemma_with_lists_keeps, node_ids, Node,
};
use crate::ids::{blob_id, chunk_id, list_id, map_id, snapshot_id};
use crate::lists::{chunks_of_list, entry_chunks, law_cycle_is_endless, list_chunks, ListFaultView};
use crate::merge::{merge_snapshot, merged, merged_blob, merged_files};
use crate::model::{Id, ObjectView, Objects, RepositoryView, Timestamp};
use crate::paths::repo_path;
use crate::rollsum::FAN_MASKS;
use crate::snapshot::{
    file_blob, is_same, next_snapshot, previous_files, recorded_files, recorded_objects,
    snapshot_taken, with_chunks, with_contents, with_file, FileView, PreviousTree,
};
use crate::tree::{blob_time, files_of};
use vstd::prelude::*;

verus! {

/// Whether two objects of one id hold the same, but for what the file system knew of a file.
pub open spec fn same_contents(a: ObjectView, b: ObjectView) -> bool {
    match (a, b) {
        (ObjectView::Blob(x), ObjectView::Blob(y)) => x.chunks == y.chunks,
        _ => a == b,
    }
}

/// Whether `after` has all objects of `before`.
pub open spec fn grown(before: Objects, after: Objects) -> bool {
    forall|id: Id| #[trigger]
        before.contains_key(id) ==> after.contains_key(id) && same_contents(before[id], after[id])
}

/// Whether nothing else has the id under which `object` is to stand.
pub open spec fn fits(objects: Objects, id: Id, object: ObjectView) -> bool {
    objects.contains_key(id) ==> same_contents(objects[id], object)
}

/// What grows twice has grown.
pub proof fn law_grown_transitive(a: Objects, b: Objects, c: Objects)
    requires
        grown(a, b),
        grown(b, c),
    ensures
        grown(a, c),
{
    assert forall|id: Id| #[trigger] a.contains_key(id) implies c.contains_key(id)
        && same_contents(a[id], c[id]) by {
        assert(b.contains_key(id));
    }
}

/// Putting something where nothing else is leaves the rest as it was.
pub proof fn law_insert_grows(objects: Objects, id: Id, object: ObjectView)
    requires
        fits(objects, id, object),
    ensures
        grown(objects, objects.insert(id, object)),
{
}

proof fn lemma_entries_stay(before: Objects, after: Objects, entries: Seq<Id>, depth: nat)
    requires
        grown(before, after),
        entry_chunks(before, entries, depth) is Ok,
    ensures
        entry_chunks(after, entries, depth) == entry_chunks(before, entries, depth),
    decreases depth, entries.len() + 1,
{
    if entries.len() > 0 {
        lemma_entries_stay(before, after, entries.drop_last(), depth);
        let id = entries.last();
        assert(before.contains_key(id));
        if before[id] is List {
            lemma_list_stays(before, after, id, depth);
        }
    }
}

proof fn lemma_list_stays(before: Objects, after: Objects, id: Id, depth: nat)
    requires
        grown(before, after),
        list_chunks(before, id, depth) is Ok,
    ensures
        list_chunks(after, id, depth) == list_chunks(before, id, depth),
    decreases depth, 0nat,
{
    assert(before.contains_key(id));
    lemma_entries_stay(before, after, before[id]->List_0, (depth - 1) as nat);
}

/// A list that leads to chunks leads to the same ones however much is added.
pub proof fn law_lists_stay_readable(before: Objects, after: Objects, list: Id)
    requires
        grown(before, after),
        after.dom().finite(),
        chunks_of_list(before, list) is Ok,
    ensures
        chunks_of_list(after, list) == chunks_of_list(before, list),
{
    lemma_list_stays(before, after, list, before.len());
    law_cycle_is_endless(after, list, before.len());
}

/// A snapshot has the same files however much is added.
pub proof fn law_files_stay(before: Objects, after: Objects, snapshot: Id)
    requires
        grown(before, after),
        has_tree(before, snapshot),
    ensures
        files_of(after, snapshot) == files_of(before, snapshot),
{
    assert(after[snapshot] == before[snapshot]);
    let tree = before[snapshot]->Snapshot_0.tree;
    assert(same_contents(before[tree], after[tree]));
}

/// Whether `id` names a snapshot and its tree is there.
pub open spec fn has_tree(objects: Objects, id: Id) -> bool {
    &&& objects.contains_key(id)
    &&& objects[id] is Snapshot
    &&& objects.contains_key(objects[id]->Snapshot_0.tree)
}

/// Whether no id of a chunk names anything else.
pub open spec fn chunks_fit(objects: Objects, chunks: Seq<Id>) -> bool {
    forall|i: int|
        0 <= i < chunks.len() && objects.contains_key(#[trigger] chunks[i])
            ==> objects[chunks[i]] is Chunk
}

proof fn lemma_with_chunks(objects: Objects, chunks: Seq<Id>)
    requires
        chunks_fit(objects, chunks),
    ensures
        grown(objects, with_chunks(objects, chunks)),
        objects.dom().finite() ==> with_chunks(objects, chunks).dom().finite(),
        forall|id: Id| #[trigger]
            with_chunks(objects, chunks).contains_key(id) && !objects.contains_key(id)
                ==> with_chunks(objects, chunks)[id] is Chunk,
        forall|i: int|
            0 <= i < chunks.len() ==> with_chunks(objects, chunks).contains_key(
                #[trigger] chunks[i],
            ) && with_chunks(objects, chunks)[chunks[i]] is Chunk,
    decreases chunks.len(),
{
    if chunks.len() > 0 {
        let front = chunks.drop_last();
        assert forall|i: int| 0 <= i < front.len() && objects.contains_key(#[trigger] front[i])
            implies objects[front[i]] is Chunk by {
            assert(front[i] == chunks[i]);
        }
        lemma_with_chunks(objects, front);
        let before = with_chunks(objects, front);
        let after = with_chunks(objects, chunks);
        let last = chunks.last();
        assert(chunks[chunks.len() - 1] == last);
        if before.contains_key(last) && objects.contains_key(last) {
            assert(same_contents(objects[last], before[last]));
        }
        assert forall|i: int| 0 <= i < chunks.len() implies after.contains_key(#[trigger] chunks[i])
            && after[chunks[i]] is Chunk by {
            if i < front.len() {
                assert(chunks[i] == front[i]);
            }
        }
    }
}

/// Whether nothing else has the ids of the chunks and lists of a file.
pub open spec fn contents_fit(objects: Objects, leaves: Seq<Node>) -> bool {
    &&& chunks_fit(objects, node_ids(leaves))
    &&& ids_are_free(with_chunks(objects, node_ids(leaves)), fanout_lists(leaves, FAN_MASKS@))
}

/// The chunks and lists of a file lead back to its chunks, and leave what was there as it was.
pub proof fn law_contents_lead_back(objects: Objects, leaves: Seq<Node>)
    requires
        objects.dom().finite(),
        contents_fit(objects, leaves),
    ensures
        grown(objects, with_contents(objects, leaves)),
        with_contents(objects, leaves).dom().finite(),
        chunks_of_list(with_contents(objects, leaves), fanout_root(leaves, FAN_MASKS@)) == Ok::<
            Seq<Id>,
            ListFaultView,
        >(node_ids(leaves)),
{
    let chunks = node_ids(leaves);
    lemma_with_chunks(objects, chunks);
    let held = with_chunks(objects, chunks);
    assert forall|i: int| 0 <= i < leaves.len() implies held.contains_key((#[trigger] leaves[i]).0)
        && held[leaves[i].0] is Chunk by {
        assert(chunks[i] == leaves[i].0);
    }
    law_fanout_leads_back(held, leaves, FAN_MASKS@);
    lemma_with_lists_keeps(held, fanout_lists(leaves, FAN_MASKS@));
    law_grown_transitive(objects, held, with_contents(objects, leaves));
}

/// Whether nothing else has an id under which a snapshot of `files` puts something.
pub open spec fn records_fit(objects: Objects, prev: PreviousTree, files: Seq<FileView>) -> bool
    decreases files.len(),
{
    if files.len() == 0 {
        true
    } else {
        let file = files.last();
        let before = recorded_objects(objects, prev, files.drop_last());
        &&& records_fit(objects, prev, files.drop_last())
        &&& !is_same(prev, file.path, file.modified_time) ==> {
            let list = fanout_root(file.leaves, FAN_MASKS@);
            &&& contents_fit(before, file.leaves)
            &&& fits(
                with_contents(before, file.leaves),
                blob_id(list),
                ObjectView::Blob(file_blob(file, list)),
            )
        }
    }
}

/// Whether nothing else has an id under which a snapshot of `files` puts something, its tree and
/// itself included.
pub open spec fn snapshot_fits(
    repo: RepositoryView,
    files: Seq<FileView>,
    message: Option<Seq<char>>,
    date: Timestamp,
) -> bool {
    let prev = previous_files(repo);
    let tree = recorded_files(prev, files);
    let snap = next_snapshot(repo.head, tree, message, date);
    let objects = recorded_objects(repo.objects, prev, files);
    &&& records_fit(repo.objects, prev, files)
    &&& fits(objects, map_id(tree), ObjectView::PathMap(tree))
    &&& fits(
        objects.insert(map_id(tree), ObjectView::PathMap(tree)),
        snapshot_id(snap),
        ObjectView::Snapshot(snap),
    )
}

/// Whether the blob `blob` leads to the given chunks.
pub open spec fn leads_to(objects: Objects, blob: Id, chunks: Seq<Id>) -> bool {
    blob_chunks(objects, blob) == Ok::<Seq<Id>, BlobFaultView>(chunks)
}

/// A blob that leads to chunks leads to the same ones however much is added.
pub proof fn law_blobs_stay_readable(before: Objects, after: Objects, blob: Id, chunks: Seq<Id>)
    requires
        grown(before, after),
        after.dom().finite(),
        leads_to(before, blob, chunks),
    ensures
        leads_to(after, blob, chunks),
{
    assert(same_contents(before[blob], after[blob]));
    law_lists_stay_readable(before, after, before[blob]->Blob_0.chunks);
}

proof fn lemma_grown_history(before: Objects, after: Objects)
    requires
        grown(before, after),
        after.dom().finite(),
    ensures
        forall|blob: Id, chunks: Seq<Id>| #[trigger]
            leads_to(before, blob, chunks) ==> leads_to(after, blob, chunks),
        forall|id: Id|
            has_tree(before, id) ==> files_of(after, id) == #[trigger] files_of(before, id),
{
    assert forall|blob: Id, chunks: Seq<Id>| #[trigger] leads_to(before, blob, chunks) implies
        leads_to(after, blob, chunks) by {
        law_blobs_stay_readable(before, after, blob, chunks);
    }
    assert forall|id: Id| has_tree(before, id) implies files_of(after, id)
        == #[trigger] files_of(before, id) by {
        law_files_stay(before, after, id);
    }
}

proof fn lemma_file_recorded(objects: Objects, file: FileView)
    requires
        objects.dom().finite(),
        contents_fit(objects, file.leaves),
        ({
            let list = fanout_root(file.leaves, FAN_MASKS@);
            fits(
                with_contents(objects, file.leaves),
                blob_id(list),
                ObjectView::Blob(file_blob(file, list)),
            )
        }),
    ensures
        grown(objects, with_file(objects, file)),
        with_file(objects, file).dom().finite(),
        leads_to(
            with_file(objects, file),
            blob_id(fanout_root(file.leaves, FAN_MASKS@)),
            node_ids(file.leaves),
        ),
{
    let list = fanout_root(file.leaves, FAN_MASKS@);
    let held = with_contents(objects, file.leaves);
    law_contents_lead_back(objects, file.leaves);
    law_insert_grows(held, blob_id(list), ObjectView::Blob(file_blob(file, list)));
    law_grown_transitive(objects, held, with_file(objects, file));
    law_lists_stay_readable(held, with_file(objects, file), list);
}

proof fn lemma_records(objects: Objects, prev: PreviousTree, files: Seq<FileView>)
    requires
        objects.dom().finite(),
        records_fit(objects, prev, files),
    ensures
        grown(objects, recorded_objects(objects, prev, files)),
        recorded_objects(objects, prev, files).dom().finite(),
        forall|i: int|
            0 <= i < files.len() && !is_same(
                prev,
                (#[trigger] files[i]).path,
                files[i].modified_time,
            ) ==> leads_to(
                recorded_objects(objects, prev, files),
                blob_id(fanout_root(files[i].leaves, FAN_MASKS@)),
                node_ids(files[i].leaves),
            ),
    decreases files.len(),
{
    if files.len() > 0 {
        let front = files.drop_last();
        let file = files.last();
        lemma_records(objects, prev, front);
        let before = recorded_objects(objects, prev, front);
        let after = recorded_objects(objects, prev, files);
        if !is_same(prev, file.path, file.modified_time) {
            lemma_file_recorded(before, file);
            law_grown_transitive(objects, before, after);
        }
        assert forall|i: int|
            0 <= i < files.len() && !is_same(
                prev,
                (#[trigger] files[i]).path,
                files[i].modified_time,
            ) implies leads_to(
            after,
            blob_id(fanout_root(files[i].leaves, FAN_MASKS@)),
            node_ids(files[i].leaves),
        ) by {
            if i < front.len() {
                assert(front[i] == files[i]);
                law_blobs_stay_readable(
                    before,
                    after,
                    blob_id(fanout_root(files[i].leaves, FAN_MASKS@)),
                    node_ids(files[i].leaves),
                );
            }
        }
    }
}

proof fn lemma_recorded_path(prev: PreviousTree, files: Seq<FileView>, i: int)
    requires
        0 <= i < files.len(),
        forall|j: int| i < j < files.len() ==> (#[trigger] files[j]).path != files[i].path,
    ensures
        recorded_files(prev, files).contains_key(files[i].path),
        recorded_files(prev, files)[files[i].path] == (if is_same(
            prev,
            files[i].path,
            files[i].modified_time,
        ) {
            prev[files[i].path].1
        } else {
            blob_id(fanout_root(files[i].leaves, FAN_MASKS@))
        }),
    decreases files.len(),
{
    if i < files.len() - 1 {
        let front = files.drop_last();
        assert(front[i] == files[i]);
        assert(files[files.len() - 1].path != files[i].path);
        assert forall|j: int| i < j < front.len() implies (#[trigger] front[j]).path
            != front[i].path by {
            assert(front[j] == files[j]);
        }
        lemma_recorded_path(prev, front, i);
    }
}

/// A snapshot leaves all that was there readable: whatever blob led to chunks leads to the same
/// ones, and whatever snapshot had files has the same ones. This takes that nothing else has an id
/// under which the snapshot puts something.
pub proof fn law_snapshot_keeps_history(
    repo: RepositoryView,
    files: Seq<FileView>,
    message: Option<Seq<char>>,
    date: Timestamp,
)
    requires
        repo.objects.dom().finite(),
        snapshot_fits(repo, files, message, date),
    ensures
        ({
            let before = repo.objects;
            let after = snapshot_taken(repo, files, message, date).objects;
            &&& grown(before, after)
            &&& after.dom().finite()
            &&& forall|blob: Id, chunks: Seq<Id>| #[trigger]
                leads_to(before, blob, chunks) ==> leads_to(after, blob, chunks)
            &&& forall|id: Id|
                has_tree(before, id) ==> files_of(after, id) == #[trigger] files_of(before, id)
        }),
{
    let prev = previous_files(repo);
    let tree = recorded_files(prev, files);
    let snap = next_snapshot(repo.head, tree, message, date);
    let objects = recorded_objects(repo.objects, prev, files);
    lemma_records(repo.objects, prev, files);
    let with_tree = objects.insert(map_id(tree), ObjectView::PathMap(tree));
    law_insert_grows(objects, map_id(tree), ObjectView::PathMap(tree));
    law_insert_grows(with_tree, snapshot_id(snap), ObjectView::Snapshot(snap));
    law_grown_transitive(repo.objects, objects, with_tree);
    law_grown_transitive(
        repo.objects,
        with_tree,
        snapshot_taken(repo, files, message, date).objects,
    );
    lemma_grown_history(repo.objects, snapshot_taken(repo, files, message, date).objects);
}

/// Whether nothing else has the ids of a merge and its tree.
pub open spec fn merge_fits(
    local: RepositoryView,
    incoming: RepositoryView,
    date: Timestamp,
) -> bool {
    let both = local.objects.union_prefer_right(incoming.objects);
    let files = merged_files(both, files_of(both, local.head), files_of(both, incoming.head));
    let snap = merge_snapshot(files, local.head, incoming.head, date);
    &&& fits(both, map_id(files), ObjectView::PathMap(files))
    &&& fits(
        both.insert(map_id(files), ObjectView::PathMap(files)),
        snapshot_id(snap),
        ObjectView::Snapshot(snap),
    )
}

/// A merge leaves all that was there readable, if the sides agree on the objects that both have and
/// nothing else has the ids of the new snapshot and its tree.
pub proof fn law_merge_keeps_history(
    local: RepositoryView,
    incoming: RepositoryView,
    date: Timestamp,
)
    requires
        local.objects.dom().finite(),
        incoming.objects.dom().finite(),
        forall|id: Id|
            local.objects.contains_key(id) && #[trigger] incoming.objects.contains_key(id)
                ==> same_contents(local.objects[id], incoming.objects[id]),
        merge_fits(local, incoming, date),
    ensures
        ({
            let before = local.objects;
            let after = merged(local, incoming, date).objects;
            &&& grown(before, after)
            &&& after.dom().finite()
            &&& forall|blob: Id, chunks: Seq<Id>| #[trigger]
                leads_to(before, blob, chunks) ==> leads_to(after, blob, chunks)
            &&& forall|id: Id|
                has_tree(before, id) ==> files_of(after, id) == #[trigger] files_of(before, id)
        }),
{
    let after = merged(local, incoming, date).objects;
    if local.repo_uuid == incoming.repo_uuid && local.head != incoming.head {
        let both = local.objects.union_prefer_right(incoming.objects);
        let files = merged_files(both, files_of(both, local.head), files_of(both, incoming.head));
        let snap = merge_snapshot(files, local.head, incoming.head, date);
        let with_tree = both.insert(map_id(files), ObjectView::PathMap(files));
        assert(both.dom() =~= local.objects.dom().union(incoming.objects.dom()));
        law_insert_grows(both, map_id(files), ObjectView::PathMap(files));
        law_insert_grows(with_tree, snapshot_id(snap), ObjectView::Snapshot(snap));
        law_grown_transitive(local.objects, both, with_tree);
        law_grown_transitive(local.objects, with_tree, after);
    }
    lemma_grown_history(local.objects, after);
}

/// A history that has been taken in already has nothing more to give: to take it in again, at any
/// date, leaves the tree of the head as it is. This takes that nothing else has the ids of the first
/// merge and its tree. The files are the same too, if the second merge does not share its id with
/// the tree.
pub proof fn law_merge_again_keeps_tree(
    local: RepositoryView,
    incoming: RepositoryView,
    date: Timestamp,
    again: Timestamp,
)
    requires
        local.repo_uuid == incoming.repo_uuid,
        local.head != incoming.head,
        merge_fits(local, incoming, date),
    ensures
        ({
            let once = merged(local, incoming, date);
            let twice = merged(once, incoming, again);
            &&& once.objects[once.head] is Snapshot
            &&& twice.objects[twice.head] is Snapshot
            &&& twice.objects[twice.head]->Snapshot_0.tree
                == once.objects[once.head]->Snapshot_0.tree
            &&& twice.objects[twice.head]->Snapshot_0.tree != twice.head ==> files_of(
                twice.objects,
                twice.head,
            ) == files_of(once.objects, once.head)
        }),
{
    let both = local.objects.union_prefer_right(incoming.objects);
    let ours = files_of(both, local.head);
    let theirs = files_of(both, incoming.head);
    let files = merged_files(both, ours, theirs);
    let snap = merge_snapshot(files, local.head, incoming.head, date);
    let once = merged(local, incoming, date);
    let twice = merged(once, incoming, again);
    assert(map_id(files) != snapshot_id(snap));
    if once.head != incoming.head {
        assert(once.objects.union_prefer_right(incoming.objects) =~= once.objects);
        assert(files_of(once.objects, once.head) == files);
        let known = files_of(once.objects, incoming.head);
        assert(known == theirs || known == files || known =~= Map::empty());
        assert forall|path: Seq<char>| #[trigger] files.contains_key(path) implies merged_blob(
            once.objects,
            files,
            known,
            path,
        ) == files[path] by {
            if known.contains_key(path) && known == theirs && files[path] != theirs[path] {
                assert(blob_time(once.objects, files[path]) == blob_time(both, files[path]));
                assert(blob_time(once.objects, theirs[path]) == blob_time(both, theirs[path]));
            }
        }
        assert(merged_files(once.objects, files, known) =~= files);
    }
}

/// The head after a snapshot has each file that was given, and a file that has changed leads to
/// the chunks that were given for it. This takes that nothing else has an id under which the
/// snapshot puts something.
pub proof fn law_snapshot_has_files(
    repo: RepositoryView,
    files: Seq<FileView>,
    message: Option<Seq<char>>,
    date: Timestamp,
    i: int,
)
    requires
        repo.objects.dom().finite(),
        snapshot_fits(repo, files, message, date),
        0 <= i < files.len(),
        forall|j: int| i < j < files.len() ==> (#[trigger] files[j]).path != files[i].path,
    ensures
        ({
            let after = snapshot_taken(repo, files, message, date);
            let tree = files_of(after.objects, after.head);
            let prev = previous_files(repo);
            let file = files[i];
            &&& tree.contains_key(file.path)
            &&& is_same(prev, file.path, file.modified_time) ==> tree[file.path]
                == prev[file.path].1
            &&& !is_same(prev, file.path, file.modified_time) ==> leads_to(
                after.objects,
                tree[file.path],
                node_ids(file.leaves),
            )
        }),
{
    let after = snapshot_taken(repo, files, message, date);
    let prev = previous_files(repo);
    let tree = recorded_files(prev, files);
    let snap = next_snapshot(repo.head, tree, message, date);
    let objects = recorded_objects(repo.objects, prev, files);
    lemma_records(repo.objects, prev, files);
    let with_tree = objects.insert(map_id(tree), ObjectView::PathMap(tree));
    law_insert_grows(objects, map_id(tree), ObjectView::PathMap(tree));
    law_insert_grows(with_tree, snapshot_id(snap), ObjectView::Snapshot(snap));
    law_grown_transitive(objects, with_tree, after.objects);
    lemma_recorded_path(prev, files, i);
    assert(with_tree.contains_key(map_id(tree)));
    assert(files_of(after.objects, after.head) == tree);
    if !is_same(prev, files[i].path, files[i].modified_time) {
        law_blobs_stay_readable(
            objects,
            after.objects,
            blob_id(fanout_root(files[i].leaves, FAN_MASKS@)),
            node_ids(files[i].leaves),
        );
    }
}

/// The chunks of a file as leaves: their ids and the digests at their ends.
pub open spec fn leaves_of(data: Seq<u8>) -> Seq<Node> {
    file_chunks(data).map_values(|c: (Seq<u8>, u64)| (chunk_id(c.0), c.1))
}

/// A file whose chunks are in the store reads back as it was: the snapshot leads to its chunks,
/// and what the store has under their ids is the file.
pub proof fn law_file_reads_back(
    repo: RepositoryView,
    files: Seq<FileView>,
    message: Option<Seq<char>>,
    date: Timestamp,
    i: int,
    data: Seq<u8>,
    store: Map<Id, Seq<u8>>,
)
    requires
        repo.objects.dom().finite(),
        snapshot_fits(repo, files, message, date),
        0 <= i < files.len(),
        forall|j: int| i < j < files.len() ==> (#[trigger] files[j]).path != files[i].path,
        !is_same(previous_files(repo), files[i].path, files[i].modified_time),
        files[i].leaves == leaves_of(data),
        forall|k: int|
            0 <= k < file_chunks(data).len() ==> store[chunk_id(
                (#[trigger] file_chunks(data)[k]).0,
            )] == file_chunks(data)[k].0,
    ensures
        ({
            let after = snapshot_taken(repo, files, message, date);
            let blob = files_of(after.objects, after.head)[files[i].path];
            &&& leads_to(after.objects, blob, node_ids(leaves_of(data)))
            &&& bytes_of(store, node_ids(leaves_of(data))) == data
        }),
{
    law_snapshot_has_files(repo, files, message, date, i);
    let chunks = node_ids(leaves_of(data));
    assert(chunks.map_values(|id: Id| store[id]) =~= chunk_data(file_chunks(data))) by {
        assert forall|k: int| 0 <= k < chunks.len() implies store[#[trigger] chunks[k]]
            == chunk_data(file_chunks(data))[k] by {
            assert(chunks[k] == chunk_id(file_chunks(data)[k].0));
        }
    }
    law_chunks_concat(data, 0);
    assert(data.skip(0) =~= data);
}

proof fn lemma_recorded_files(prev: PreviousTree, files: Seq<FileView>)
    ensures
        recorded_files(prev, files).dom().finite(),
        forall|path: Seq<char>| #[trigger]
            recorded_files(prev, files).contains_key(path) ==> exists|i: int|
                0 <= i < files.len() && (#[trigger] files[i]).path == path,
    decreases files.len(),
{
    if files.len() > 0 {
        let front = files.drop_last();
        lemma_recorded_files(prev, front);
        assert forall|path: Seq<char>| #[trigger]
            recorded_files(prev, files).contains_key(path) implies exists|i: int|
            0 <= i < files.len() && (#[trigger] files[i]).path == path by {
            if recorded_files(prev, front).contains_key(path) {
                let i = choose|i: int| 0 <= i < front.len() && (#[trigger] front[i]).path == path;
                assert(files[i] == front[i]);
            } else {
                assert(files[files.len() - 1].path == path);
            }
        }
    }
}

/// Whether the snapshot of `files` leads to the bytes `data` for the file `files[i]`, by way of the
/// given chunks: a file that has changed was cut into them and the store has each; of one that has
/// not, the last snapshot leads to them and the store has the bytes under their ids.
pub open spec fn file_is_kept(
    repo: RepositoryView,
    files: Seq<FileView>,
    i: int,
    data: Seq<u8>,
    chunks: Seq<Id>,
    store: Map<Id, Seq<u8>>,
) -> bool {
    let prev = previous_files(repo);
    if is_same(prev, files[i].path, files[i].modified_time) {
        &&& leads_to(repo.objects, prev[files[i].path].1, chunks)
        &&& bytes_of(store, chunks) == data
    } else {
        &&& files[i].leaves == leaves_of(data)
        &&& chunks == node_ids(leaves_of(data))
        &&& forall|k: int|
            0 <= k < file_chunks(data).len() ==> store[chunk_id(
                (#[trigger] file_chunks(data)[k]).0,
            )] == file_chunks(data)[k].0
    }
}

/// However much has been added since, a snapshot can be checked out, from any head that has a tree
/// and over any working tree, and each file then holds the bytes that it held when the snapshot was
/// taken, whether it had changed since the one before or not. This takes that nothing else had an
/// id under which the snapshot put something, that the store has the chunks of the file, and that
/// no other file of the snapshot is written to the same place.
pub proof fn law_checkout_restores_file(
    repo: RepositoryView,
    files: Seq<FileView>,
    message: Option<Seq<char>>,
    date: Timestamp,
    i: int,
    data: Seq<u8>,
    chunks: Seq<Id>,
    store: Map<Id, Seq<u8>>,
    now: RepositoryView,
    tree: WorkingTree,
)
    requires
        repo.objects.dom().finite(),
        snapshot_fits(repo, files, message, date),
        0 <= i < files.len(),
        repo_path(files[i].path) is Some,
        forall|j: int|
            0 <= j < files.len() && j != i ==> repo_path((#[trigger] files[j]).path) != repo_path(
                files[i].path,
            ),
        file_is_kept(repo, files, i, data, chunks, store),
        grown(snapshot_taken(repo, files, message, date).objects, now.objects),
        now.objects.dom().finite(),
        snapshot_files(now.objects, now.head) is Ok,
    ensures
        ({
            let id = snapshot_taken(repo, files, message, date).head;
            let path = repo_path(files[i].path)->0;
            &&& plan_for(now, id) is Ok
            &&& after_plan(tree, plan_for(now, id)->Ok_0, store).contains_key(path)
            &&& after_plan(tree, plan_for(now, id)->Ok_0, store)[path] == data
        }),
{
    let after = snapshot_taken(repo, files, message, date);
    let path = repo_path(files[i].path)->0;
    let prev = previous_files(repo);
    let recorded = recorded_files(prev, files);
    assert forall|j: int| i < j < files.len() implies (#[trigger] files[j]).path
        != files[i].path by {
        assert(repo_path(files[j].path) != repo_path(files[i].path));
    }
    law_snapshot_has_files(repo, files, message, date, i);
    let target = files_of(after.objects, after.head);
    let blob = target[files[i].path];
    if is_same(prev, files[i].path, files[i].modified_time) {
        law_snapshot_keeps_history(repo, files, message, date);
        assert(leads_to(repo.objects, blob, chunks));
    } else {
        law_file_reads_back(repo, files, message, date, i, data, store);
    }
    law_blobs_stay_readable(after.objects, now.objects, blob, chunks);
    let snap = next_snapshot(repo.head, recorded, message, date);
    assert(after.objects[after.head] == ObjectView::Snapshot(snap));
    assert(has_tree(after.objects, after.head));
    law_files_stay(after.objects, now.objects, after.head);
    assert(now.objects[after.head] == after.objects[after.head]);
    assert(same_contents(after.objects[map_id(recorded)], now.objects[map_id(recorded)]));
    assert(fits(
        recorded_objects(repo.objects, prev, files).insert(
            map_id(recorded),
            ObjectView::PathMap(recorded),
        ),
        snapshot_id(snap),
        ObjectView::Snapshot(snap),
    ));
    assert(after.objects[map_id(recorded)] == ObjectView::PathMap(recorded));
    lemma_recorded_files(prev, files);
    assert(snapshot_files(now.objects, after.head)->Ok_0 == recorded);
    law_checkout_reaches_snapshot(now, after.head, tree, store, path);
    assert(recorded.contains_key(files[i].path) && repo_path(files[i].path) == Some(path));
    assert(written_paths(recorded).contains(path));
    let end = after_plan(tree, plan_for(now, after.head)->Ok_0, store);
    let raw = choose|raw: Seq<char>| #[trigger]
        recorded.contains_key(raw) && repo_path(raw) == Some(path) && end[path] == bytes_of(
            store,
            blob_chunks(now.objects, recorded[raw])->Ok_0,
        );
    let j = choose|j: int| 0 <= j < files.len() && (#[trigger] files[j]).path == raw;
    assert(repo_path(files[j].path) == repo_path(files[i].path));
}

proof fn lemma_with_chunks_keeps(objects: Objects, chunks: Seq<Id>)
    ensures
        forall|id: Id| #[trigger]
            objects.contains_key(id) ==> with_chunks(objects, chunks).contains_key(id)
                && with_chunks(objects, chunks)[id] == objects[id],
    decreases chunks.len(),
{
    if chunks.len() > 0 {
        lemma_with_chunks_keeps(objects, chunks.drop_last());
    }
}

proof fn lemma_blob_is_recorded(objects: Objects, prev: PreviousTree, files: Seq<FileView>, i: int)
    requires
        0 <= i < files.len(),
        !is_same(prev, files[i].path, files[i].modified_time),
        forall|j: int|
            i < j < files.len() ==> blob_id(fanout_root((#[trigger] files[j]).leaves, FAN_MASKS@))
                != blob_id(fanout_root(files[i].leaves, FAN_MASKS@)),
    ensures
        ({
            let list = fanout_root(files[i].leaves, FAN_MASKS@);
            let after = recorded_objects(objects, prev, files);
            after.contains_key(blob_id(list)) && after[blob_id(list)] == ObjectView::Blob(
                file_blob(files[i], list),
            )
        }),
    decreases files.len(),
{
    let front = files.drop_last();
    let last = files.last();
    assert(files[files.len() - 1] == last);
    if i < front.len() {
        assert(front[i] == files[i]);
        assert forall|j: int| i < j < front.len() implies blob_id(
            fanout_root((#[trigger] front[j]).leaves, FAN_MASKS@),
        ) != blob_id(fanout_root(front[i].leaves, FAN_MASKS@)) by {
            assert(front[j] == files[j]);
        }
        lemma_blob_is_recorded(objects, prev, front, i);
        let before = recorded_objects(objects, prev, front);
        if !is_same(prev, last.path, last.modified_time) {
            lemma_with_chunks_keeps(before, node_ids(last.leaves));
            lemma_with_lists_keeps(
                with_chunks(before, node_ids(last.leaves)),
                fanout_lists(last.leaves, FAN_MASKS@),
            );
        }
    }
}

/// A file that is new, or of which the head knows no time of change or another one, is recorded with
/// what was given of it: its blob holds its three times and leads to its chunks, in their order. This
/// takes that nothing else has an id under which the snapshot puts something, and that no later file
/// has the same path or a blob of the same id.
pub proof fn law_changed_file_is_recorded(
    repo: RepositoryView,
    files: Seq<FileView>,
    message: Option<Seq<char>>,
    date: Timestamp,
    i: int,
)
    requires
        repo.objects.dom().finite(),
        snapshot_fits(repo, files, message, date),
        0 <= i < files.len(),
        forall|j: int|
            i < j < files.len() ==> (#[trigger] files[j]).path != files[i].path && blob_id(
                fanout_root(files[j].leaves, FAN_MASKS@),
            ) != blob_id(fanout_root(files[i].leaves, FAN_MASKS@)),
        ({
            let before = files_of(repo.objects, repo.head);
            let blob = before[files[i].path];
            !before.contains_key(files[i].path) || !repo.objects.contains_key(blob)
                || !(repo.objects[blob] is Blob) || files[i].modified_time is None
                || repo.objects[blob]->Blob_0.modified_time != files[i].modified_time
        }),
    ensures
        ({
            let after = snapshot_taken(repo, files, message, date);
            let blob = files_of(after.objects, after.head)[files[i].path];
            let held = after.objects[blob]->Blob_0;
            &&& files_of(after.objects, after.head).contains_key(files[i].path)
            &&& after.objects.contains_key(blob)
            &&& after.objects[blob] is Blob
            &&& held.modified_time == files[i].modified_time
            &&& held.accessed_time == files[i].accessed_time
            &&& held.created_time == files[i].created_time
            &&& held.mode == 0
            &&& chunks_of_list(after.objects, held.chunks) == Ok::<Seq<Id>, ListFaultView>(
                files[i].leaves.map_values(|n: Node| n.0),
            )
        }),
{
    let prev = previous_files(repo);
    assert(!is_same(prev, files[i].path, files[i].modified_time));
    law_snapshot_has_files(repo, files, message, date, i);
    lemma_recorded_path(prev, files, i);
    lemma_blob_is_recorded(repo.objects, prev, files, i);
    let tree = recorded_files(prev, files);
    let snap = next_snapshot(repo.head, tree, message, date);
    let objects = recorded_objects(repo.objects, prev, files);
    let with_tree = objects.insert(map_id(tree), ObjectView::PathMap(tree));
    let after = snapshot_taken(repo, files, message, date);
    assert(with_tree.contains_key(map_id(tree)));
    assert(files_of(after.objects, after.head) == tree);
    let blob = blob_id(fanout_root(files[i].leaves, FAN_MASKS@));
    assert(tree[files[i].path] == blob);
    assert(objects.contains_key(blob) && objects[blob] is Blob);
    assert(map_id(tree) != blob);
    assert(with_tree.contains_key(blob));
    assert(snapshot_id(snap) != blob);
    assert(node_ids(files[i].leaves) =~= files[i].leaves.map_values(|n: Node| n.0));
}

/// Whether a file that was given is one that the head does not have with the same, known, time of
/// change.
spec fn is_changed(repo: RepositoryView, file: FileView) -> bool {
    let before = files_of(repo.objects, repo.head);
    let blob = before[file.path];
    !before.contains_key(file.path) || !repo.objects.contains_key(blob)
        || !(repo.objects[blob] is Blob) || file.modified_time is None
        || repo.objects[blob]->Blob_0.modified_time != file.modified_time
}

proof fn lemma_with_chunks_adds(objects: Objects, chunks: Seq<Id>, id: Id)
    requires
        with_chunks(objects, chunks).contains_key(id),
        !objects.contains_key(id),
    ensures
        with_chunks(objects, chunks)[id] is Chunk,
        chunks.contains(id),
    decreases chunks.len(),
{
    if chunks.len() > 0 {
        let front = chunks.drop_last();
        assert(chunks[chunks.len() - 1] == chunks.last());
        if with_chunks(objects, front).contains_key(id) {
            lemma_with_chunks_adds(objects, front, id);
            let i = choose|i: int| 0 <= i < front.len() && front[i] == id;
            assert(chunks[i] == id);
        }
    }
}

proof fn lemma_records_add(repo: RepositoryView, files: Seq<FileView>, id: Id) -> (i: int)
    requires
        recorded_objects(repo.objects, previous_files(repo), files).contains_key(id),
        !repo.objects.contains_key(id),
    ensures
        0 <= i < files.len(),
        is_changed(repo, files[i]),
        ({
            let object = recorded_objects(repo.objects, previous_files(repo), files)[id];
            ||| object is Chunk && node_ids(files[i].leaves).contains(id)
            ||| object is List && exists|k: int|
                0 <= k < fanout_lists(files[i].leaves, FAN_MASKS@).len() && id == list_id(
                    #[trigger] fanout_lists(files[i].leaves, FAN_MASKS@)[k],
                )
            ||| object is Blob && id == blob_id(fanout_root(files[i].leaves, FAN_MASKS@))
        }),
    decreases files.len(),
{
    let prev = previous_files(repo);
    if files.len() == 0 {
        0
    } else {
        let front = files.drop_last();
        let n = files.len() - 1;
        let last = files[n];
        let before = recorded_objects(repo.objects, prev, front);
        let same = is_same(prev, last.path, last.modified_time);
        let root = blob_id(fanout_root(last.leaves, FAN_MASKS@));
        assert(same == !is_changed(repo, last));
        if !same && id == root {
            n
        } else if before.contains_key(id) {
            let i = lemma_records_add(repo, front, id);
            assert(front[i] == files[i]);
            if !same {
                lemma_with_chunks_keeps(before, node_ids(last.leaves));
                lemma_with_lists_keeps(
                    with_chunks(before, node_ids(last.leaves)),
                    fanout_lists(last.leaves, FAN_MASKS@),
                );
            }
            i
        } else {
            let held = with_chunks(before, node_ids(last.leaves));
            law_lists_add_nothing_else(held, fanout_lists(last.leaves, FAN_MASKS@), id);
            if held.contains_key(id) {
                lemma_with_chunks_adds(before, node_ids(last.leaves), id);
            }
            n
        }
    }
}

/// A snapshot adds nothing but itself, its tree, and the chunks, the lists and the blob of each file
/// that the head does not have with the same, known, time of change. `i` is the place of such a file to
/// which `id` belongs.
pub proof fn law_snapshot_adds_nothing_else(
    repo: RepositoryView,
    files: Seq<FileView>,
    message: Option<Seq<char>>,
    date: Timestamp,
    id: Id,
) -> (i: int)
    requires
        snapshot_taken(repo, files, message, date).objects.contains_key(id),
        !repo.objects.contains_key(id),
    ensures
        ({
            let after = snapshot_taken(repo, files, message, date);
            let tree = after.objects[after.head]->Snapshot_0.tree;
            let before = files_of(repo.objects, repo.head);
            let blob = before[files[i].path];
            ||| id == after.head
            ||| id == tree
            ||| 0 <= i < files.len() && (!before.contains_key(files[i].path)
                || !repo.objects.contains_key(blob) || !(repo.objects[blob] is Blob)
                || files[i].modified_time is None || repo.objects[blob]->Blob_0.modified_time
                != files[i].modified_time) && {
                ||| after.objects[id] is Chunk && files[i].leaves.map_values(
                    |n: Node| n.0,
                ).contains(id)
                ||| after.objects[id] is List && exists|k: int|
                    0 <= k < fanout_lists(files[i].leaves, FAN_MASKS@).len() && id == list_id(
                        #[trigger] fanout_lists(files[i].leaves, FAN_MASKS@)[k],
                    )
                ||| after.objects[id] is Blob && id == blob_id(
                    fanout_root(files[i].leaves, FAN_MASKS@),
                )
            }
        }),
{
    let after = snapshot_taken(repo, files, message, date);
    let tree = after.objects[after.head]->Snapshot_0.tree;
    if id == after.head || id == tree {
        0
    } else {
        let i = lemma_records_add(repo, files, id);
        assert(node_ids(files[i].leaves) =~= files[i].leaves.map_values(|n: Node| n.0));
        i
    }
}

} // verus!

//! Snapshots of a working tree.

use crate::clock::now;
use crate::duplicate::Duplicate;
use crate::fanout::{
    build_fanout_list, fanout_lists, fanout_root, node_ids, nodes, with_absent, with_lists, Node,
};
use crate::ids::{
    blob_id, blob_object_id, map_id, map_object_id, snapshot_id, snapshot_object_id,
};
use crate::model::{
    optional_text, same_time, zero_id, Blob, BlobView, Chunk, Id, Object, ObjectId, ObjectView,
    Objects, PathMap, Repository, RepositoryId, RepositoryView, Snapshot, SnapshotView, Timestamp,
};
use crate::rollsum::FAN_MASKS;
use crate::sorted_map::SortedMap;
use crate::text::copy_str;
use crate::tree::{blob_time, files_of, Files};
use rand::RngCore;
use vstd::prelude::*;

verus! {

/// A file of the working tree: its path, what the file system knows of it, and the ids of its
/// chunks, each with the digest at its end. Of a file that has not changed the chunks do not
/// matter.
pub struct FileRecord {
    pub path: String,
    pub modified_time: Option<Timestamp>,
    pub accessed_time: Option<Timestamp>,
    pub created_time: Option<Timestamp>,
    pub leaves: Vec<(ObjectId, u64)>,
}

/// What a record holds.
pub struct FileView {
    pub path: Seq<char>,
    pub modified_time: Option<Timestamp>,
    pub accessed_time: Option<Timestamp>,
    pub created_time: Option<Timestamp>,
    pub leaves: Seq<Node>,
}

impl View for FileRecord {
    type V = FileView;

    open spec fn view(&self) -> FileView {
        FileView {
            path: self.path@,
            modified_time: self.modified_time,
            accessed_time: self.accessed_time,
            created_time: self.created_time,
            leaves: nodes(self.leaves@),
        }
    }
}

/// What records hold.
pub open spec fn file_views(files: Seq<FileRecord>) -> Seq<FileView> {
    files.map_values(|f: FileRecord| f@)
}

/// A file as the last snapshot has it.
#[derive(Clone, Copy, Debug, PartialEq, Eq)]
pub struct Previous {
    pub modified_time: Option<Timestamp>,
    pub blob: ObjectId,
}

impl View for Previous {
    type V = (Option<Timestamp>, Id);

    open spec fn view(&self) -> (Option<Timestamp>, Id) {
        (self.modified_time, self.blob@)
    }
}

/// The files of the last snapshot.
pub type PreviousTree = Map<Seq<char>, (Option<Timestamp>, Id)>;

/// The files of the head of `repo`, each with the time of its last change.
pub open spec fn previous_files(repo: RepositoryView) -> PreviousTree {
    let files = files_of(repo.objects, repo.head);
    Map::new(
        |path: Seq<char>| files.contains_key(path),
        |path: Seq<char>| (blob_time(repo.objects, files[path]), files[path]),
    )
}

/// Whether the last snapshot has the file of this path with this, known, time of change.
pub open spec fn is_same(prev: PreviousTree, path: Seq<char>, time: Option<Timestamp>) -> bool {
    prev.contains_key(path) && prev[path].0 is Some && prev[path].0 == time
}

/// `objects` with chunks of the given ids, each unless something has its id already.
pub open spec fn with_chunks(objects: Objects, chunks: Seq<Id>) -> Objects
    decreases chunks.len(),
{
    if chunks.len() == 0 {
        objects
    } else {
        with_absent(
            with_chunks(objects, chunks.drop_last()),
            chunks.last(),
            ObjectView::Chunk,
        )
    }
}

/// The blob of a file whose chunks the list `list` leads to.
pub open spec fn file_blob(file: FileView, list: Id) -> BlobView {
    BlobView {
        chunks: list,
        modified_time: file.modified_time,
        accessed_time: file.accessed_time,
        created_time: file.created_time,
        mode: 0,
    }
}

/// `objects` with the chunks and lists of a file.
pub open spec fn with_contents(objects: Objects, leaves: Seq<Node>) -> Objects {
    with_lists(with_chunks(objects, node_ids(leaves)), fanout_lists(leaves, FAN_MASKS@))
}

/// `objects` with the chunks, the lists and the blob of a file.
pub open spec fn with_file(objects: Objects, file: FileView) -> Objects {
    let list = fanout_root(file.leaves, FAN_MASKS@);
    with_contents(objects, file.leaves).insert(
        blob_id(list),
        ObjectView::Blob(file_blob(file, list)),
    )
}

/// `objects` with all that a snapshot of `files` has to add to them but its tree and itself.
pub open spec fn recorded_objects(objects: Objects, prev: PreviousTree, files: Seq<FileView>) -> Objects
    decreases files.len(),
{
    if files.len() == 0 {
        objects
    } else {
        let before = recorded_objects(objects, prev, files.drop_last());
        let file = files.last();
        if is_same(prev, file.path, file.modified_time) {
            before
        } else {
            with_file(before, file)
        }
    }
}

/// The tree of a snapshot of `files`: a file that has not changed keeps its blob.
pub open spec fn recorded_files(prev: PreviousTree, files: Seq<FileView>) -> Files
    decreases files.len(),
{
    if files.len() == 0 {
        Map::empty()
    } else {
        let file = files.last();
        recorded_files(prev, files.drop_last()).insert(
            file.path,
            if is_same(prev, file.path, file.modified_time) {
                prev[file.path].1
            } else {
                blob_id(fanout_root(file.leaves, FAN_MASKS@))
            },
        )
    }
}

/// The snapshot that follows on `head`, the first of all where `head` is zero.
pub open spec fn next_snapshot(
    head: Id,
    tree: Files,
    message: Option<Seq<char>>,
    date: Timestamp,
) -> SnapshotView {
    SnapshotView {
        parents: if head == zero_id() {
            Seq::empty()
        } else {
            seq![head]
        },
        tree: map_id(tree),
        message,
        date,
    }
}

/// `repo` after a snapshot of `files`.
pub open spec fn snapshot_taken(
    repo: RepositoryView,
    files: Seq<FileView>,
    message: Option<Seq<char>>,
    date: Timestamp,
) -> RepositoryView {
    let prev = previous_files(repo);
    let tree = recorded_files(prev, files);
    let snap = next_snapshot(repo.head, tree, message, date);
    RepositoryView {
        repo_uuid: repo.repo_uuid,
        objects: recorded_objects(repo.objects, prev, files).insert(
            map_id(tree),
            ObjectView::PathMap(tree),
        ).insert(snapshot_id(snap), ObjectView::Snapshot(snap)),
        head: snapshot_id(snap),
    }
}

/// A repository without objects.
pub open spec fn empty_repository(repo_uuid: Id) -> RepositoryView {
    RepositoryView { repo_uuid, objects: Map::empty(), head: zero_id() }
}

/// Whether the last snapshot has the file of this path with this, known, time of change.
pub fn is_unchanged(
    prev: &SortedMap<String, Previous>,
    path: &String,
    modified_time: &Option<Timestamp>,
) -> (r: bool)
    ensures
        r == is_same(prev@, path@, *modified_time),
{
    match prev.get(path) {
        Some(p) => p.modified_time.is_some() && same_time(&p.modified_time, modified_time),
        None => false,
    }
}

/// `rand::RngCore::fill_bytes` on `rand::thread_rng` fills an array with random bytes, of which
/// nothing is known.
#[verifier::external_body]
fn random_bytes() -> (r: [u8; 32]) {
    let mut bytes = [0u8; 32];
    rand::thread_rng().fill_bytes(&mut bytes);
    bytes
}

impl Repository {
    /// The files of the head, each with the time of its last change.
    pub fn previous_tree(&self) -> (r: SortedMap<String, Previous>)
        ensures
            r@ == previous_files(self@),
    {
        let files = self.map_entries_for_snapshot(self.head);
        let ghost goal = previous_files(self@);
        let mut r: SortedMap<String, Previous> = SortedMap::new();
        let n: usize = files.len();
        let ghost s = files.seq();
        let mut i: usize = 0;
        while i < n
            invariant
                n == s.len(),
                s == files.seq(),
                files@ == files_of(self@.objects, self@.head),
                goal == previous_files(self@),
                i <= n,
                forall|p: Seq<char>| #[trigger]
                    r@.contains_key(p) ==> goal.contains_key(p) && r@[p] == goal[p],
                forall|j: int| 0 <= j < i ==> r@.contains_key((#[trigger] s[j]).0),
            decreases n - i,
        {
            let (path, blob) = files.entry(i);
            let modified_time = self.blob_modified_time(*blob);
            r.insert(path.duplicate(), Previous { modified_time, blob: *blob });
            i += 1;
        }
        proof {
            assert forall|p: Seq<char>| goal.contains_key(p) implies #[trigger] r@.contains_key(
                p,
            ) by {
                let j = choose|j: int| 0 <= j < s.len() && (#[trigger] s[j]).0 == p;
                assert(s[j].0 == p);
            }
            assert(r@ =~= goal);
        }
        r
    }

    /// Puts the chunks `leaves` into the repository.
    fn add_chunks(&mut self, leaves: &Vec<(ObjectId, u64)>)
        ensures
            final(self)@.objects == with_chunks(old(self)@.objects, node_ids(nodes(leaves@))),
            final(self).head == old(self).head,
            final(self).repo_uuid == old(self).repo_uuid,
    {
        let ghost all = node_ids(nodes(leaves@));
        let mut i: usize = 0;
        assert(all.take(0) =~= Seq::<Id>::empty());
        while i < leaves.len()
            invariant
                all == node_ids(nodes(leaves@)),
                i <= leaves@.len(),
                self@.objects == with_chunks(old(self)@.objects, all.take(i as int)),
                self.head == old(self).head,
                self.repo_uuid == old(self).repo_uuid,
            decreases leaves@.len() - i,
        {
            let (id, _) = leaves[i];
            self.objects.insert_absent(id, Object::Chunk(Chunk));
            assert(all.take(i + 1).drop_last() =~= all.take(i as int));
            assert(all.take(i + 1).last() == id@);
            i += 1;
        }
        assert(all.take(i as int) =~= all);
    }

    /// Puts the chunks, the lists and the blob of a file into the repository and gives the id of
    /// the blob.
    fn add_file(&mut self, file: &FileRecord) -> (id: ObjectId)
        ensures
            id@ == blob_id(fanout_root(file@.leaves, FAN_MASKS@)),
            final(self)@.objects == with_file(old(self)@.objects, file@),
            final(self).head == old(self).head,
            final(self).repo_uuid == old(self).repo_uuid,
    {
        self.add_chunks(&file.leaves);
        let list = build_fanout_list(self, file.leaves.as_slice());
        let id = blob_object_id(list);
        let blob = Blob {
            chunks: list,
            modified_time: file.modified_time,
            accessed_time: file.accessed_time,
            created_time: file.created_time,
            mode: 0,
        };
        assert(blob@ == file_blob(file@, list@));
        self.objects.insert(id, Object::Blob(blob));
        id
    }

    /// Takes a snapshot of `files` with the given message and date, which becomes the head.
    pub fn snapshot_at(&mut self, files: &Vec<FileRecord>, message: Option<String>, date: Timestamp)
        ensures
            final(self)@ == snapshot_taken(
                old(self)@,
                file_views(files@),
                optional_text(message),
                date,
            ),
    {
        let prev = self.previous_tree();
        let ghost before = self@;
        let ghost all = file_views(files@);
        let ghost prev_view = prev@;
        let mut tree: SortedMap<String, ObjectId> = SortedMap::new();
        let mut i: usize = 0;
        assert(all.take(0) =~= Seq::<FileView>::empty());
        while i < files.len()
            invariant
                all == file_views(files@),
                prev@ == prev_view,
                i <= files@.len(),
                self@.objects == recorded_objects(before.objects, prev_view, all.take(i as int)),
                tree@ == recorded_files(prev_view, all.take(i as int)),
                self@.head == before.head,
                self@.repo_uuid == before.repo_uuid,
            decreases files@.len() - i,
        {
            let file = &files[i];
            assert(all.take(i + 1).drop_last() =~= all.take(i as int));
            assert(all.take(i + 1).last() == file@);
            let mut kept: Option<ObjectId> = None;
            if is_unchanged(&prev, &file.path, &file.modified_time) {
                if let Some(p) = prev.get(&file.path) {
                    kept = Some(p.blob);
                }
            }
            let blob = match kept {
                Some(blob) => blob,
                None => self.add_file(file),
            };
            tree.insert(file.path.duplicate(), blob);
            i += 1;
        }
        assert(all.take(i as int) =~= all);
        let ghost tree_view = tree@;
        let tree_id = map_object_id(&tree);
        self.objects.insert(tree_id, Object::PathMap(PathMap { entries: tree }));
        let mut parents: Vec<ObjectId> = Vec::new();
        if !self.head.is(&ObjectId::zero()) {
            parents.push(self.head);
        }
        let snap = Snapshot { parents, tree: tree_id, message, date };
        assert(snap@ =~= next_snapshot(before.head, tree_view, optional_text(message), date));
        let id = snapshot_object_id(&snap);
        self.objects.insert(id, Object::Snapshot(snap));
        self.head = id;
    }

    /// Takes a snapshot of `files`, which becomes the head.
    pub fn snapshot(&mut self, files: &Vec<FileRecord>, message: Option<String>)
        ensures
            exists|date: Timestamp|
                date.is_valid() && final(self)@ == #[trigger] snapshot_taken(
                    old(self)@,
                    file_views(files@),
                    optional_text(message),
                    date,
                ),
    {
        let date = now();
        self.snapshot_at(files, message, date);
        assert(self@ == snapshot_taken(
            old(self)@,
            file_views(files@),
            optional_text(message),
            date,
        ));
    }

    /// A repository of the given name whose only snapshot is of `files`.
    pub fn init_at(repo_uuid: RepositoryId, files: &Vec<FileRecord>, date: Timestamp) -> (r: Self)
        ensures
            r@ == snapshot_taken(
                empty_repository(repo_uuid@),
                file_views(files@),
                Some("Initial snapshot"@),
                date,
            ),
    {
        let mut r = Repository { repo_uuid, objects: SortedMap::new(), head: ObjectId::zero() };
        assert(r@ =~= empty_repository(repo_uuid@));
        r.snapshot_at(files, Some(copy_str("Initial snapshot")), date);
        r
    }

    /// A repository of a new name whose only snapshot is of `files`.
    pub fn init(files: &Vec<FileRecord>) -> (r: Self)
        ensures
            exists|date: Timestamp|
                date.is_valid() && r@ == #[trigger] snapshot_taken(
                    empty_repository(r@.repo_uuid),
                    file_views(files@),
                    Some("Initial snapshot"@),
                    date,
                ),
    {
        let date = now();
        let r = Self::init_at(RepositoryId(random_bytes()), files, date);
        assert(r@ == snapshot_taken(
            empty_repository(r@.repo_uuid),
            file_views(files@),
            Some("Initial snapshot"@),
            date,
        ));
        r
    }
}

/// The head of a new repository is a snapshot that follows on none, of the message "Initial
/// snapshot" and the given date.
pub proof fn law_first_snapshot_has_no_parents(
    repo_uuid: Id,
    files: Seq<FileView>,
    date: Timestamp,
)
    ensures
        ({
            let repo = snapshot_taken(
                empty_repository(repo_uuid),
                files,
                Some("Initial snapshot"@),
                date,
            );
            &&& repo.repo_uuid == repo_uuid
            &&& repo.objects.contains_key(repo.head)
            &&& repo.objects[repo.head] is Snapshot
            &&& repo.objects[repo.head]->Snapshot_0.parents == Seq::<Id>::empty()
            &&& repo.objects[repo.head]->Snapshot_0.message == Some("Initial snapshot"@)
            &&& repo.objects[repo.head]->Snapshot_0.date == date
        }),
{
}

/// What is said of the files of a working tree is said of all that is known of them, file by file.
pub proof fn law_files_are_told_in_full(files: Seq<FileRecord>, i: int)
    requires
        0 <= i < files.len(),
    ensures
        file_views(files).len() == files.len(),
        file_views(files)[i].path == files[i].path@,
        file_views(files)[i].modified_time == files[i].modified_time,
        file_views(files)[i].accessed_time == files[i].accessed_time,
        file_views(files)[i].created_time == files[i].created_time,
        file_views(files)[i].leaves.len() == files[i].leaves@.len(),
        forall|k: int|
            0 <= k < files[i].leaves@.len() ==> (#[trigger] file_views(files)[i].leaves[k]).0
                == files[i].leaves@[k].0.0@ && file_views(files)[i].leaves[k].1
                == files[i].leaves@[k].1,
{
}

/// The new head after a snapshot, whatever the head was before, is a snapshot with the message and the
/// date that were given. It follows on just the head before, or on none where that was zero. Its tree
/// has just the paths of the files that were given. (The snapshot and its tree do not share an id.)
pub proof fn law_snapshot_is_the_new_head(
    repo: RepositoryView,
    files: Seq<FileView>,
    message: Option<Seq<char>>,
    date: Timestamp,
    path: Seq<char>,
)
    ensures
        ({
            let after = snapshot_taken(repo, files, message, date);
            let snap = after.objects[after.head]->Snapshot_0;
            &&& after.repo_uuid == repo.repo_uuid
            &&& after.objects.contains_key(after.head)
            &&& after.objects[after.head] is Snapshot
            &&& snap.message == message
            &&& snap.date == date
            &&& repo.head == Seq::new(32, |i: int| 0u8) ==> snap.parents.len() == 0
            &&& repo.head != Seq::new(32, |i: int| 0u8) ==> snap.parents.len() == 1
                && snap.parents[0] == repo.head
            &&& after.objects.contains_key(snap.tree)
            &&& snap.tree != after.head ==> after.objects[snap.tree] is PathMap && (
            files_of(after.objects, after.head).contains_key(path) <==> exists|i: int|
                0 <= i < files.len() && (#[trigger] files[i]).path == path)
        }),
{
    lemma_paths_recorded(previous_files(repo), files, path);
}

proof fn lemma_paths_recorded(prev: PreviousTree, files: Seq<FileView>, path: Seq<char>)
    ensures
        recorded_files(prev, files).contains_key(path) <==> exists|i: int|
            0 <= i < files.len() && (#[trigger] files[i]).path == path,
    decreases files.len(),
{
    if files.len() > 0 {
        let front = files.drop_last();
        lemma_paths_recorded(prev, front, path);
        assert(files[files.len() - 1] == files.last());
        if exists|i: int| 0 <= i < front.len() && (#[trigger] front[i]).path == path {
            let i = choose|i: int| 0 <= i < front.len() && (#[trigger] front[i]).path == path;
            assert(files[i] == front[i]);
        }
        if exists|i: int| 0 <= i < files.len() && (#[trigger] files[i]).path == path {
            let i = choose|i: int| 0 <= i < files.len() && (#[trigger] files[i]).path == path;
            if i < front.len() {
                assert(front[i] == files[i]);
            }
        }
    }
}

proof fn lemma_blob_recorded(prev: PreviousTree, files: Seq<FileView>, i: int)
    requires
        0 <= i < files.len(),
        forall|j: int| i < j < files.len() ==> (#[trigger] files[j]).path != files[i].path,
    ensures
        recorded_files(prev, files)[files[i].path] == (if is_same(
            prev,
            files[i].path,
            files[i].modified_time,
        ) {
            prev[files[i].path].1
        } else {
            blob_id(fanout_root(files[i].leaves, FAN_MASKS@))
        }),
    decreases files.len(),
{
    if i < files.len() - 1 {
        let front = files.drop_last();
        assert(front[i] == files[i]);
        assert(files[files.len() - 1].path != files[i].path);
        assert forall|j: int| i < j < front.len() implies (#[trigger] front[j]).path
            != front[i].path by {
            assert(front[j] == files[j]);
        }
        lemma_blob_recorded(prev, front, i);
    }
}

/// A file keeps its blob exactly where the head has its path with a blob of the same, known, time of
/// change; any other file gets the blob that is named after its chunks. (The snapshot and its tree do
/// not share an id, and no later file has the same path.)
pub proof fn law_file_keeps_its_blob_while_unchanged(
    repo: RepositoryView,
    files: Seq<FileView>,
    message: Option<Seq<char>>,
    date: Timestamp,
    i: int,
)
    requires
        0 <= i < files.len(),
        forall|j: int| i < j < files.len() ==> (#[trigger] files[j]).path != files[i].path,
        ({
            let after = snapshot_taken(repo, files, message, date);
            after.objects[after.head]->Snapshot_0.tree != after.head
        }),
    ensures
        ({
            let after = snapshot_taken(repo, files, message, date);
            let before = files_of(repo.objects, repo.head);
            let path = files[i].path;
            let blob = before[path];
            let kept = before.contains_key(path) && repo.objects.contains_key(blob)
                && repo.objects[blob] is Blob && files[i].modified_time is Some
                && repo.objects[blob]->Blob_0.modified_time == files[i].modified_time;
            files_of(after.objects, after.head)[path] == if kept {
                blob
            } else {
                blob_id(fanout_root(files[i].leaves, FAN_MASKS@))
            }
        }),
{
    let prev = previous_files(repo);
    lemma_blob_recorded(prev, files, i);
    let after = snapshot_taken(repo, files, message, date);
    assert(files_of(after.objects, after.head) == recorded_files(prev, files));
}

/// A repository begins without any object and with a head of 32 zeros.
pub proof fn law_repository_begins_empty(repo_uuid: Id, id: Id)
    ensures
        !empty_repository(repo_uuid).objects.contains_key(id),
        empty_repository(repo_uuid).repo_uuid == repo_uuid,
        empty_repository(repo_uuid).head == Seq::new(32, |i: int| 0u8),
{
}

} // verus!

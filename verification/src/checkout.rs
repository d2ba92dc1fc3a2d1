//! What it takes to bring a working tree to the state of a snapshot.

use crate::duplicate::Duplicate;
use crate::hex::{
    hex32, hex_text, law_hex32_round_trip, law_hex32_tells, lemma_hex_text_is_plain, parse_hex32,
    HexError,
};
use crate::ids::concat;
use crate::lists::{chunks_of_list, collect_chunk_ids, with_id, ListFault, ListFaultView};
use crate::model::{
    ids, Id, Object, ObjectId, Objects, PathMap, Repository, RepositoryView, Timestamp,
};
use crate::paths::{normalized_repo_path, repo_path};
use crate::sorted_map::{
    lemma_map_of_entry, lemma_sorted_entries_are_entries, sorted_entries, SortedMap, SortedSet,
};
use crate::text::{chars_of, copy_str, lowered, string_of, trim, trimmed};
use crate::tree::{blob_time, files_of, Files};
use vstd::prelude::*;

verus! {

/// Why a snapshot cannot be checked out.
#[derive(Clone, Copy, Debug, PartialEq, Eq)]
pub enum CheckoutFault {
    /// The hash does not have the length of one.
    HashLength,
    /// The hash holds something else than digits.
    HashDigits,
    /// There is no snapshot of this id.
    NotASnapshot(ObjectId),
    /// The tree of a snapshot is not there.
    NoTree,
}

/// What a fault says.
pub enum CheckoutFaultView {
    HashLength,
    HashDigits,
    NotASnapshot(Id),
    NoTree,
}

impl View for CheckoutFault {
    type V = CheckoutFaultView;

    open spec fn view(&self) -> CheckoutFaultView {
        match *self {
            CheckoutFault::HashLength => CheckoutFaultView::HashLength,
            CheckoutFault::HashDigits => CheckoutFaultView::HashDigits,
            CheckoutFault::NotASnapshot(id) => CheckoutFaultView::NotASnapshot(id@),
            CheckoutFault::NoTree => CheckoutFaultView::NoTree,
        }
    }
}

impl CheckoutFault {
    /// The fault in words.
    pub open spec fn words(self) -> Seq<char> {
        match self {
            CheckoutFault::HashLength => "snapshot hash must be 64 hex characters"@,
            CheckoutFault::HashDigits => "invalid snapshot hash: non-hex characters"@,
            CheckoutFault::NotASnapshot(id) => "requested object is not a snapshot: "@ + hex_text(
                id@,
            ),
            CheckoutFault::NoTree => "snapshot tree is not a map"@,
        }
    }

    /// The fault in words.
    pub fn message(&self) -> (r: String)
        ensures
            r@ == self.words(),
    {
        match *self {
            CheckoutFault::HashLength => copy_str("snapshot hash must be 64 hex characters"),
            CheckoutFault::HashDigits => copy_str("invalid snapshot hash: non-hex characters"),
            CheckoutFault::NotASnapshot(id) => with_id("requested object is not a snapshot: ", &id),
            CheckoutFault::NoTree => copy_str("snapshot tree is not a map"),
        }
    }
}

/// Why a blob does not lead to chunks.
#[derive(Clone, Copy, Debug, PartialEq, Eq)]
pub enum BlobFault {
    /// There is no blob of this id.
    MissingBlob(ObjectId),
    /// Its lists do not lead to chunks.
    List(ListFault),
}

/// What a fault says.
pub enum BlobFaultView {
    MissingBlob(Id),
    List(ListFaultView),
}

impl View for BlobFault {
    type V = BlobFaultView;

    open spec fn view(&self) -> BlobFaultView {
        match *self {
            BlobFault::MissingBlob(id) => BlobFaultView::MissingBlob(id@),
            BlobFault::List(f) => BlobFaultView::List(f@),
        }
    }
}

impl BlobFault {
    /// The fault in words.
    pub open spec fn words(self) -> Seq<char> {
        match self {
            BlobFault::MissingBlob(id) => "missing blob object "@ + hex_text(id@),
            BlobFault::List(f) => f.words(),
        }
    }

    /// The fault in words.
    pub fn message(&self) -> (r: String)
        ensures
            r@ == self.words(),
    {
        match self {
            BlobFault::MissingBlob(id) => with_id("missing blob object ", id),
            BlobFault::List(f) => f.message(),
        }
    }
}

/// The chunks of the file of the blob `blob`, in order.
pub open spec fn blob_chunks(objects: Objects, blob: Id) -> Result<Seq<Id>, BlobFaultView> {
    if objects.contains_key(blob) && objects[blob] is Blob {
        match chunks_of_list(objects, objects[blob]->Blob_0.chunks) {
            Ok(chunks) => Ok(chunks),
            Err(e) => Err(BlobFaultView::List(e)),
        }
    } else {
        Err(BlobFaultView::MissingBlob(blob))
    }
}

/// The chunks of the file of the blob `blob_id`, in order.
pub fn blob_chunk_ids(repo: &Repository, blob_id: ObjectId) -> (r: Result<Vec<ObjectId>, BlobFault>)
    ensures
        blob_chunks(repo@.objects, blob_id@) == contents_view(r),
{
    match repo.objects.get(&blob_id) {
        Some(Object::Blob(blob)) => match collect_chunk_ids(repo, blob.chunks) {
            Ok(chunks) => Ok(chunks),
            Err(e) => Err(BlobFault::List(e)),
        },
        _ => Err(BlobFault::MissingBlob(blob_id)),
    }
}

/// What chunks, or the fault in their place, hold.
pub open spec fn contents_view(r: Result<Vec<ObjectId>, BlobFault>) -> Result<
    Seq<Id>,
    BlobFaultView,
> {
    match r {
        Ok(chunks) => Ok(ids(chunks@)),
        Err(e) => Err(e@),
    }
}

/// The bytes of a file: those of its chunks one after the other.
pub fn assemble(parts: &Vec<Vec<u8>>) -> (r: Vec<u8>)
    ensures
        r@ == concat(parts@.map_values(|p: Vec<u8>| p@)),
{
    let ghost all = parts@.map_values(|p: Vec<u8>| p@);
    let mut out: Vec<u8> = Vec::new();
    let mut i: usize = 0;
    assert(out@ =~= concat(all.take(0)));
    while i < parts.len()
        invariant
            all == parts@.map_values(|p: Vec<u8>| p@),
            i <= parts@.len(),
            out@ == concat(all.take(i as int)),
        decreases parts@.len() - i,
    {
        out.extend_from_slice(parts[i].as_slice());
        assert(all.take(i + 1).drop_last() =~= all.take(i as int));
        assert(out@ =~= concat(all.take(i + 1)));
        i += 1;
    }
    assert(all.take(i as int) =~= all);
    out
}

/// The files of the snapshot `id`, where it is one and has its tree.
pub open spec fn snapshot_files(objects: Objects, id: Id) -> Result<Files, CheckoutFaultView> {
    if objects.contains_key(id) && objects[id] is Snapshot {
        let tree = objects[id]->Snapshot_0.tree;
        if objects.contains_key(tree) && objects[tree] is PathMap {
            Ok(objects[tree]->PathMap_0)
        } else {
            Err(CheckoutFaultView::NoTree)
        }
    } else {
        Err(CheckoutFaultView::NotASnapshot(id))
    }
}

/// The tree of the snapshot `snapshot_id`.
fn snapshot_tree(repo: &Repository, snapshot_id: ObjectId) -> (r: Result<&PathMap, CheckoutFault>)
    ensures
        match r {
            Ok(tree) => snapshot_files(repo@.objects, snapshot_id@) == Ok::<
                Files,
                CheckoutFaultView,
            >(tree.entries@),
            Err(e) => snapshot_files(repo@.objects, snapshot_id@) == Err::<
                Files,
                CheckoutFaultView,
            >(e@),
        },
{
    match repo.objects.get(&snapshot_id) {
        Some(Object::Snapshot(snap)) => match repo.objects.get(&snap.tree) {
            Some(Object::PathMap(tree)) => Ok(tree),
            _ => Err(CheckoutFault::NoTree),
        },
        _ => Err(CheckoutFault::NotASnapshot(snapshot_id)),
    }
}

/// The paths at which `files` are written.
pub open spec fn written_paths(files: Files) -> Set<Seq<char>> {
    Set::new(
        |path: Seq<char>|
            exists|raw: Seq<char>| #[trigger]
                files.contains_key(raw) && repo_path(raw) == Some(path),
    )
}

/// The paths at which the files of a tree are written.
fn tree_paths(tree: &PathMap) -> (r: SortedSet<String>)
    ensures
        r@.dom() == written_paths(tree.entries@),
{
    let ghost goal = written_paths(tree.entries@);
    let mut paths: SortedSet<String> = SortedMap::new();
    let n: usize = tree.entries.len();
    let ghost s = tree.entries.seq();
    let mut i: usize = 0;
    while i < n
        invariant
            n == s.len(),
            s == tree.entries.seq(),
            goal == written_paths(tree.entries@),
            i <= n,
            forall|p: Seq<char>| #[trigger] paths@.contains_key(p) ==> goal.contains(p),
            forall|j: int|
                0 <= j < i && repo_path((#[trigger] s[j]).0) is Some ==> paths@.contains_key(
                    repo_path(s[j].0)->0,
                ),
        decreases n - i,
    {
        let (raw, _) = tree.entries.entry(i);
        if let Some(path) = normalized_repo_path(raw.as_str()) {
            assert(tree.entries@.contains_key(raw@) && repo_path(raw@) == Some(path@));
            paths.insert(path, ());
        }
        i += 1;
    }
    proof {
        assert forall|p: Seq<char>| goal.contains(p) implies #[trigger] paths@.contains_key(p) by {
            let raw = choose|raw: Seq<char>| #[trigger]
                tree.entries@.contains_key(raw) && repo_path(raw) == Some(p);
            let j = choose|j: int| 0 <= j < s.len() && (#[trigger] s[j]).0 == raw;
            assert(s[j].0 == raw);
        }
        assert(paths@.dom() =~= goal);
    }
    paths
}

/// The paths at which the files of the snapshot `snapshot_id` are written.
pub fn snapshot_file_paths(repo: &Repository, snapshot_id: ObjectId) -> (r: Result<
    SortedSet<String>,
    CheckoutFault,
>)
    ensures
        match (r, snapshot_files(repo@.objects, snapshot_id@)) {
            (Ok(paths), Ok(files)) => paths@.dom() == written_paths(files),
            (Err(e), Err(f)) => e@ == f,
            _ => false,
        },
{
    match snapshot_tree(repo, snapshot_id) {
        Ok(tree) => Ok(tree_paths(tree)),
        Err(e) => Err(e),
    }
}

/// A file that is to be written: where, of which chunks or why not, and the time of change that it
/// is to have afterwards.
#[derive(Debug, PartialEq, Eq)]
pub struct FileWrite {
    pub path: String,
    pub chunks: Result<Vec<ObjectId>, BlobFault>,
    pub modified_time: Option<Timestamp>,
}

/// What is to be written.
pub struct WriteView {
    pub path: Seq<char>,
    pub chunks: Result<Seq<Id>, BlobFaultView>,
    pub modified_time: Option<Timestamp>,
}

impl View for FileWrite {
    type V = WriteView;

    open spec fn view(&self) -> WriteView {
        WriteView {
            path: self.path@,
            chunks: contents_view(self.chunks),
            modified_time: self.modified_time,
        }
    }
}

/// What writes hold.
pub open spec fn write_views(writes: Seq<FileWrite>) -> Seq<WriteView> {
    writes.map_values(|w: FileWrite| w@)
}

/// The writes that bring the files `entries` about, in their order. A file is left out where its
/// path is not one of the working tree.
pub open spec fn writes_of(objects: Objects, entries: Seq<(Seq<char>, Id)>) -> Seq<WriteView>
    decreases entries.len(),
{
    if entries.len() == 0 {
        Seq::<WriteView>::empty()
    } else {
        let front = writes_of(objects, entries.drop_last());
        let (raw, blob) = entries.last();
        match repo_path(raw) {
            Some(path) => front.push(
                WriteView {
                    path,
                    chunks: blob_chunks(objects, blob),
                    modified_time: blob_time(objects, blob),
                },
            ),
            None => front,
        }
    }
}

/// The writes that bring the files of a tree about.
fn tree_writes(repo: &Repository, tree: &PathMap) -> (r: Vec<FileWrite>)
    ensures
        write_views(r@) == writes_of(
            repo@.objects,
            sorted_entries::<String, Id>(tree.entries@),
        ),
{
    let mut writes: Vec<FileWrite> = Vec::new();
    let n: usize = tree.entries.len();
    let ghost s = tree.entries.seq();
    let ghost objects = repo@.objects;
    let mut i: usize = 0;
    assert(s.take(0) =~= Seq::<(Seq<char>, Id)>::empty());
    assert(write_views(writes@) =~= writes_of(objects, s.take(0)));
    while i < n
        invariant
            n == s.len(),
            s == tree.entries.seq(),
            objects == repo@.objects,
            i <= n,
            write_views(writes@) == writes_of(objects, s.take(i as int)),
        decreases n - i,
    {
        let (raw, blob) = tree.entries.entry(i);
        let ghost before = write_views(writes@);
        assert(s.take(i + 1).drop_last() =~= s.take(i as int));
        assert(s.take(i + 1).last() == (raw@, blob@));
        if let Some(path) = normalized_repo_path(raw.as_str()) {
            let write = FileWrite {
                path,
                chunks: blob_chunk_ids(repo, *blob),
                modified_time: repo.blob_modified_time(*blob),
            };
            writes.push(write);
            assert(write_views(writes@) =~= before.push(write@));
        }
        i += 1;
    }
    assert(s.take(i as int) =~= s);
    writes
}

/// What it takes to bring the working tree to the state of a snapshot: first files are removed,
/// then files are written, and then the snapshot is the head.
pub struct CheckoutPlan {
    pub removals: SortedSet<String>,
    pub writes: Vec<FileWrite>,
    pub head: ObjectId,
}

/// What a plan holds.
pub struct PlanView {
    pub removals: Set<Seq<char>>,
    pub writes: Seq<WriteView>,
    pub head: Id,
}

impl View for CheckoutPlan {
    type V = PlanView;

    open spec fn view(&self) -> PlanView {
        PlanView {
            removals: self.removals@.dom(),
            writes: write_views(self.writes@),
            head: self.head@,
        }
    }
}

/// What it takes to get from the head of `repo` to the snapshot `id`: the files that only the head
/// has are removed, and all files of the snapshot are written.
pub open spec fn plan_for(repo: RepositoryView, id: Id) -> Result<PlanView, CheckoutFaultView> {
    match snapshot_files(repo.objects, repo.head) {
        Err(e) => Err(e),
        Ok(previous) => match snapshot_files(repo.objects, id) {
            Err(e) => Err(e),
            Ok(target) => Ok(
                PlanView {
                    removals: written_paths(previous).difference(written_paths(target)),
                    writes: writes_of(repo.objects, sorted_entries::<String, Id>(target)),
                    head: id,
                },
            ),
        },
    }
}

/// The id that `hash` is the notation of, but for white space around it.
pub open spec fn id_of_hash(hash: Seq<char>) -> Result<Id, CheckoutFaultView> {
    match hex32(trimmed(hash)) {
        Ok(id) => Ok(id),
        Err(HexError::Length) => Err(CheckoutFaultView::HashLength),
        Err(HexError::Digits) => Err(CheckoutFaultView::HashDigits),
    }
}

/// What it takes to get to the snapshot whose hash is `hash`.
pub open spec fn plan_for_hash(repo: RepositoryView, hash: Seq<char>) -> Result<
    PlanView,
    CheckoutFaultView,
> {
    match id_of_hash(hash) {
        Ok(id) => plan_for(repo, id),
        Err(e) => Err(e),
    }
}

/// What a plan, or the fault in its place, holds.
pub open spec fn outcome_view(r: Result<CheckoutPlan, CheckoutFault>) -> Result<
    PlanView,
    CheckoutFaultView,
> {
    match r {
        Ok(plan) => Ok(plan@),
        Err(e) => Err(e@),
    }
}

/// Those of `a` that `b` does not have.
fn difference(a: &SortedSet<String>, b: &SortedSet<String>) -> (r: SortedSet<String>)
    ensures
        r@.dom() == a@.dom().difference(b@.dom()),
{
    let mut r: SortedSet<String> = SortedMap::new();
    let n: usize = a.len();
    let ghost s = a.seq();
    let mut i: usize = 0;
    while i < n
        invariant
            n == s.len(),
            s == a.seq(),
            i <= n,
            forall|p: Seq<char>| #[trigger]
                r@.contains_key(p) ==> a@.contains_key(p) && !b@.contains_key(p),
            forall|j: int|
                0 <= j < i && !b@.contains_key((#[trigger] s[j]).0) ==> r@.contains_key(s[j].0),
        decreases n - i,
    {
        let (path, _) = a.entry(i);
        if !b.contains_key(path) {
            r.insert(path.duplicate(), ());
        }
        i += 1;
    }
    proof {
        assert forall|p: Seq<char>|
            a@.contains_key(p) && !b@.contains_key(p) implies #[trigger] r@.contains_key(p) by {
            let j = choose|j: int| 0 <= j < s.len() && (#[trigger] s[j]).0 == p;
            assert(s[j].0 == p);
        }
        assert(r@.dom() =~= a@.dom().difference(b@.dom()));
    }
    r
}

/// What it takes to get to the snapshot `snapshot_id`.
pub fn checkout_snapshot(repo: &Repository, snapshot_id: ObjectId) -> (r: Result<
    CheckoutPlan,
    CheckoutFault,
>)
    ensures
        outcome_view(r) == plan_for(repo@, snapshot_id@),
{
    let previous = match snapshot_file_paths(repo, repo.head) {
        Ok(paths) => paths,
        Err(e) => {
            return Err(e);
        },
    };
    let tree = match snapshot_tree(repo, snapshot_id) {
        Ok(tree) => tree,
        Err(e) => {
            return Err(e);
        },
    };
    let target = tree_paths(tree);
    let removals = difference(&previous, &target);
    let writes = tree_writes(repo, tree);
    Ok(CheckoutPlan { removals, writes, head: snapshot_id })
}

/// The id that `snapshot_hash` is the notation of, but for white space around it.
pub fn parse_snapshot_hash(snapshot_hash: &str) -> (r: Result<ObjectId, CheckoutFault>)
    ensures
        (match r {
            Ok(id) => Ok::<Id, CheckoutFaultView>(id@),
            Err(e) => Err(e@),
        }) == id_of_hash(snapshot_hash@),
{
    let cs = trim(chars_of(snapshot_hash).as_slice());
    let hash = string_of(cs.as_slice());
    match parse_hex32(hash.as_str()) {
        Ok(bytes) => Ok(ObjectId(bytes)),
        Err(HexError::Length) => Err(CheckoutFault::HashLength),
        Err(HexError::Digits) => Err(CheckoutFault::HashDigits),
    }
}

/// What it takes to get to the snapshot whose hash is `snapshot_hash`.
pub fn checkout(repo: &Repository, snapshot_hash: &str) -> (r: Result<CheckoutPlan, CheckoutFault>)
    ensures
        outcome_view(r) == plan_for_hash(repo@, snapshot_hash@),
{
    match parse_snapshot_hash(snapshot_hash) {
        Ok(id) => checkout_snapshot(repo, id),
        Err(e) => Err(e),
    }
}

/// What it takes to get to the head.
pub fn checkout_head(repo: &Repository) -> (r: Result<CheckoutPlan, CheckoutFault>)
    ensures
        outcome_view(r) == plan_for(repo@, repo@.head),
{
    let head_hash = repo.head.to_hex();
    proof {
        lemma_hex_text_is_plain(repo.head@);
        law_hex32_round_trip(repo.head@);
    }
    checkout(repo, head_hash.as_str())
}

/// `repo` with the snapshot `id` as its head.
pub open spec fn checked_out(repo: RepositoryView, id: Id) -> RepositoryView {
    RepositoryView { head: id, ..repo }
}

impl CheckoutPlan {
    /// Makes the snapshot the head, once the files are removed and written.
    pub fn finish(&self, repo: &mut Repository)
        ensures
            final(repo)@ == (RepositoryView { head: self@.head, ..old(repo)@ }),
            final(repo)@ == checked_out(old(repo)@, self@.head),
    {
        repo.head = self.head;
    }
}

/// The hash of a snapshot as it is printed checks this snapshot out.
pub proof fn law_printed_hash_checks_out(repo: RepositoryView, id: Id)
    requires
        id.len() == 32,
    ensures
        plan_for_hash(repo, hex_text(id)) == plan_for(repo, id),
{
    lemma_hex_text_is_plain(id);
    law_hex32_round_trip(id);
}

/// The bytes of the files of a working tree by their paths.
pub type WorkingTree = Map<Seq<char>, Seq<u8>>;

/// The bytes that a store has for chunks, one after the other.
pub open spec fn bytes_of(store: Map<Id, Seq<u8>>, chunks: Seq<Id>) -> Seq<u8> {
    concat(chunks.map_values(|id: Id| store[id]))
}

/// `tree` after `writes`, each of which has chunks.
pub open spec fn after_writes(
    tree: WorkingTree,
    writes: Seq<WriteView>,
    store: Map<Id, Seq<u8>>,
) -> WorkingTree
    decreases writes.len(),
{
    if writes.len() == 0 {
        tree
    } else {
        after_writes(tree, writes.drop_last(), store).insert(
            writes.last().path,
            bytes_of(store, writes.last().chunks->Ok_0),
        )
    }
}

/// `tree` after a plan has been carried out.
pub open spec fn after_plan(
    tree: WorkingTree,
    plan: PlanView,
    store: Map<Id, Seq<u8>>,
) -> WorkingTree {
    after_writes(tree.remove_keys(plan.removals), plan.writes, store)
}

proof fn lemma_written(
    objects: Objects,
    entries: Seq<(Seq<char>, Id)>,
    tree: WorkingTree,
    store: Map<Id, Seq<u8>>,
    path: Seq<char>,
)
    ensures
        ({
            let after = after_writes(tree, writes_of(objects, entries), store);
            let hit = exists|i: int|
                0 <= i < entries.len() && repo_path((#[trigger] entries[i]).0) == Some(path);
            &&& after.contains_key(path) <==> tree.contains_key(path) || hit
            &&& !hit && tree.contains_key(path) ==> after[path] == tree[path]
            &&& hit ==> exists|i: int|
                0 <= i < entries.len() && repo_path((#[trigger] entries[i]).0) == Some(path)
                    && after[path] == bytes_of(store, blob_chunks(objects, entries[i].1)->Ok_0)
        }),
    decreases entries.len(),
{
    let after = after_writes(tree, writes_of(objects, entries), store);
    if entries.len() > 0 {
        let front = entries.drop_last();
        lemma_written(objects, front, tree, store, path);
        let n = entries.len() - 1;
        let before = after_writes(tree, writes_of(objects, front), store);
        assert(entries[n] == entries.last());
        let w = writes_of(objects, entries);
        if repo_path(entries[n].0) is Some {
            assert(w.drop_last() =~= writes_of(objects, front));
        }
        if repo_path(entries[n].0) == Some(path) {
            assert(after[path] == bytes_of(store, blob_chunks(objects, entries[n].1)->Ok_0));
        } else {
            if exists|i: int|
                0 <= i < entries.len() && repo_path((#[trigger] entries[i]).0) == Some(path) {
                let i = choose|i: int|
                    0 <= i < entries.len() && repo_path((#[trigger] entries[i]).0) == Some(path);
                assert(front[i] == entries[i]);
            }
            if exists|i: int|
                0 <= i < front.len() && repo_path((#[trigger] front[i]).0) == Some(path) {
                let i = choose|i: int|
                    0 <= i < front.len() && repo_path((#[trigger] front[i]).0) == Some(path)
                        && before[path] == bytes_of(store, blob_chunks(objects, front[i].1)->Ok_0);
                assert(entries[i] == front[i]);
            }
        }
    }
}

/// A checkout leaves just the files of the snapshot, and those that the head did not have: a file
/// of the head that the snapshot does not have has gone, a file of the snapshot holds the bytes
/// that the store has for its chunks, and any other file is as it was. Where two paths of the
/// snapshot have one normal form, one of the two files is there.
pub proof fn law_checkout_reaches_snapshot(
    repo: RepositoryView,
    id: Id,
    tree: WorkingTree,
    store: Map<Id, Seq<u8>>,
    path: Seq<char>,
)
    requires
        plan_for(repo, id) is Ok,
        snapshot_files(repo.objects, id)->Ok_0.dom().finite(),
    ensures
        ({
            let previous = snapshot_files(repo.objects, repo.head)->Ok_0;
            let target = snapshot_files(repo.objects, id)->Ok_0;
            let after = after_plan(tree, plan_for(repo, id)->Ok_0, store);
            let stays = written_paths(target).contains(path);
            let goes = written_paths(previous).contains(path) && !stays;
            &&& after.contains_key(path) <==> stays || (tree.contains_key(path) && !goes)
            &&& !stays && !goes && tree.contains_key(path) ==> after[path] == tree[path]
            &&& stays ==> exists|raw: Seq<char>| #[trigger]
                target.contains_key(raw) && repo_path(raw) == Some(path) && after[path] == bytes_of(
                    store,
                    blob_chunks(repo.objects, target[raw])->Ok_0,
                )
        }),
{
    let target = snapshot_files(repo.objects, id)->Ok_0;
    let entries = sorted_entries::<String, Id>(target);
    lemma_sorted_entries_are_entries::<String, Id>(target);
    let plan = plan_for(repo, id)->Ok_0;
    lemma_written(repo.objects, entries, tree.remove_keys(plan.removals), store, path);
    if written_paths(target).contains(path) {
        let raw = choose|raw: Seq<char>| #[trigger]
            target.contains_key(raw) && repo_path(raw) == Some(path);
        let i = choose|i: int| 0 <= i < entries.len() && (#[trigger] entries[i]).0 == raw;
        assert(repo_path(entries[i].0) == Some(path));
        let after = after_plan(tree, plan, store);
        let last = choose|i: int|
            0 <= i < entries.len() && repo_path((#[trigger] entries[i]).0) == Some(path)
                && after[path] == bytes_of(store, blob_chunks(repo.objects, entries[i].1)->Ok_0);
        lemma_map_of_entry::<String, Id>(entries, last);
    }
    if exists|i: int|
        0 <= i < entries.len() && repo_path((#[trigger] entries[i]).0) == Some(path) {
        let i = choose|i: int|
            0 <= i < entries.len() && repo_path((#[trigger] entries[i]).0) == Some(path);
        assert(target.contains_key(entries[i].0));
    }
}

/// A file has the chunks that the list of its blob leads to; without a blob there is no file.
pub proof fn law_file_has_the_chunks_of_its_blob(objects: Objects, id: Id, chunks: Seq<Id>)
    ensures
        objects.contains_key(id) && objects[id] is Blob ==> (blob_chunks(objects, id) == Ok::<
            Seq<Id>,
            BlobFaultView,
        >(chunks) <==> chunks_of_list(objects, objects[id]->Blob_0.chunks) == Ok::<
            Seq<Id>,
            ListFaultView,
        >(chunks)),
        !(objects.contains_key(id) && objects[id] is Blob) <==> blob_chunks(objects, id) == Err::<
            Seq<Id>,
            BlobFaultView,
        >(BlobFaultView::MissingBlob(id)),
{
}

/// A snapshot can be checked out exactly where it and the head are snapshots whose trees are there;
/// else the fault is that of the head or, where that has none, that of the snapshot.
pub proof fn law_when_a_snapshot_can_be_checked_out(repo: RepositoryView, id: Id)
    ensures
        ({
            let objects = repo.objects;
            let is_snapshot = |x: Id| objects.contains_key(x) && objects[x] is Snapshot;
            let is_whole = |x: Id|
                is_snapshot(x) && objects.contains_key(objects[x]->Snapshot_0.tree)
                    && objects[objects[x]->Snapshot_0.tree] is PathMap;
            let plan = plan_for(repo, id);
            &&& plan is Ok <==> is_whole(repo.head) && is_whole(id)
            &&& !is_snapshot(repo.head) ==> plan == Err::<PlanView, CheckoutFaultView>(
                CheckoutFaultView::NotASnapshot(repo.head),
            )
            &&& is_snapshot(repo.head) && !is_whole(repo.head) ==> plan == Err::<
                PlanView,
                CheckoutFaultView,
            >(CheckoutFaultView::NoTree)
            &&& is_whole(repo.head) && !is_snapshot(id) ==> plan == Err::<
                PlanView,
                CheckoutFaultView,
            >(CheckoutFaultView::NotASnapshot(id))
            &&& is_whole(repo.head) && is_snapshot(id) && !is_whole(id) ==> plan == Err::<
                PlanView,
                CheckoutFaultView,
            >(CheckoutFaultView::NoTree)
        }),
{
}

proof fn lemma_writes_in_order(objects: Objects, entries: Seq<(Seq<char>, Id)>)
    ensures
        writes_of(objects, entries) == entries.filter(
            |e: (Seq<char>, Id)| repo_path(e.0) is Some,
        ).map_values(
            |e: (Seq<char>, Id)|
                WriteView {
                    path: repo_path(e.0)->0,
                    chunks: blob_chunks(objects, e.1),
                    modified_time: blob_time(objects, e.1),
                },
        ),
    decreases entries.len(),
{
    reveal(Seq::filter);
    let inside = |e: (Seq<char>, Id)| repo_path(e.0) is Some;
    let write = |e: (Seq<char>, Id)|
        WriteView {
            path: repo_path(e.0)->0,
            chunks: blob_chunks(objects, e.1),
            modified_time: blob_time(objects, e.1),
        };
    if entries.len() > 0 {
        lemma_writes_in_order(objects, entries.drop_last());
        assert(entries.filter(inside).map_values(write) =~= writes_of(objects, entries));
    } else {
        assert(entries.filter(inside).map_values(write) =~= writes_of(objects, entries));
    }
}

/// A checkout makes the snapshot the head. It writes each file of the snapshot whose path may be
/// written, and no other, at the normal form of its path, with the chunks of its blob and the time of
/// change that its blob holds, in the order of the paths. It removes each path at which the head has a
/// file and the snapshot has none, and no other.
pub proof fn law_plan_of_a_checkout(repo: RepositoryView, id: Id, path: Seq<char>)
    requires
        plan_for(repo, id) is Ok,
    ensures
        ({
            let plan = plan_for(repo, id)->Ok_0;
            let previous = files_of(repo.objects, repo.head);
            let target = files_of(repo.objects, id);
            let files = sorted_entries::<String, Id>(target).filter(
                |e: (Seq<char>, Id)| repo_path(e.0) is Some,
            );
            &&& plan.head == id
            &&& plan.writes.len() == files.len()
            &&& forall|i: int|
                0 <= i < files.len() ==> {
                    let blob = files[i].1;
                    &&& Some((#[trigger] plan.writes[i]).path) == repo_path(files[i].0)
                    &&& plan.writes[i].chunks == blob_chunks(repo.objects, blob)
                    &&& repo.objects.contains_key(blob) && repo.objects[blob] is Blob
                        ==> plan.writes[i].modified_time
                        == repo.objects[blob]->Blob_0.modified_time
                }
            &&& plan.removals.contains(path) <==> (exists|raw: Seq<char>| #[trigger]
                previous.contains_key(raw) && repo_path(raw) == Some(path)) && !(exists|
                raw: Seq<char>,
            | #[trigger]
                target.contains_key(raw) && repo_path(raw) == Some(path))
        }),
{
    let plan = plan_for(repo, id)->Ok_0;
    let previous = files_of(repo.objects, repo.head);
    let target = files_of(repo.objects, id);
    assert(snapshot_files(repo.objects, repo.head)->Ok_0 == previous);
    assert(snapshot_files(repo.objects, id)->Ok_0 == target);
    let entries = sorted_entries::<String, Id>(target);
    lemma_writes_in_order(repo.objects, entries);
    let files = entries.filter(|e: (Seq<char>, Id)| repo_path(e.0) is Some);
    assert(plan.writes == files.map_values(
        |e: (Seq<char>, Id)|
            WriteView {
                path: repo_path(e.0)->0,
                chunks: blob_chunks(repo.objects, e.1),
                modified_time: blob_time(repo.objects, e.1),
            },
    ));
    broadcast use vstd::seq_lib::group_filter_ensures;

    assert(plan.removals.contains(path) <==> written_paths(previous).contains(path)
        && !written_paths(target).contains(path));
}

/// A hash of plain characters, but for white space around it, is read as an id exactly where it is the
/// notation of its 32 bytes, in small or capital letters; it has the wrong length exactly where it
/// does not take up 64 bytes.
pub proof fn law_hash_is_the_notation_of_an_id(hash: Seq<char>, id: Id)
    requires
        !trimmed(hash).contains('+'),
    ensures
        id_of_hash(hash) == Ok::<Id, CheckoutFaultView>(id) <==> id.len() == 32 && lowered(
            trimmed(hash),
        ) == hex_text(id),
        id_of_hash(hash) == Err::<Id, CheckoutFaultView>(CheckoutFaultView::HashLength)
            <==> vstd::utf8::encode_utf8(trimmed(hash)).len() != 64,
        forall|repo: RepositoryView|
            id_of_hash(hash) == Ok::<Id, CheckoutFaultView>(id) ==> #[trigger] plan_for_hash(
                repo,
                hash,
            ) == plan_for(repo, id),
{
    law_hex32_tells(trimmed(hash), id);
}

/// What is said of a plan is said of all that it holds: where to and of which chunks each file is to be
/// written, which time of change it is to have, what is to be removed, and which snapshot is to be the
/// head.
pub proof fn law_plans_are_told_in_full(plan: CheckoutPlan, i: int, path: Seq<char>)
    ensures
        plan@.head == plan.head.0@,
        plan@.removals.contains(path) <==> plan.removals@.contains_key(path),
        plan@.writes.len() == plan.writes@.len(),
        0 <= i < plan.writes@.len() ==> ({
            let write = plan.writes@[i];
            &&& plan@.writes[i].path == write.path@
            &&& plan@.writes[i].modified_time == write.modified_time
            &&& write.chunks matches Ok(chunks) ==> plan@.writes[i].chunks == Ok::<
                Seq<Id>,
                BlobFaultView,
            >(ids(chunks@))
            &&& write.chunks matches Err(e) ==> plan@.writes[i].chunks == Err::<
                Seq<Id>,
                BlobFaultView,
            >(e@)
        }),
        outcome_view(Ok(plan)) == Ok::<PlanView, CheckoutFaultView>(plan@),
        forall|e: CheckoutFault|
            #[trigger] outcome_view(Err(e)) == Err::<PlanView, CheckoutFaultView>(e@),
{
}

/// A checkout moves the head and leaves all else as it is; after it, the files of the head are those of
/// the snapshot.
pub proof fn law_checkout_moves_the_head(repo: RepositoryView, id: Id)
    ensures
        checked_out(repo, id).head == id,
        checked_out(repo, id).objects == repo.objects,
        checked_out(repo, id).repo_uuid == repo.repo_uuid,
        plan_for(repo, id) matches Ok(plan) ==> files_of(
            checked_out(repo, plan.head).objects,
            checked_out(repo, plan.head).head,
        ) == files_of(repo.objects, id),
{
}

} // verus!

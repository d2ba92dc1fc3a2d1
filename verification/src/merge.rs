//! Two histories of one repository made one.

use crate::clock::now;
use crate::duplicate::Duplicate;
use crate::ids::{map_id, map_object_id, snapshot_id, snapshot_object_id};
use crate::model::{
    law_later_time_counts_more, Id, Object, ObjectId, ObjectView, Objects, PathMap, Repository,
    RepositoryView, Snapshot, SnapshotView, Timestamp,
};
use crate::order::{lemma_lex_asymmetric, lemma_lex_total, lex_less, Relation, SortKey};
use crate::sorted_map::SortedMap;
use crate::text::copy_str;
use crate::tree::{blob_time, files_of, Files};
use vstd::prelude::*;

verus! {

/// Which of two blobs of one path stays: the one that was changed last. Where this is known of one
/// only, that one stays; where it is known of none, the incoming one.
pub open spec fn newer(objects: Objects, local: Id, incoming: Id) -> Id {
    match (blob_time(objects, local), blob_time(objects, incoming)) {
        (Some(l), Some(r)) => if r.after(l) {
            incoming
        } else {
            local
        },
        (Some(_), None) => local,
        (None, _) => incoming,
    }
}

/// The blob that stays for a path that one side has, or both.
pub open spec fn merged_blob(objects: Objects, local: Files, incoming: Files, path: Seq<char>) -> Id {
    if !incoming.contains_key(path) {
        local[path]
    } else if !local.contains_key(path) || local[path] == incoming[path] {
        incoming[path]
    } else {
        newer(objects, local[path], incoming[path])
    }
}

/// The files of both sides.
pub open spec fn merged_files(objects: Objects, local: Files, incoming: Files) -> Files {
    Map::new(
        |path: Seq<char>| local.contains_key(path) || incoming.contains_key(path),
        |path: Seq<char>| merged_blob(objects, local, incoming, path),
    )
}

/// Two different ids in their order.
pub open spec fn in_order(a: Id, b: Id) -> Seq<Id> {
    if lex_less(a, b) {
        seq![a, b]
    } else {
        seq![b, a]
    }
}

/// The snapshot that brings two heads together.
pub open spec fn merge_snapshot(
    files: Files,
    local_head: Id,
    incoming_head: Id,
    date: Timestamp,
) -> SnapshotView {
    SnapshotView {
        parents: in_order(local_head, incoming_head),
        tree: map_id(files),
        message: Some("Merge"@),
        date,
    }
}

/// The repository `local` after the history `incoming` has been taken in.
pub open spec fn merged(
    local: RepositoryView,
    incoming: RepositoryView,
    date: Timestamp,
) -> RepositoryView {
    if local.repo_uuid != incoming.repo_uuid || local.head == incoming.head {
        local
    } else {
        let both = local.objects.union_prefer_right(incoming.objects);
        let files = merged_files(
            both,
            files_of(both, local.head),
            files_of(both, incoming.head),
        );
        let snap = merge_snapshot(files, local.head, incoming.head, date);
        RepositoryView {
            repo_uuid: local.repo_uuid,
            objects: both.insert(map_id(files), ObjectView::PathMap(files)).insert(
                snapshot_id(snap),
                ObjectView::Snapshot(snap),
            ),
            head: snapshot_id(snap),
        }
    }
}

/// Binds the keys of `from` in `into`, in place of what they were bound to.
pub(crate) fn take_in(into: &mut SortedMap<ObjectId, Object>, from: &SortedMap<ObjectId, Object>)
    ensures
        final(into)@ == old(into)@.union_prefer_right(from@),
{
    let n: usize = from.len();
    let ghost s = from.seq();
    let mut i: usize = 0;
    while i < n
        invariant
            n == s.len(),
            s == from.seq(),
            i <= n,
            forall|k: Id| #[trigger]
                into@.contains_key(k) ==> old(into)@.contains_key(k) || from@.contains_key(k),
            forall|k: Id| #[trigger]
                old(into)@.contains_key(k) ==> into@.contains_key(k) && (into@[k] == from@[k]
                    && from@.contains_key(k) || into@[k] == old(into)@[k]),
            forall|k: Id| #[trigger]
                into@.contains_key(k) && !old(into)@.contains_key(k) ==> into@[k] == from@[k],
            forall|j: int|
                0 <= j < i ==> into@.contains_key((#[trigger] s[j]).0) && into@[s[j].0]
                    == from@[s[j].0],
        decreases n - i,
    {
        let (id, obj) = from.entry(i);
        into.insert(*id, obj.duplicate());
        i += 1;
    }
    proof {
        let goal = old(into)@.union_prefer_right(from@);
        assert forall|k: Id| from@.contains_key(k) implies #[trigger] into@.contains_key(k)
            && into@[k] == from@[k] by {
            let j = choose|j: int| 0 <= j < s.len() && (#[trigger] s[j]).0 == k;
            assert(s[j].0 == k);
        }
        assert(into@ =~= goal);
    }
}

impl Repository {
    /// Which of two blobs of one path stays.
    fn choose_newer(&self, local: ObjectId, incoming: ObjectId) -> (r: ObjectId)
        ensures
            r@ == newer(self@.objects, local@, incoming@),
    {
        match (self.blob_modified_time(local), self.blob_modified_time(incoming)) {
            (Some(l), Some(r)) => {
                if r.is_after(&l) {
                    incoming
                } else {
                    local
                }
            },
            (Some(_), None) => local,
            (None, _) => incoming,
        }
    }

    /// The files of both sides.
    fn merge_files(
        &self,
        local: &SortedMap<String, ObjectId>,
        incoming: &SortedMap<String, ObjectId>,
    ) -> (r: SortedMap<String, ObjectId>)
        ensures
            r@ == merged_files(self@.objects, local@, incoming@),
    {
        let ghost goal = merged_files(self@.objects, local@, incoming@);
        let mut merged: SortedMap<String, ObjectId> = SortedMap::new();
        let n: usize = local.len();
        let ghost s = local.seq();
        let mut i: usize = 0;
        while i < n
            invariant
                n == s.len(),
                s == local.seq(),
                i <= n,
                goal == merged_files(self@.objects, local@, incoming@),
                forall|p: Seq<char>| #[trigger]
                    merged@.contains_key(p) ==> goal.contains_key(p) && merged@[p] == goal[p],
                forall|j: int| 0 <= j < i ==> merged@.contains_key((#[trigger] s[j]).0),
            decreases n - i,
        {
            let (path, l) = local.entry(i);
            let blob = match incoming.get(path) {
                Some(r) => {
                    if l.is(r) {
                        *l
                    } else {
                        self.choose_newer(*l, *r)
                    }
                },
                None => *l,
            };
            merged.insert(path.duplicate(), blob);
            i += 1;
        }
        let m: usize = incoming.len();
        let ghost t = incoming.seq();
        let mut i: usize = 0;
        while i < m
            invariant
                m == t.len(),
                t == incoming.seq(),
                s == local.seq(),
                i <= m,
                goal == merged_files(self@.objects, local@, incoming@),
                forall|p: Seq<char>| #[trigger]
                    merged@.contains_key(p) ==> goal.contains_key(p) && merged@[p] == goal[p],
                forall|j: int| 0 <= j < s.len() ==> merged@.contains_key((#[trigger] s[j]).0),
                forall|j: int| 0 <= j < i ==> merged@.contains_key((#[trigger] t[j]).0),
            decreases m - i,
        {
            let (path, r) = incoming.entry(i);
            if !local.contains_key(path) {
                merged.insert(path.duplicate(), *r);
            } else {
                proof {
                    let j = choose|j: int| 0 <= j < s.len() && (#[trigger] s[j]).0 == path@;
                    assert(s[j].0 == path@);
                }
            }
            i += 1;
        }
        proof {
            assert forall|p: Seq<char>| goal.contains_key(p) implies #[trigger] merged@.contains_key(
                p,
            ) by {
                if local@.contains_key(p) {
                    let j = choose|j: int| 0 <= j < s.len() && (#[trigger] s[j]).0 == p;
                    assert(s[j].0 == p);
                } else {
                    let j = choose|j: int| 0 <= j < t.len() && (#[trigger] t[j]).0 == p;
                    assert(t[j].0 == p);
                }
            }
            assert(merged@ =~= goal);
        }
        merged
    }

    /// Takes in the history `incoming` of the same repository: the files of both heads become a
    /// snapshot of the given date whose parents are the two.
    pub fn merge_at(&mut self, incoming: &Repository, date: Timestamp)
        ensures
            final(self)@ == merged(old(self)@, incoming@, date),
    {
        if !self.repo_uuid.is(&incoming.repo_uuid) {
            return ;
        }
        let local_head = self.head;
        let remote_head = incoming.head;
        if local_head.is(&remote_head) {
            return ;
        }
        take_in(&mut self.objects, &incoming.objects);
        let local_files = self.map_entries_for_snapshot(local_head);
        let remote_files = self.map_entries_for_snapshot(remote_head);
        let files = self.merge_files(&local_files, &remote_files);
        let ghost files_view = files@;
        let tree = map_object_id(&files);
        self.objects.insert(tree, Object::PathMap(PathMap { entries: files }));
        let mut parents: Vec<ObjectId> = Vec::new();
        proof {
            lemma_lex_total(local_head@, remote_head@);
        }
        if local_head.compare(&remote_head) == Relation::Before {
            parents.push(local_head);
            parents.push(remote_head);
        } else {
            parents.push(remote_head);
            parents.push(local_head);
        }
        let snap = Snapshot { parents, tree, message: Some(copy_str("Merge")), date };
        assert(snap@ =~= merge_snapshot(files_view, local_head@, remote_head@, date));
        let id = snapshot_object_id(&snap);
        self.objects.insert(id, Object::Snapshot(snap));
        self.head = id;
    }

    /// Takes in the history `incoming` of the same repository.
    pub fn merge(&mut self, incoming: Repository)
        ensures
            exists|date: Timestamp|
                date.is_valid() && final(self)@ == #[trigger] merged(
                    old(self)@,
                    incoming@,
                    date,
                ),
    {
        let date = now();
        self.merge_at(&incoming, date);
        assert(self@ == merged(old(self)@, incoming@, date));
    }
}

/// A history of another repository, or one with the same head, changes nothing.
pub proof fn law_merge_of_nothing_new(
    local: RepositoryView,
    incoming: RepositoryView,
    date: Timestamp,
)
    requires
        local.repo_uuid != incoming.repo_uuid || local.head == incoming.head,
    ensures
        merged(local, incoming, date) == local,
{
}

/// No object of either side is lost.
pub proof fn law_merge_keeps_objects(
    local: RepositoryView,
    incoming: RepositoryView,
    date: Timestamp,
    id: Id,
)
    requires
        local.repo_uuid == incoming.repo_uuid,
        local.head != incoming.head,
        local.objects.contains_key(id) || incoming.objects.contains_key(id),
    ensures
        merged(local, incoming, date).objects.contains_key(id),
{
}

/// The head of a merge has the files of both sides: no path is lost and none is added. This takes
/// that the new snapshot and its tree do not share an id.
pub proof fn law_merge_keeps_paths(
    local: RepositoryView,
    incoming: RepositoryView,
    date: Timestamp,
)
    requires
        local.repo_uuid == incoming.repo_uuid,
        local.head != incoming.head,
        ({
            let both = local.objects.union_prefer_right(incoming.objects);
            let files = merged_files(
                both,
                files_of(both, local.head),
                files_of(both, incoming.head),
            );
            map_id(files) != snapshot_id(
                merge_snapshot(files, local.head, incoming.head, date),
            )
        }),
    ensures
        ({
            let both = local.objects.union_prefer_right(incoming.objects);
            let after = merged(local, incoming, date);
            let files = files_of(after.objects, after.head);
            &&& files == merged_files(
                both,
                files_of(both, local.head),
                files_of(both, incoming.head),
            )
            &&& forall|path: Seq<char>| #[trigger]
                files.contains_key(path) <==> files_of(both, local.head).contains_key(path)
                    || files_of(both, incoming.head).contains_key(path)
        }),
{
}

/// Where both sides have a path and both know when its file was changed, what stays was not
/// changed before what goes; where the times differ, it was changed after it.
pub proof fn law_newer_file_stays(
    objects: Objects,
    local: Files,
    incoming: Files,
    path: Seq<char>,
)
    requires
        local.contains_key(path),
        incoming.contains_key(path),
        local[path] != incoming[path],
        blob_time(objects, local[path]) is Some,
        blob_time(objects, incoming[path]) is Some,
    ensures
        ({
            let l = blob_time(objects, local[path])->0;
            let r = blob_time(objects, incoming[path])->0;
            let stays = merged_files(objects, local, incoming)[path];
            &&& stays == local[path] || stays == incoming[path]
            &&& r.after(l) ==> stays == incoming[path]
            &&& l.after(r) ==> stays == local[path]
            &&& !l.after(blob_time(objects, stays)->0)
            &&& !r.after(blob_time(objects, stays)->0)
        }),
{
}

/// Whichever side takes in the other, both end with the same repository, if it is done at the same
/// date, the sides agree on the objects that both have, and of each path on which they differ it
/// is known which file was changed last.
pub proof fn law_merge_is_symmetric(a: RepositoryView, b: RepositoryView, date: Timestamp)
    requires
        a.repo_uuid == b.repo_uuid,
        a.head != b.head,
        forall|id: Id|
            a.objects.contains_key(id) && #[trigger] b.objects.contains_key(id) ==> a.objects[id]
                == b.objects[id],
        ({
            let both = a.objects.union_prefer_right(b.objects);
            let x = files_of(both, a.head);
            let y = files_of(both, b.head);
            forall|path: Seq<char>|
                x.contains_key(path) && #[trigger] y.contains_key(path) && x[path] != y[path] ==> {
                    &&& blob_time(both, x[path]) is Some
                    &&& blob_time(both, y[path]) is Some
                    &&& blob_time(both, x[path]) != blob_time(both, y[path])
                }
        }),
    ensures
        merged(a, b, date) == merged(b, a, date),
{
    let both = a.objects.union_prefer_right(b.objects);
    assert(both =~= b.objects.union_prefer_right(a.objects));
    let x = files_of(both, a.head);
    let y = files_of(both, b.head);
    assert(merged_files(both, x, y) =~= merged_files(both, y, x));
    lemma_lex_total(a.head, b.head);
    if lex_less(a.head, b.head) {
        lemma_lex_asymmetric(a.head, b.head);
    }
    assert(in_order(a.head, b.head) =~= in_order(b.head, a.head));
}

/// Whichever side takes in the other, and whenever each does so, the new heads have the same parents
/// and the same tree, if the sides agree on the objects that both have, and of each path on which
/// they differ it is known which file was changed last. They have the same files, if neither
/// snapshot shares its id with the tree.
pub proof fn law_merge_is_symmetric_at_any_dates(
    a: RepositoryView,
    b: RepositoryView,
    a_date: Timestamp,
    b_date: Timestamp,
)
    requires
        a.repo_uuid == b.repo_uuid,
        a.head != b.head,
        forall|id: Id|
            a.objects.contains_key(id) && #[trigger] b.objects.contains_key(id) ==> a.objects[id]
                == b.objects[id],
        ({
            let both = a.objects.union_prefer_right(b.objects);
            let x = files_of(both, a.head);
            let y = files_of(both, b.head);
            forall|path: Seq<char>|
                x.contains_key(path) && #[trigger] y.contains_key(path) && x[path] != y[path] ==> {
                    &&& blob_time(both, x[path]) is Some
                    &&& blob_time(both, y[path]) is Some
                    &&& blob_time(both, x[path]) != blob_time(both, y[path])
                }
        }),
    ensures
        ({
            let x = merged(a, b, a_date);
            let y = merged(b, a, b_date);
            &&& x.objects[x.head] is Snapshot
            &&& y.objects[y.head] is Snapshot
            &&& x.objects[x.head]->Snapshot_0.parents == y.objects[y.head]->Snapshot_0.parents
            &&& x.objects[x.head]->Snapshot_0.tree == y.objects[y.head]->Snapshot_0.tree
            &&& x.objects[x.head]->Snapshot_0.tree != x.head
                && y.objects[y.head]->Snapshot_0.tree != y.head ==> files_of(x.objects, x.head)
                == files_of(y.objects, y.head)
        }),
{
    law_merge_is_symmetric(a, b, a_date);
    let both = b.objects.union_prefer_right(a.objects);
    let files = merged_files(both, files_of(both, b.head), files_of(both, a.head));
    let early = merge_snapshot(files, b.head, a.head, a_date);
    let late = merge_snapshot(files, b.head, a.head, b_date);
    assert(merged(b, a, a_date).objects[snapshot_id(early)] == ObjectView::Snapshot(early));
    assert(merged(b, a, b_date).objects[snapshot_id(late)] == ObjectView::Snapshot(late));
}

/// The new head of a merge is a snapshot with the message "Merge" and the given date, whose parents are
/// the two heads, the one that comes first in the order of ids first. Each object of the two sides is
/// there, the one of the incoming side where both have it, and but for the snapshot and its tree
/// there is no other.
pub proof fn law_merge_is_the_new_head(
    local: RepositoryView,
    incoming: RepositoryView,
    date: Timestamp,
    id: Id,
)
    requires
        local.repo_uuid == incoming.repo_uuid,
        local.head != incoming.head,
    ensures
        ({
            let after = merged(local, incoming, date);
            let snap = after.objects[after.head]->Snapshot_0;
            let there = local.objects.contains_key(id) || incoming.objects.contains_key(id);
            &&& after.repo_uuid == local.repo_uuid
            &&& after.objects.contains_key(after.head)
            &&& after.objects[after.head] is Snapshot
            &&& snap.message == Some("Merge"@)
            &&& snap.date == date
            &&& snap.parents.len() == 2
            &&& lex_less(snap.parents[0], snap.parents[1])
            &&& snap.parents.contains(local.head)
            &&& snap.parents.contains(incoming.head)
            &&& after.objects.contains_key(snap.tree)
            &&& snap.tree != after.head ==> after.objects[snap.tree] is PathMap
            &&& id != after.head && id != snap.tree ==> {
                &&& after.objects.contains_key(id) <==> there
                &&& incoming.objects.contains_key(id) ==> after.objects[id] == incoming.objects[id]
                &&& local.objects.contains_key(id) && !incoming.objects.contains_key(id)
                    ==> after.objects[id] == local.objects[id]
            }
        }),
{
    let after = merged(local, incoming, date);
    let snap = after.objects[after.head]->Snapshot_0;
    lemma_lex_total(local.head, incoming.head);
    if lex_less(local.head, incoming.head) {
        assert(snap.parents[0] == local.head && snap.parents[1] == incoming.head);
    } else {
        assert(snap.parents[0] == incoming.head && snap.parents[1] == local.head);
    }
}

/// A path that one side has keeps its file. Of two files at one path the one stays of which the count
/// of nanoseconds from 1970 to its last change, negative before 1970, is greater; the local one where
/// they are the same, or where it alone has a time of change; else the incoming one. (A time before
/// 1970 is some way from it. The new snapshot and its tree do not share an id.)
pub proof fn law_file_changed_last_stays(
    local: RepositoryView,
    incoming: RepositoryView,
    date: Timestamp,
    path: Seq<char>,
)
    requires
        local.repo_uuid == incoming.repo_uuid,
        local.head != incoming.head,
        ({
            let after = merged(local, incoming, date);
            after.objects[after.head]->Snapshot_0.tree != after.head
        }),
    ensures
        ({
            let both = local.objects.union_prefer_right(incoming.objects);
            let ours = files_of(both, local.head);
            let theirs = files_of(both, incoming.head);
            let after = merged(local, incoming, date);
            let files = files_of(after.objects, after.head);
            let l = blob_time(both, ours[path]);
            let r = blob_time(both, theirs[path]);
            &&& files.contains_key(path) <==> ours.contains_key(path) || theirs.contains_key(path)
            &&& ours.contains_key(path) && !theirs.contains_key(path) ==> files[path] == ours[path]
            &&& !ours.contains_key(path) && theirs.contains_key(path) ==> files[path]
                == theirs[path]
            &&& ours.contains_key(path) && theirs.contains_key(path) ==> {
                &&& r is None && l is Some ==> files[path] == ours[path]
                &&& l is None ==> files[path] == theirs[path]
                &&& l is Some && r is Some && (l->0).nanos < 1_000_000_000 && (r->0).nanos
                    < 1_000_000_000 && ((l->0).before_epoch ==> (l->0).secs > 0 || (l->0).nanos
                    > 0) && ((r->0).before_epoch ==> (r->0).secs > 0 || (r->0).nanos > 0) ==> {
                    let lc = (l->0).secs * 1_000_000_000 + (l->0).nanos;
                    let rc = (r->0).secs * 1_000_000_000 + (r->0).nanos;
                    let ln = if (l->0).before_epoch {
                        -lc
                    } else {
                        lc
                    };
                    let rn = if (r->0).before_epoch {
                        -rc
                    } else {
                        rc
                    };
                    files[path] == if rn > ln {
                        theirs[path]
                    } else {
                        ours[path]
                    }
                }
            }
        }),
{
    let both = local.objects.union_prefer_right(incoming.objects);
    let ours = files_of(both, local.head);
    let theirs = files_of(both, incoming.head);
    let after = merged(local, incoming, date);
    assert(files_of(after.objects, after.head) == merged_files(both, ours, theirs));
    let l = blob_time(both, ours[path]);
    let r = blob_time(both, theirs[path]);
    if l is Some && r is Some && (l->0).nanos < 1_000_000_000 && (r->0).nanos < 1_000_000_000 && ((
    l->0).before_epoch ==> (l->0).secs > 0 || (l->0).nanos > 0) && ((r->0).before_epoch ==> (
    r->0).secs > 0 || (r->0).nanos > 0) {
        law_later_time_counts_more(r->0, l->0);
    }
}

} // verus!

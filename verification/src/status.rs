//! How a working tree differs from the last snapshot.

use crate::duplicate::Duplicate;
use crate::model::{same_time, Id, Objects, Repository, RepositoryView, Timestamp};
use crate::paths::{
    components_of, in_repo_dir, is_in_repo_dir, law_own_files_are_below_the_repo_dir,
    normalize_path, normalized, resolved,
};
use crate::sorted_map::{
    law_entries_are_in_order, sorted_entries, sorted_keys, SortedMap, SortedSet,
};
use crate::text::{copy_str, law_parts_of_texts, views};
use crate::tree::{blob_time, files_of, Files};
use vstd::prelude::*;
use vstd::string::StringExecFns;

verus! {

/// A file of the working tree as it was found: its path, seen from there, and when it was last
/// changed, if that is known.
#[derive(Debug, PartialEq, Eq)]
pub struct SeenFile {
    pub path: String,
    pub modified_time: Option<Timestamp>,
}

impl View for SeenFile {
    type V = (Seq<char>, Option<Timestamp>);

    open spec fn view(&self) -> (Seq<char>, Option<Timestamp>) {
        (self.path@, self.modified_time)
    }
}

/// What files hold.
pub open spec fn seen_views(files: Seq<SeenFile>) -> Seq<(Seq<char>, Option<Timestamp>)> {
    files.map_values(|f: SeenFile| f@)
}

/// Whether `file` stands at `path`, and is not one of the repository's own files.
pub open spec fn stands_at_path(file: (Seq<char>, Option<Timestamp>), path: Seq<char>) -> bool {
    normalized(file.0) == path && !in_repo_dir(path)
}

/// Whether a file was found at `path`.
pub open spec fn is_seen(seen: Seq<(Seq<char>, Option<Timestamp>)>, path: Seq<char>) -> bool {
    exists|i: int| 0 <= i < seen.len() && stands_at_path(#[trigger] seen[i], path)
}

/// Whether the snapshot knows another time of change for the blob than `time`.
pub open spec fn time_differs(objects: Objects, blob: Id, time: Option<Timestamp>) -> bool {
    blob_time(objects, blob) is Some && blob_time(objects, blob) != time
}

/// The paths of the snapshot at which a file with another time of change was found.
pub open spec fn modified_paths(
    objects: Objects,
    known: Files,
    seen: Seq<(Seq<char>, Option<Timestamp>)>,
) -> Set<Seq<char>> {
    Set::new(
        |path: Seq<char>|
            known.contains_key(path) && exists|i: int|
                0 <= i < seen.len() && stands_at_path(#[trigger] seen[i], path) && time_differs(
                    objects,
                    known[path],
                    seen[i].1,
                ),
    )
}

/// The paths at which a file was found that the snapshot does not have.
pub open spec fn created_paths(
    known: Files,
    seen: Seq<(Seq<char>, Option<Timestamp>)>,
) -> Set<Seq<char>> {
    Set::new(|path: Seq<char>| is_seen(seen, path) && !known.contains_key(path))
}

/// The paths of the snapshot at which no file was found.
pub open spec fn deleted_paths(
    known: Files,
    seen: Seq<(Seq<char>, Option<Timestamp>)>,
) -> Set<Seq<char>> {
    Set::new(|path: Seq<char>| known.contains_key(path) && !is_seen(seen, path))
}

/// How a working tree differs from the last snapshot, each part in the order of the paths.
pub struct LocalStatus {
    pub modified: SortedSet<String>,
    pub created: SortedSet<String>,
    pub deleted: SortedSet<String>,
}

impl LocalStatus {
    /// Whether this is how `seen` differs from the head of `repo`.
    pub open spec fn describes(
        &self,
        repo: RepositoryView,
        seen: Seq<(Seq<char>, Option<Timestamp>)>,
    ) -> bool {
        let known = files_of(repo.objects, repo.head);
        &&& self.modified@.dom() == modified_paths(repo.objects, known, seen)
        &&& self.created@.dom() == created_paths(known, seen)
        &&& self.deleted@.dom() == deleted_paths(known, seen)
    }

    /// Whether there is nothing to say of any path.
    pub open spec fn says_nothing(&self) -> bool {
        self.modified@.dom() == Set::<Seq<char>>::empty() && self.created@.dom() == Set::<
            Seq<char>,
        >::empty() && self.deleted@.dom() == Set::<Seq<char>>::empty()
    }

    /// Whether nothing differs.
    pub fn is_clean(&self) -> (r: bool)
        ensures
            r == (self.modified@.dom() == Set::<Seq<char>>::empty() && self.created@.dom()
                == Set::<Seq<char>>::empty() && self.deleted@.dom() == Set::<Seq<char>>::empty()),
            r == self.says_nothing(),
    {
        let a = set_is_empty(&self.modified);
        let b = set_is_empty(&self.created);
        let c = set_is_empty(&self.deleted);
        a && b && c
    }
}

fn set_is_empty(s: &SortedSet<String>) -> (r: bool)
    ensures
        r == (s@.dom() == Set::<Seq<char>>::empty()),
{
    let r = s.is_empty();
    proof {
        if s@.dom() == Set::<Seq<char>>::empty() {
            assert(s@ =~= Map::<Seq<char>, ()>::empty());
        }
    }
    r
}

impl Repository {
    /// How the files that were found in the working tree differ from the head.
    pub fn local_status(&self, seen: &Vec<SeenFile>) -> (r: LocalStatus)
        ensures
            r.describes(self@, seen_views(seen@)),
    {
        let known = self.map_entries_for_snapshot(self.head);
        let ghost all = seen_views(seen@);
        let ghost files = known@;
        let ghost objects = self@.objects;
        let mut found: SortedSet<String> = SortedMap::new();
        let mut modified: SortedSet<String> = SortedMap::new();
        let mut created: SortedSet<String> = SortedMap::new();
        let mut i: usize = 0;
        proof {
            let none = all.take(0);
            assert(modified@.dom() =~= modified_paths(objects, files, none));
            assert(created@.dom() =~= created_paths(files, none));
        }
        while i < seen.len()
            invariant
                all == seen_views(seen@),
                files == known@,
                files == files_of(self@.objects, self@.head),
                objects == self@.objects,
                i <= seen@.len(),
                forall|p: Seq<char>| #[trigger]
                    found@.contains_key(p) <==> is_seen(all.take(i as int), p),
                modified@.dom() == modified_paths(objects, files, all.take(i as int)),
                created@.dom() == created_paths(files, all.take(i as int)),
            decreases seen@.len() - i,
        {
            let file = &seen[i];
            let path = normalize_path(file.path.as_str());
            let ghost before = all.take(i as int);
            let ghost after = all.take(i + 1);
            assert(after[i as int] == file@);
            assert forall|j: int| 0 <= j < i implies after[j] == before[j] by {}
            proof {
                lemma_seen_more(before, file@);
                assert(after =~= before.push(file@));
            }
            if !is_in_repo_dir(path.as_str()) {
                found.insert(path.duplicate(), ());
                match known.get(&path) {
                    Some(blob) => {
                        let time = self.blob_modified_time(*blob);
                        if time.is_some() && !same_time(&time, &file.modified_time) {
                            modified.insert(path, ());
                        }
                    },
                    None => {
                        created.insert(path, ());
                    },
                }
            }
            proof {
                lemma_modified_more(objects, files, before, file@);
                assert(created@.dom() =~= created_paths(files, after));
                assert(modified@.dom() =~= modified_paths(objects, files, after));
            }
            i += 1;
        }
        assert(all.take(i as int) =~= all);
        let mut deleted: SortedSet<String> = SortedMap::new();
        let n: usize = known.len();
        let ghost s = known.seq();
        let mut k: usize = 0;
        while k < n
            invariant
                n == s.len(),
                s == known.seq(),
                files == known@,
                k <= n,
                forall|p: Seq<char>| #[trigger] found@.contains_key(p) <==> is_seen(all, p),
                forall|p: Seq<char>| #[trigger]
                    deleted@.contains_key(p) ==> files.contains_key(p) && !is_seen(all, p),
                forall|j: int|
                    0 <= j < k && !is_seen(all, (#[trigger] s[j]).0) ==> deleted@.contains_key(
                        s[j].0,
                    ),
            decreases n - k,
        {
            let (path, _) = known.entry(k);
            if !found.contains_key(path) {
                deleted.insert(path.duplicate(), ());
            }
            k += 1;
        }
        proof {
            let goal = deleted_paths(files, all);
            assert forall|p: Seq<char>| goal.contains(p) implies #[trigger] deleted@.contains_key(
                p,
            ) by {
                let j = choose|j: int| 0 <= j < s.len() && (#[trigger] s[j]).0 == p;
                assert(s[j].0 == p);
            }
            assert(deleted@.dom() =~= goal);
        }
        LocalStatus { modified, created, deleted }
    }

    /// How the files that were found in the working tree differ from the head, with what has gone
    /// among what has changed.
    pub fn status(&self, seen: &Vec<SeenFile>) -> (r: WorkingStatus)
        ensures
            r.describes(self@, seen_views(seen@)),
    {
        let local = self.local_status(seen);
        let mut changed = local.modified;
        let ghost modified = changed@;
        let deleted = local.deleted;
        let n: usize = deleted.len();
        let ghost s = deleted.seq();
        let mut i: usize = 0;
        while i < n
            invariant
                n == s.len(),
                s == deleted.seq(),
                i <= n,
                forall|p: Seq<char>| #[trigger]
                    modified.contains_key(p) ==> changed@.contains_key(p),
                forall|p: Seq<char>| #[trigger]
                    changed@.contains_key(p) ==> modified.contains_key(p) || deleted@.contains_key(
                        p,
                    ),
                forall|j: int| 0 <= j < i ==> changed@.contains_key((#[trigger] s[j]).0),
            decreases n - i,
        {
            let (path, _) = deleted.entry(i);
            changed.insert(path.duplicate(), ());
            i += 1;
        }
        proof {
            assert forall|p: Seq<char>| deleted@.contains_key(p) implies #[trigger] changed@.contains_key(
                p,
            ) by {
                let j = choose|j: int| 0 <= j < s.len() && (#[trigger] s[j]).0 == p;
                assert(s[j].0 == p);
            }
            assert(changed@.dom() =~= modified.dom().union(deleted@.dom()));
        }
        WorkingStatus { changed, untracked: local.created }
    }
}

/// How a working tree differs from the last snapshot, in two parts.
pub struct WorkingStatus {
    pub changed: SortedSet<String>,
    pub untracked: SortedSet<String>,
}

/// The lines that list `paths`, each after `label`.
pub open spec fn listing(label: Seq<char>, paths: Map<Seq<char>, ()>) -> Seq<Seq<char>> {
    sorted_keys::<String, ()>(paths).map_values(|p: Seq<char>| label + p)
}

/// Appends the lines that list `paths`, each after `label`.
fn list_paths(out: &mut Vec<String>, label: &str, paths: &SortedSet<String>)
    ensures
        views(final(out)@) == views(old(out)@) + listing(label@, paths@),
{
    let n: usize = paths.len();
    let ghost s = paths.seq();
    let ghost lines = listing(label@, paths@);
    let mut i: usize = 0;
    assert(views(out@) =~= views(old(out)@) + lines.take(0));
    while i < n
        invariant
            n == s.len(),
            s == paths.seq(),
            s == sorted_entries::<String, ()>(paths@),
            lines == listing(label@, paths@),
            i <= n,
            views(out@) == views(old(out)@) + lines.take(i as int),
        decreases n - i,
    {
        let ghost before = views(out@);
        let (path, _) = paths.entry(i);
        let mut line = copy_str(label);
        line.append(path.as_str());
        out.push(line);
        assert(lines[i as int] == label@ + path@);
        assert(views(out@) =~= before.push(lines[i as int]));
        assert(views(out@) =~= views(old(out)@) + lines.take(i + 1));
        i += 1;
    }
    assert(lines.take(i as int) =~= lines);
}

impl WorkingStatus {
    /// Whether this is how `seen` differs from the head of `repo`.
    pub open spec fn describes(
        &self,
        repo: RepositoryView,
        seen: Seq<(Seq<char>, Option<Timestamp>)>,
    ) -> bool {
        let known = files_of(repo.objects, repo.head);
        &&& self.changed@.dom() == modified_paths(repo.objects, known, seen).union(
            deleted_paths(known, seen),
        )
        &&& self.untracked@.dom() == created_paths(known, seen)
    }

    /// What there is to say: a line for each path, or one that says that there is none.
    pub open spec fn told(&self) -> Seq<Seq<char>> {
        let lines = listing("changed: "@, self.changed@) + listing("untracked: "@, self.untracked@);
        if lines.len() == 0 {
            seq!["working tree clean"@]
        } else {
            lines
        }
    }

    /// What there is to say: a line for each path, or one that says that there is none.
    pub fn lines(&self) -> (r: Vec<String>)
        ensures
            views(r@) == self.told(),
    {
        let mut r: Vec<String> = Vec::new();
        list_paths(&mut r, "changed: ", &self.changed);
        list_paths(&mut r, "untracked: ", &self.untracked);
        let ghost lines = listing("changed: "@, self.changed@) + listing(
            "untracked: "@,
            self.untracked@,
        );
        assert(views(r@) =~= lines);
        if r.len() == 0 {
            r.push(copy_str("working tree clean"));
            assert(views(r@) =~= seq!["working tree clean"@]);
        } else {
            assert(views(r@).len() == r@.len());
        }
        r
    }
}

proof fn lemma_seen_more(
    seen: Seq<(Seq<char>, Option<Timestamp>)>,
    file: (Seq<char>, Option<Timestamp>),
)
    ensures
        forall|p: Seq<char>| #[trigger]
            is_seen(seen.push(file), p) <==> is_seen(seen, p) || stands_at_path(file, p),
{
    let more = seen.push(file);
    assert forall|p: Seq<char>| #[trigger] is_seen(more, p) <==> is_seen(seen, p)
        || stands_at_path(file, p) by {
        if is_seen(seen, p) {
            let i = choose|i: int| 0 <= i < seen.len() && stands_at_path(#[trigger] seen[i], p);
            assert(more[i] == seen[i]);
        }
        if stands_at_path(file, p) {
            assert(more[seen.len() as int] == file);
        }
        if is_seen(more, p) && !stands_at_path(file, p) {
            let i = choose|i: int| 0 <= i < more.len() && stands_at_path(#[trigger] more[i], p);
            assert(seen[i] == more[i]);
        }
    }
}

proof fn lemma_modified_more(
    objects: Objects,
    known: Files,
    seen: Seq<(Seq<char>, Option<Timestamp>)>,
    file: (Seq<char>, Option<Timestamp>),
)
    ensures
        forall|p: Seq<char>| #[trigger]
            modified_paths(objects, known, seen.push(file)).contains(p) <==> {
                ||| modified_paths(objects, known, seen).contains(p)
                ||| known.contains_key(p) && stands_at_path(file, p) && time_differs(
                    objects,
                    known[p],
                    file.1,
                )
            },
{
    let more = seen.push(file);
    assert forall|p: Seq<char>| #[trigger]
        modified_paths(objects, known, more).contains(p) <==> {
            ||| modified_paths(objects, known, seen).contains(p)
            ||| known.contains_key(p) && stands_at_path(file, p) && time_differs(
                objects,
                known[p],
                file.1,
            )
        } by {
        if modified_paths(objects, known, seen).contains(p) {
            let i = choose|i: int|
                0 <= i < seen.len() && stands_at_path(#[trigger] seen[i], p) && time_differs(
                    objects,
                    known[p],
                    seen[i].1,
                );
            assert(more[i] == seen[i]);
        }
        assert(more[seen.len() as int] == file);
        if modified_paths(objects, known, more).contains(p) {
            let i = choose|i: int|
                0 <= i < more.len() && stands_at_path(#[trigger] more[i], p) && time_differs(
                    objects,
                    known[p],
                    more[i].1,
                );
            if i < seen.len() {
                assert(seen[i] == more[i]);
            }
        }
    }
}

/// Nothing differs where just the files of the head were found, each with the time of change that
/// the head knows, or of which it knows none.
pub proof fn law_snapshot_is_clean(
    repo: RepositoryView,
    seen: Seq<(Seq<char>, Option<Timestamp>)>,
)
    requires
        ({
            let known = files_of(repo.objects, repo.head);
            &&& forall|i: int|
                0 <= i < seen.len() && !in_repo_dir(normalized((#[trigger] seen[i]).0)) ==> {
                    &&& known.contains_key(normalized(seen[i].0))
                    &&& !time_differs(repo.objects, known[normalized(seen[i].0)], seen[i].1)
                }
            &&& forall|path: Seq<char>| #[trigger]
                known.contains_key(path) ==> is_seen(seen, path)
        }),
    ensures
        ({
            let known = files_of(repo.objects, repo.head);
            &&& modified_paths(repo.objects, known, seen) == Set::<Seq<char>>::empty()
            &&& created_paths(known, seen) == Set::<Seq<char>>::empty()
            &&& deleted_paths(known, seen) == Set::<Seq<char>>::empty()
        }),
{
    let known = files_of(repo.objects, repo.head);
    assert(modified_paths(repo.objects, known, seen) =~= Set::<Seq<char>>::empty());
    assert(created_paths(known, seen) =~= Set::<Seq<char>>::empty());
    assert(deleted_paths(known, seen) =~= Set::<Seq<char>>::empty());
}

/// No path is in two of the three parts. A path of the head has gone exactly where no file was found
/// at it, and a path at which a file was found is new exactly where the head does not have it.
pub proof fn law_status_parts(
    repo: RepositoryView,
    seen: Seq<(Seq<char>, Option<Timestamp>)>,
    path: Seq<char>,
)
    ensures
        ({
            let known = files_of(repo.objects, repo.head);
            let modified = modified_paths(repo.objects, known, seen).contains(path);
            let created = created_paths(known, seen).contains(path);
            let deleted = deleted_paths(known, seen).contains(path);
            &&& !(modified && created) && !(modified && deleted) && !(created && deleted)
            &&& known.contains_key(path) ==> (deleted <==> !is_seen(seen, path))
            &&& is_seen(seen, path) ==> (created <==> !known.contains_key(path))
        }),
{
}

/// Whether a file was found at a path: one whose path has this normal form, unless the first component
/// that its path resolves to is `.scup`. However deep the path leads makes no difference.
pub proof fn law_each_file_found_is_seen(
    seen: Seq<(Seq<char>, Option<Timestamp>)>,
    path: Seq<char>,
)
    ensures
        is_seen(seen, path) <==> exists|i: int|
            0 <= i < seen.len() && normalized((#[trigger] seen[i]).0) == path && !(resolved(
                components_of(seen[i].0),
            ).len() > 0 && resolved(components_of(seen[i].0))[0] == ".scup"@),
{
    assert forall|i: int| 0 <= i < seen.len() implies stands_at_path(#[trigger] seen[i], path) == (
    normalized(seen[i].0) == path && !(resolved(components_of(seen[i].0)).len() > 0 && resolved(
        components_of(seen[i].0),
    )[0] == ".scup"@)) by {
        law_own_files_are_below_the_repo_dir(seen[i].0);
    }
    if is_seen(seen, path) {
        let i = choose|i: int| 0 <= i < seen.len() && stands_at_path(#[trigger] seen[i], path);
        assert(normalized(seen[i].0) == path);
    }
    if exists|i: int|
        0 <= i < seen.len() && normalized((#[trigger] seen[i]).0) == path && !(resolved(
            components_of(seen[i].0),
        ).len() > 0 && resolved(components_of(seen[i].0))[0] == ".scup"@) {
        let i = choose|i: int|
            0 <= i < seen.len() && normalized((#[trigger] seen[i]).0) == path && !(resolved(
                components_of(seen[i].0),
            ).len() > 0 && resolved(components_of(seen[i].0))[0] == ".scup"@);
        assert(stands_at_path(seen[i], path));
    }
}

/// What a status tells of a path, by the files that were found at it and what the head holds: a file
/// that the head does not have is new, a path of the head without a file has gone, and a file of
/// which the head knows another time of change is modified. `found` is the place of one file that was
/// found.
pub proof fn law_status_tells_of_found_files(
    status: LocalStatus,
    repo: RepositoryView,
    seen: Seq<(Seq<char>, Option<Timestamp>)>,
    found: int,
)
    requires
        status.describes(repo, seen),
        0 <= found < seen.len(),
        !(resolved(components_of(seen[found].0)).len() > 0 && resolved(
            components_of(seen[found].0),
        )[0] == ".scup"@),
    ensures
        ({
            let path = normalized(seen[found].0);
            let known = files_of(repo.objects, repo.head);
            let blob = known[path];
            &&& status.created@.contains_key(path) <==> !known.contains_key(path)
            &&& !status.deleted@.contains_key(path)
            &&& known.contains_key(path) && repo.objects.contains_key(blob)
                && repo.objects[blob] is Blob && repo.objects[blob]->Blob_0.modified_time is Some
                && repo.objects[blob]->Blob_0.modified_time != seen[found].1
                ==> status.modified@.contains_key(path)
        }),
{
    let path = normalized(seen[found].0);
    let known = files_of(repo.objects, repo.head);
    law_own_files_are_below_the_repo_dir(seen[found].0);
    assert(stands_at_path(seen[found], path));
    assert(is_seen(seen, path));
    assert(status.created@.dom().contains(path) <==> created_paths(known, seen).contains(path));
    assert(status.deleted@.dom().contains(path) <==> deleted_paths(known, seen).contains(path));
    assert(status.modified@.dom().contains(path) <==> modified_paths(
        repo.objects,
        known,
        seen,
    ).contains(path));
}

/// Each path of which a status tells something is one at which there is something to tell: a new or a
/// modified one has a file that was found, a modified one another time of change in the head, and one
/// that has gone is one of the head at which no file was found.
pub proof fn law_status_tells_no_more(
    status: LocalStatus,
    repo: RepositoryView,
    seen: Seq<(Seq<char>, Option<Timestamp>)>,
    path: Seq<char>,
)
    requires
        status.describes(repo, seen),
    ensures
        ({
            let known = files_of(repo.objects, repo.head);
            let blob = known[path];
            &&& status.created@.contains_key(path) ==> !known.contains_key(path) && exists|i: int|
                0 <= i < seen.len() && normalized((#[trigger] seen[i]).0) == path
            &&& status.modified@.contains_key(path) ==> {
                &&& known.contains_key(path)
                &&& repo.objects.contains_key(blob)
                &&& repo.objects[blob] is Blob
                &&& repo.objects[blob]->Blob_0.modified_time is Some
                &&& exists|i: int|
                    0 <= i < seen.len() && normalized((#[trigger] seen[i]).0) == path && seen[i].1
                        != repo.objects[blob]->Blob_0.modified_time
            }
            &&& status.created@.contains_key(path) || status.modified@.contains_key(path)
                ==> path != ".scup"@ && !exists|rest: Seq<char>|
                path == #[trigger] (".scup/"@ + rest)
            &&& status.deleted@.contains_key(path) <==> known.contains_key(path) && forall|i: int|
                0 <= i < seen.len() && normalized((#[trigger] seen[i]).0) == path ==> resolved(
                    components_of(seen[i].0),
                ).len() > 0 && resolved(components_of(seen[i].0))[0] == ".scup"@
        }),
{
    let known = files_of(repo.objects, repo.head);
    assert(status.created@.dom().contains(path) <==> created_paths(known, seen).contains(path));
    assert(status.deleted@.dom().contains(path) <==> deleted_paths(known, seen).contains(path));
    assert(status.modified@.dom().contains(path) <==> modified_paths(
        repo.objects,
        known,
        seen,
    ).contains(path));
    law_each_file_found_is_seen(seen, path);
    law_parts_of_texts(path, ".scup/"@);
    if status.created@.contains_key(path) {
        let i = choose|i: int| 0 <= i < seen.len() && stands_at_path(#[trigger] seen[i], path);
        assert(normalized(seen[i].0) == path);
    }
    if status.modified@.contains_key(path) {
        let i = choose|i: int|
            0 <= i < seen.len() && stands_at_path(#[trigger] seen[i], path) && time_differs(
                repo.objects,
                known[path],
                seen[i].1,
            );
        assert(normalized(seen[i].0) == path);
    }
}

/// A status in two parts tells of the same paths as one in three, with what has gone among what has
/// changed.
pub proof fn law_status_in_two_parts(
    two: WorkingStatus,
    three: LocalStatus,
    repo: RepositoryView,
    seen: Seq<(Seq<char>, Option<Timestamp>)>,
    path: Seq<char>,
)
    requires
        two.describes(repo, seen),
        three.describes(repo, seen),
    ensures
        two.changed@.contains_key(path) <==> three.modified@.contains_key(path)
            || three.deleted@.contains_key(path),
        two.untracked@.contains_key(path) <==> three.created@.contains_key(path),
{
    assert(two.changed@.dom().contains(path) <==> three.modified@.dom().contains(path)
        || three.deleted@.dom().contains(path));
    assert(two.untracked@.dom().contains(path) <==> three.created@.dom().contains(path));
}

/// The lines of a status: one for each path, those of changed files first, each part in the order of
/// the paths, or just one where there is none.
pub proof fn law_lines_of_a_status(status: WorkingStatus)
    requires
        status.changed@.dom().finite(),
        status.untracked@.dom().finite(),
    ensures
        ({
            let changed = sorted_keys::<String, ()>(status.changed@);
            let untracked = sorted_keys::<String, ()>(status.untracked@);
            let lines = status.told();
            &&& changed.len() == status.changed@.dom().len()
            &&& untracked.len() == status.untracked@.dom().len()
            &&& changed.len() + untracked.len() == 0 ==> lines == seq!["working tree clean"@]
            &&& changed.len() + untracked.len() > 0 ==> lines.len() == changed.len()
                + untracked.len()
            &&& forall|i: int|
                0 <= i < changed.len() ==> #[trigger] lines[i] == "changed: "@ + changed[i]
            &&& forall|i: int|
                0 <= i < untracked.len() ==> lines[changed.len() + i] == "untracked: "@
                    + #[trigger] untracked[i]
        }),
{
    law_entries_are_in_order::<String, ()>(status.changed@);
    law_entries_are_in_order::<String, ()>(status.untracked@);
}

/// What is said of files that were found is said of all that is known of them, one by one.
pub proof fn law_found_files_are_told_in_full(files: Seq<SeenFile>, i: int)
    requires
        0 <= i < files.len(),
    ensures
        seen_views(files).len() == files.len(),
        seen_views(files)[i].0 == files[i].path@,
        seen_views(files)[i].1 == files[i].modified_time,
{
}

/// A working tree is clean exactly where no path is modified, new or gone.
pub proof fn law_clean_means_that_nothing_differs(status: LocalStatus)
    ensures
        status.says_nothing() <==> forall|path: Seq<char>|
            !(#[trigger] status.modified@.contains_key(path)) && !status.created@.contains_key(path)
                && !status.deleted@.contains_key(path),
{
    if forall|path: Seq<char>|
        !(#[trigger] status.modified@.contains_key(path)) && !status.created@.contains_key(path)
            && !status.deleted@.contains_key(path) {
        assert forall|path: Seq<char>| !status.created@.dom().contains(path) by {
            assert(!status.modified@.contains_key(path));
        }
        assert forall|path: Seq<char>| !status.deleted@.dom().contains(path) by {
            assert(!status.modified@.contains_key(path));
        }
        assert(status.modified@.dom() =~= Set::<Seq<char>>::empty());
        assert(status.created@.dom() =~= Set::<Seq<char>>::empty());
        assert(status.deleted@.dom() =~= Set::<Seq<char>>::empty());
    }
    if status.says_nothing() {
        assert forall|path: Seq<char>|
            !(#[trigger] status.modified@.contains_key(path)) && !status.created@.contains_key(path)
                && !status.deleted@.contains_key(path) by {
            assert(!status.modified@.dom().contains(path));
            assert(!status.created@.dom().contains(path));
            assert(!status.deleted@.dom().contains(path));
        }
    }
}

} // verus!

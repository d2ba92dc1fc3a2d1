//! Paths of files in a working tree.

use crate::storage::{REPO_DIR_NAME, REPO_DIR_PREFIX};
use crate::text::{
    has_prefix, join, joined, lemma_split_joined, lemma_split_nonempty, same_text, split_on,
    starts_with, views,
};
use relative_path::RelativePath;
use vstd::prelude::*;

verus! {

/// Those of `pieces` that are not empty.
pub open spec fn nonempty(pieces: Seq<Seq<char>>) -> Seq<Seq<char>>
    decreases pieces.len(),
{
    if pieces.len() == 0 {
        pieces
    } else {
        let front = nonempty(pieces.drop_last());
        if pieces.last().len() == 0 {
            front
        } else {
            front.push(pieces.last())
        }
    }
}

/// The components of a path: what stands between slashes, but for nothing at all.
pub open spec fn components_of(path: Seq<char>) -> Seq<Seq<char>> {
    nonempty(split_on(path, '/'))
}

/// `components` without `.`, and with each `..` undone by the name before it where there is one.
pub open spec fn resolved(components: Seq<Seq<char>>) -> Seq<Seq<char>>
    decreases components.len(),
{
    if components.len() == 0 {
        components
    } else {
        let front = resolved(components.drop_last());
        let last = components.last();
        if last == "."@ {
            front
        } else if last == ".."@ && front.len() > 0 && front.last() != ".."@ {
            front.drop_last()
        } else {
            front.push(last)
        }
    }
}

/// The normal form of a path.
pub open spec fn normalized(path: Seq<char>) -> Seq<char> {
    joined(resolved(components_of(path)), "/"@)
}

/// Whether a path in normal form is that of the directory in which the repository keeps its files,
/// or leads into it.
pub open spec fn in_repo_dir(path: Seq<char>) -> bool {
    path == REPO_DIR_NAME@ || has_prefix(path, REPO_DIR_PREFIX@)
}

/// The normal form of `raw`, if it is a path inside the working tree and outside the directory in
/// which the repository keeps its files.
pub open spec fn repo_path(raw: Seq<char>) -> Option<Seq<char>> {
    let path = normalized(raw);
    if path.len() == 0 || path == "."@ || components_of(path).contains(".."@)
        || in_repo_dir(path) {
        None
    } else {
        Some(path)
    }
}

/// `relative_path::RelativePath::components` gives what stands between the slashes of a path, one
/// after the other, and leaves out what is empty; `relative_path::Component::as_str` gives the
/// text of one.
#[verifier::external_body]
fn path_components(path: &str) -> (r: Vec<String>)
    ensures
        views(r@) == components_of(path@),
{
    RelativePath::new(path).components().map(|c| c.as_str().to_string()).collect()
}

/// `relative_path::RelativePath::normalize` goes through the components of a path: it passes over
/// each `.`, takes back the name before a `..` unless there is none or that is `..` itself, and
/// puts a slash between those that are left.
#[verifier::external_body]
pub(crate) fn normalize_path(path: &str) -> (r: String)
    ensures
        r@ == normalized(path@),
{
    RelativePath::new(path).normalize().into_string()
}

/// Whether one of `components` is `..`.
pub fn has_parent_dir(components: &Vec<String>) -> (r: bool)
    ensures
        r == views(components@).contains(".."@),
{
    let ghost all = views(components@);
    let mut i: usize = 0;
    while i < components.len()
        invariant
            all == views(components@),
            i <= components@.len(),
            forall|j: int| 0 <= j < i ==> all[j] != ".."@,
        decreases components@.len() - i,
    {
        if same_text(components[i].as_str(), "..") {
            assert(all[i as int] == ".."@);
            return true;
        }
        i += 1;
    }
    false
}

/// Whether a path in normal form is that of the directory in which the repository keeps its files,
/// or leads into it.
pub fn is_in_repo_dir(path: &str) -> (r: bool)
    ensures
        r == in_repo_dir(path@),
{
    same_text(path, REPO_DIR_NAME) || starts_with(path, REPO_DIR_PREFIX)
}

/// The normal form of `raw_path`, if a file may be written or removed there.
pub fn normalized_repo_path(raw_path: &str) -> (r: Option<String>)
    ensures
        r is Some <==> repo_path(raw_path@) is Some,
        r matches Some(path) ==> repo_path(raw_path@) == Some(path@),
{
    let path = normalize_path(raw_path);
    if same_text(path.as_str(), "") || same_text(path.as_str(), ".") {
        proof {
            reveal_strlit("");
        }
        return None;
    }
    proof {
        reveal_strlit("");
        if path@.len() == 0 {
            assert(path@ =~= ""@);
        }
    }
    if has_parent_dir(&path_components(path.as_str())) || is_in_repo_dir(path.as_str()) {
        return None;
    }
    Some(path)
}

/// The directories above a path, the nearest first, down from the working tree, which is left out.
pub open spec fn dirs_above(path: Seq<char>) -> Seq<Seq<char>> {
    let all = components_of(path);
    Seq::new(
        if all.len() == 0 {
            0
        } else {
            (all.len() - 1) as nat
        },
        |i: int| joined(all.take(all.len() - 1 - i), "/"@),
    )
}

/// The directories above a path that may have become empty, the nearest first.
pub fn parent_dirs(rel_path: &str) -> (r: Vec<String>)
    ensures
        views(r@) == dirs_above(rel_path@),
{
    let mut parts = path_components(rel_path);
    let ghost all = components_of(rel_path@);
    let mut r: Vec<String> = Vec::new();
    let ghost goal = dirs_above(rel_path@);
    assert(views(r@) =~= goal.take(0));
    assert(views(parts@).len() == parts@.len());
    assert(views(parts@) =~= all.take(all.len() as int));
    while parts.len() > 1
        invariant
            all == components_of(rel_path@),
            goal == dirs_above(rel_path@),
            parts@.len() + r@.len() == all.len(),
            all.len() > 0 ==> parts@.len() > 0,
            views(parts@) == all.take(parts@.len() as int),
            views(r@) == goal.take(r@.len() as int),
        decreases parts@.len(),
    {
        let ghost before = parts@;
        let ghost done = r@;
        parts.pop();
        assert(views(parts@) =~= views(before).drop_last());
        assert(views(parts@) =~= all.take(parts@.len() as int));
        r.push(join(parts.as_slice(), "/"));
        assert(goal[done.len() as int] == joined(all.take(parts@.len() as int), "/"@));
        assert(views(r@) =~= views(done).push(goal[done.len() as int]));
        assert(views(r@) =~= goal.take(r@.len() as int));
    }
    assert(goal.take(r@.len() as int) =~= goal);
    r
}

/// How the removal of a directory ended.
#[derive(Clone, Copy, Debug, PartialEq, Eq, Structural)]
pub enum DirRemoval {
    Removed,
    NotFound,
    NotEmpty,
    Failed,
}

/// Whether the directory is not there any more.
pub open spec fn has_gone(outcome: DirRemoval) -> bool {
    match outcome {
        DirRemoval::Removed | DirRemoval::NotFound => true,
        DirRemoval::NotEmpty | DirRemoval::Failed => false,
    }
}

/// Whether the directory above is to be removed next: not where one stayed.
pub fn removal_goes_on(outcome: DirRemoval) -> (r: bool)
    ensures
        r == (outcome is Removed || outcome is NotFound),
        r == has_gone(outcome),
{
    match outcome {
        DirRemoval::Removed => true,
        DirRemoval::NotFound => true,
        DirRemoval::NotEmpty => false,
        DirRemoval::Failed => false,
    }
}

/// Whether `s` is a name: not empty and without slashes.
pub open spec fn is_name(s: Seq<char>) -> bool {
    s.len() > 0 && !s.contains('/')
}

proof fn lemma_split_pieces(s: Seq<char>)
    ensures
        forall|i: int|
            0 <= i < split_on(s, '/').len() ==> !(#[trigger] split_on(s, '/')[i]).contains('/'),
    decreases s.len(),
{
    if s.len() > 0 {
        lemma_split_pieces(s.drop_last());
        lemma_split_nonempty(s.drop_last(), '/');
        let parts = split_on(s.drop_last(), '/');
        let all = split_on(s, '/');
        assert forall|i: int| 0 <= i < all.len() implies !(#[trigger] all[i]).contains('/') by {
            if i < all.len() - 1 {
                assert(all[i] == parts[i]);
            } else if s.last() != '/' {
                let last = parts[parts.len() - 1];
                assert(!last.contains('/'));
                assert(all[i] == last.push(s.last()));
                assert forall|k: int| 0 <= k < all[i].len() implies all[i][k] != '/' by {
                    if k < last.len() {
                        assert(last[k] == all[i][k]);
                        assert(last.contains(last[k]));
                    }
                }
            }
        }
    }
}

proof fn lemma_nonempty_pieces(pieces: Seq<Seq<char>>)
    requires
        forall|i: int| 0 <= i < pieces.len() ==> !(#[trigger] pieces[i]).contains('/'),
    ensures
        forall|i: int| 0 <= i < nonempty(pieces).len() ==> is_name(#[trigger] nonempty(pieces)[i]),
    decreases pieces.len(),
{
    if pieces.len() > 0 {
        let front = pieces.drop_last();
        assert forall|i: int| 0 <= i < front.len() implies !(#[trigger] front[i]).contains('/') by {
            assert(front[i] == pieces[i]);
        }
        lemma_nonempty_pieces(front);
        assert(pieces[pieces.len() - 1] == pieces.last());
        let all = nonempty(pieces);
        assert forall|i: int| 0 <= i < all.len() implies is_name(#[trigger] all[i]) by {
            if i < nonempty(front).len() {
                assert(all[i] == nonempty(front)[i]);
            }
        }
    }
}

/// The components of a path are names.
proof fn lemma_components_are_names(path: Seq<char>)
    ensures
        forall|i: int|
            0 <= i < components_of(path).len() ==> is_name(#[trigger] components_of(path)[i]),
{
    lemma_split_pieces(path);
    lemma_nonempty_pieces(split_on(path, '/'));
}

proof fn lemma_resolved_names(components: Seq<Seq<char>>)
    requires
        forall|i: int| 0 <= i < components.len() ==> is_name(#[trigger] components[i]),
    ensures
        forall|i: int|
            0 <= i < resolved(components).len() ==> is_name(#[trigger] resolved(components)[i])
                && resolved(components)[i] != "."@,
    decreases components.len(),
{
    if components.len() > 0 {
        let front = components.drop_last();
        assert forall|i: int| 0 <= i < front.len() implies is_name(#[trigger] front[i]) by {
            assert(front[i] == components[i]);
        }
        lemma_resolved_names(front);
        assert(components[components.len() - 1] == components.last());
        let all = resolved(components);
        assert forall|i: int| 0 <= i < all.len() implies is_name(#[trigger] all[i]) && all[i]
            != "."@ by {
            if i < resolved(front).len() {
                assert(all[i] == resolved(front)[i]);
            }
        }
    }
}

/// Names with slashes between them have these names as components.
proof fn lemma_components_of_joined(names: Seq<Seq<char>>)
    requires
        forall|i: int| 0 <= i < names.len() ==> is_name(#[trigger] names[i]),
    ensures
        components_of(joined(names, "/"@)) == names,
{
    reveal_strlit("/");
    assert("/"@ =~= seq!['/']);
    if names.len() == 0 {
        let pieces = split_on(joined(names, "/"@), '/');
        assert(pieces.drop_last() =~= Seq::<Seq<char>>::empty());
        assert(nonempty(pieces.drop_last()) =~= names);
    } else {
        lemma_split_joined(names, '/');
        lemma_nonempty_of_names(names);
    }
}

proof fn lemma_nonempty_of_names(names: Seq<Seq<char>>)
    requires
        forall|i: int| 0 <= i < names.len() ==> is_name(#[trigger] names[i]),
    ensures
        nonempty(names) == names,
    decreases names.len(),
{
    if names.len() > 0 {
        let front = names.drop_last();
        assert forall|i: int| 0 <= i < front.len() implies is_name(#[trigger] front[i]) by {
            assert(front[i] == names[i]);
        }
        lemma_nonempty_of_names(front);
        assert(names[names.len() - 1] == names.last());
        assert(front.push(names.last()) =~= names);
    }
}

/// The components of a normal form are what its path resolves to.
pub proof fn law_components_of_normalized(path: Seq<char>)
    ensures
        components_of(normalized(path)) == resolved(components_of(path)),
{
    lemma_components_are_names(path);
    lemma_resolved_names(components_of(path));
    lemma_components_of_joined(resolved(components_of(path)));
}

proof fn lemma_resolved_of_plain(names: Seq<Seq<char>>)
    requires
        forall|i: int|
            0 <= i < names.len() ==> #[trigger] names[i] != "."@ && names[i] != ".."@,
    ensures
        resolved(names) == names,
    decreases names.len(),
{
    if names.len() > 0 {
        let front = names.drop_last();
        assert forall|i: int| 0 <= i < front.len() implies #[trigger] front[i] != "."@ && front[i]
            != ".."@ by {
            assert(front[i] == names[i]);
        }
        lemma_resolved_of_plain(front);
        assert(names[names.len() - 1] == names.last());
        assert(front.push(names.last()) =~= names);
    }
}

/// A path at which a file may be written stays inside the working tree: it has components, none of
/// them is empty, `.` or `..`, and the first is not the directory in which the repository keeps its
/// files.
pub proof fn law_repo_path_stays_inside(raw: Seq<char>)
    requires
        repo_path(raw) is Some,
    ensures
        ({
            let all = components_of(repo_path(raw)->0);
            &&& all.len() > 0
            &&& all[0] != REPO_DIR_NAME@
            &&& forall|i: int|
                0 <= i < all.len() ==> is_name(#[trigger] all[i]) && all[i] != "."@ && all[i]
                    != ".."@
        }),
{
    let path = repo_path(raw)->0;
    let all = components_of(path);
    law_components_of_normalized(raw);
    lemma_components_are_names(raw);
    lemma_resolved_names(components_of(raw));
    if all.len() == 0 {
        assert(path =~= Seq::<char>::empty());
    }
    if all[0] == REPO_DIR_NAME@ {
        lemma_joined_prefix(all);
        reveal_strlit("/");
        reveal_strlit(".scup");
        reveal_strlit(".scup/");
        assert(REPO_DIR_PREFIX@ =~= REPO_DIR_NAME@ + "/"@);
    }
    assert forall|i: int| 0 <= i < all.len() implies is_name(#[trigger] all[i]) && all[i] != "."@
        && all[i] != ".."@ by {
        if all[i] == ".."@ {
            assert(all.contains(".."@));
        }
    }
}

proof fn lemma_joined_prefix(names: Seq<Seq<char>>)
    requires
        names.len() > 0,
    ensures
        names.len() == 1 ==> joined(names, "/"@) == names[0],
        names.len() > 1 ==> has_prefix(joined(names, "/"@), names[0] + "/"@),
    decreases names.len(),
{
    if names.len() > 1 {
        let front = names.drop_last();
        lemma_joined_prefix(front);
        let p = names[0] + "/"@;
        let all = joined(names, "/"@);
        if names.len() == 2 {
            assert(all.take(p.len() as int) =~= p);
        } else {
            assert(all.take(p.len() as int) =~= joined(front, "/"@).take(p.len() as int));
        }
    }
}

/// The path at which a file is written is in normal form already.
pub proof fn law_repo_path_is_normal(raw: Seq<char>)
    requires
        repo_path(raw) is Some,
    ensures
        repo_path(repo_path(raw)->0) == repo_path(raw),
{
    let path = repo_path(raw)->0;
    law_repo_path_stays_inside(raw);
    law_components_of_normalized(raw);
    lemma_resolved_of_plain(components_of(path));
}

proof fn lemma_split_around(a: Seq<char>, b: Seq<char>)
    ensures
        split_on(a + seq!['/'] + b, '/') == split_on(a, '/') + split_on(b, '/'),
    decreases b.len(),
{
    let all = a + seq!['/'] + b;
    lemma_split_nonempty(b, '/');
    if b.len() == 0 {
        assert(all.drop_last() =~= a);
        assert(b =~= Seq::<char>::empty());
        assert(split_on(all, '/') =~= split_on(a, '/') + split_on(b, '/'));
    } else {
        let front = b.drop_last();
        lemma_split_around(a, front);
        lemma_split_nonempty(front, '/');
        assert(all.drop_last() =~= a + seq!['/'] + front);
        assert(split_on(all, '/') =~= split_on(a, '/') + split_on(b, '/'));
    }
}

proof fn lemma_nonempty_of_both(x: Seq<Seq<char>>, y: Seq<Seq<char>>)
    ensures
        nonempty(x + y) == nonempty(x) + nonempty(y),
    decreases y.len(),
{
    if y.len() == 0 {
        assert(x + y =~= x);
        assert(nonempty(x) + nonempty(y) =~= nonempty(x));
    } else {
        lemma_nonempty_of_both(x, y.drop_last());
        assert((x + y).drop_last() =~= x + y.drop_last());
        assert(nonempty(x + y) =~= nonempty(x) + nonempty(y));
    }
}

/// The components of two paths with a slash between them are those of the one and then those of the
/// other.
pub proof fn law_components_around_a_slash(a: Seq<char>, b: Seq<char>)
    ensures
        components_of(a + seq!['/'] + b) == components_of(a) + components_of(b),
{
    lemma_split_around(a, b);
    lemma_nonempty_of_both(split_on(a, '/'), split_on(b, '/'));
}

proof fn lemma_one_name(name: Seq<char>)
    requires
        is_name(name),
    ensures
        components_of(name) == seq![name],
{
    lemma_components_of_joined(seq![name]);
}

proof fn lemma_repo_dir_is_a_name()
    ensures
        is_name(".scup"@),
        is_name("."@),
        is_name(".."@),
        ".scup"@ != "."@,
        ".scup"@ != ".."@,
        "."@ != ".."@,
        ".scup/"@ == ".scup"@ + seq!['/'],
        "/"@ == seq!['/'],
{
    reveal_strlit(".scup");
    reveal_strlit(".");
    reveal_strlit("..");
    reveal_strlit(".scup/");
    reveal_strlit("/");
    assert(".scup/"@ =~= ".scup"@ + seq!['/']);
    assert("/"@ =~= seq!['/']);
    assert(".scup"@.len() != "."@.len());
    assert(".scup"@.len() != ".."@.len());
    assert("."@.len() != ".."@.len());
}

/// A path is one of the repository's own files exactly where the first component that it resolves to
/// is the directory `.scup`.
pub proof fn law_own_files_are_below_the_repo_dir(raw: Seq<char>)
    ensures
        in_repo_dir(normalized(raw)) <==> resolved(components_of(raw)).len() > 0 && resolved(
            components_of(raw),
        )[0] == ".scup"@,
{
    let all = resolved(components_of(raw));
    let path = normalized(raw);
    law_components_of_normalized(raw);
    lemma_repo_dir_is_a_name();
    if all.len() > 0 && all[0] == ".scup"@ {
        lemma_joined_prefix(all);
    }
    if path == ".scup"@ {
        lemma_one_name(".scup"@);
    } else if has_prefix(path, ".scup/"@) {
        let rest = path.skip(6);
        assert(".scup/"@.len() == 6) by {
            reveal_strlit(".scup/");
        }
        assert(path =~= ".scup"@ + seq!['/'] + rest);
        law_components_around_a_slash(".scup"@, rest);
        lemma_one_name(".scup"@);
    }
}

/// A file may be written at each path that leads to a file inside the working tree, and at no other:
/// the components that the path resolves to are at least one, none of them is `..`, and the first is
/// not `.scup`. It is written at its normal form.
pub proof fn law_files_are_written_inside(raw: Seq<char>)
    ensures
        ({
            let all = resolved(components_of(raw));
            &&& all.len() > 0 && !all.contains(".."@) && all[0] != ".scup"@ <==> repo_path(
                raw,
            ) is Some
            &&& repo_path(raw) is Some ==> repo_path(raw)->0 == joined(all, "/"@)
        }),
{
    let all = resolved(components_of(raw));
    let path = normalized(raw);
    law_components_of_normalized(raw);
    law_own_files_are_below_the_repo_dir(raw);
    lemma_components_are_names(raw);
    lemma_resolved_names(components_of(raw));
    lemma_repo_dir_is_a_name();
    if path.len() == 0 {
        let none = Seq::<Seq<char>>::empty();
        lemma_components_of_joined(none);
        assert(joined(none, "/"@) =~= path);
    }
    if path == "."@ {
        lemma_one_name("."@);
        assert(all[0] == "."@);
    }
}

/// Names with slashes between them are a path at which a file may be written, with or without `./`
/// before it, if none of them is `.` or `..` and the first is not `.scup`: whatever else they hold.
pub proof fn law_plain_names_are_written(names: Seq<Seq<char>>)
    requires
        names.len() > 0,
        names[0] != ".scup"@,
        forall|i: int|
            0 <= i < names.len() ==> (#[trigger] names[i]).len() > 0 && !names[i].contains('/')
                && names[i] != "."@ && names[i] != ".."@,
    ensures
        repo_path(joined(names, "/"@)) == Some(joined(names, "/"@)),
        repo_path("./"@ + joined(names, "/"@)) == Some(joined(names, "/"@)),
        normalized(joined(names, "/"@)) == joined(names, "/"@),
        normalized("./"@ + joined(names, "/"@)) == joined(names, "/"@),
{
    let path = joined(names, "/"@);
    assert forall|i: int| 0 <= i < names.len() implies is_name(#[trigger] names[i]) by {}
    lemma_components_of_joined(names);
    lemma_resolved_of_plain(names);
    lemma_repo_dir_is_a_name();
    reveal_strlit("./");
    reveal_strlit(".");
    assert("./"@ + path =~= "."@ + seq!['/'] + path);
    law_components_around_a_slash("."@, path);
    lemma_one_name("."@);
    let dotted = seq!["."@] + names;
    lemma_resolved_after_dot(names);
    law_files_are_written_inside(path);
    law_files_are_written_inside("./"@ + path);
    assert(components_of("./"@ + path) == dotted);
}

proof fn lemma_resolved_after_dot(names: Seq<Seq<char>>)
    ensures
        resolved(seq!["."@] + names) == resolved(names),
    decreases names.len(),
{
    let all = seq!["."@] + names;
    if names.len() == 0 {
        let none = Seq::<Seq<char>>::empty();
        assert(all.drop_last() =~= none);
        assert(names =~= none);
        assert(all.last() == "."@);
        assert(resolved(none) == none);
    } else {
        lemma_resolved_after_dot(names.drop_last());
        assert(all.drop_last() =~= seq!["."@] + names.drop_last());
    }
}

/// The directory right above a file comes first, and then those above that one; a file at the top of
/// the working tree has none above it.
pub proof fn law_directories_above(names: Seq<Seq<char>>)
    requires
        names.len() > 0,
        forall|i: int|
            0 <= i < names.len() ==> (#[trigger] names[i]).len() > 0 && !names[i].contains('/'),
    ensures
        names.len() == 1 ==> dirs_above(joined(names, "/"@)) == Seq::<Seq<char>>::empty(),
        names.len() > 1 ==> dirs_above(joined(names, "/"@)) == seq![
            joined(names.drop_last(), "/"@),
        ] + dirs_above(joined(names.drop_last(), "/"@)),
{
    assert forall|i: int| 0 <= i < names.len() implies is_name(#[trigger] names[i]) by {}
    lemma_components_of_joined(names);
    let above = dirs_above(joined(names, "/"@));
    if names.len() == 1 {
        assert(above =~= Seq::<Seq<char>>::empty());
    } else {
        let front = names.drop_last();
        assert forall|i: int| 0 <= i < front.len() implies is_name(#[trigger] front[i]) by {
            assert(front[i] == names[i]);
        }
        lemma_components_of_joined(front);
        let rest = dirs_above(joined(front, "/"@));
        let goal = seq![joined(front, "/"@)] + rest;
        assert forall|i: int| 0 <= i < above.len() implies above[i] == goal[i] by {
            if i == 0 {
                assert(names.take(names.len() - 1) =~= front);
            } else {
                assert(names.take(names.len() - 1 - i) =~= front.take(front.len() - 1 - (i - 1)));
            }
        }
        assert(above =~= goal);
    }
}

/// The directory above is removed next just where the one below was removed or was not there.
pub proof fn law_removal_stops_where_a_directory_stays(outcome: DirRemoval)
    ensures
        has_gone(outcome) <==> outcome != DirRemoval::NotEmpty && outcome != DirRemoval::Failed,
{
}

} // verus!

use scup::fanout::build_fanout_list;
use scup::ids::list_object_id;
use scup::lists::{collect_chunk_ids, ListFault};
use scup::model::{Chunk, List, Object, ObjectId, Repository, RepositoryId};
use scup::rollsum::FAN_MASKS;
use scup::sorted_map::SortedMap;

fn empty() -> Repository {
    Repository {
        repo_uuid: RepositoryId([7; 32]),
        objects: SortedMap::new(),
        head: ObjectId::zero(),
    }
}

fn chunk(n: u32) -> ObjectId {
    let mut b = [0u8; 32];
    b[0] = 0xcc;
    b[28..32].copy_from_slice(&n.to_be_bytes());
    ObjectId(b)
}

fn with_leaves(leaves: &[(ObjectId, u64)]) -> Repository {
    let mut repo = empty();
    for (id, _) in leaves {
        repo.objects.insert(*id, Object::Chunk(Chunk));
    }
    repo
}

fn entries(repo: &Repository, id: ObjectId) -> Vec<ObjectId> {
    match repo.objects.get(&id) {
        Some(Object::List(l)) => l.entries.clone(),
        other => panic!("{other:?}"),
    }
}

#[test]
fn no_chunk_and_one_chunk() {
    let mut repo = empty();
    let id = build_fanout_list(&mut repo, &[]);
    assert_eq!(id, list_object_id(&[]));
    assert_eq!(entries(&repo, id), vec![]);
    let leaves = [(chunk(1), 0)];
    let mut repo = with_leaves(&leaves);
    let id = build_fanout_list(&mut repo, &leaves);
    assert_eq!(id, list_object_id(&[chunk(1)]));
    assert_eq!(entries(&repo, id), vec![chunk(1)]);
}

#[test]
fn digests_set_the_borders_of_lists() {
    let m = FAN_MASKS[0];
    let leaves = [(chunk(1), 0), (chunk(2), m), (chunk(3), 0), (chunk(4), 0)];
    let mut repo = with_leaves(&leaves);
    let root = build_fanout_list(&mut repo, &leaves);
    let left = list_object_id(&[chunk(1), chunk(2)]);
    let right = list_object_id(&[chunk(3), chunk(4)]);
    assert_eq!(entries(&repo, left), vec![chunk(1), chunk(2)]);
    assert_eq!(entries(&repo, right), vec![chunk(3), chunk(4)]);
    assert_eq!(root, list_object_id(&[left, right]));
    assert_eq!(entries(&repo, root), vec![left, right]);
    assert_eq!(repo.objects.len(), 4 + 3);
}

#[test]
fn all_levels_lead_back_to_the_chunks() {
    let mut leaves = Vec::new();
    for n in 0..300u32 {
        // Borders of every level, and more than one node at the top.
        let digest = match n % 10 {
            9 => FAN_MASKS[3],
            4 => FAN_MASKS[1],
            2 => FAN_MASKS[0],
            _ => 0,
        };
        leaves.push((chunk(n), digest));
    }
    let mut repo = with_leaves(&leaves);
    let root = build_fanout_list(&mut repo, &leaves);
    let found = collect_chunk_ids(&repo, root);
    let ids: Vec<ObjectId> = leaves.iter().map(|l| l.0).collect();
    assert_eq!(found, Ok(ids));
    assert!(entries(&repo, root).len() > 1);
}

#[test]
fn a_list_that_is_there_already_stays() {
    let id = list_object_id(&[chunk(1)]);
    let mut repo = empty();
    repo.objects.insert(id, Object::Chunk(Chunk));
    assert_eq!(build_fanout_list(&mut repo, &[(chunk(1), 0)]), id);
    assert_eq!(repo.objects.get(&id), Some(&Object::Chunk(Chunk)));
}

#[test]
fn faults_of_lists() {
    let list = |entries| Object::List(List { entries });
    let (a, b, c) = (ObjectId([1; 32]), ObjectId([2; 32]), ObjectId([3; 32]));
    let mut repo = empty();
    assert_eq!(collect_chunk_ids(&repo, a), Err(ListFault::MissingList(a)));
    repo.objects.insert(a, list(vec![b]));
    assert_eq!(collect_chunk_ids(&repo, a), Err(ListFault::NotChunkOrList(b)));
    repo.objects.insert(b, list(vec![a]));
    assert_eq!(collect_chunk_ids(&repo, a), Err(ListFault::Cycle));
    repo.objects.insert(b, list(vec![c, c]));
    repo.objects.insert(c, Object::Chunk(Chunk));
    assert_eq!(collect_chunk_ids(&repo, a), Ok(vec![c, c]));
    assert_eq!(
        ListFault::MissingList(a).message(),
        format!("missing list object {}", "01".repeat(32))
    );
    assert_eq!(
        ListFault::NotChunkOrList(b).message(),
        format!("list entry is neither chunk nor list: {}", "02".repeat(32))
    );
    assert_eq!(ListFault::Cycle.message(), "list leads to itself");
}

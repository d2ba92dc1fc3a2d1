use scup::hex::{hex_of, parse_hex32, HexError};
use scup::model::{
    same_time, to_hex, to_short_hex, ObjectId, Repository, RepositoryId, Timestamp,
};
use scup::sorted_map::SortedMap;

#[test]
fn hex_notation() {
    let mut id = [0u8; 32];
    id[0] = 0xab;
    id[31] = 0x07;
    assert_eq!(
        to_hex(&id),
        "ab00000000000000000000000000000000000000000000000000000000000007"
    );
    assert_eq!(to_short_hex(&id), "ab000000");
    assert_eq!(hex_of(&[0x0f, 0xf0]), "0ff0");
    assert_eq!(hex_of(&[]), "");
}

#[test]
fn hex_round_trip() {
    let mut id = [0u8; 32];
    for i in 0..32 {
        id[i] = (i as u8) * 7 + 3;
    }
    assert_eq!(parse_hex32(&to_hex(&id)), Ok(id));
    assert_eq!(parse_hex32(&to_hex(&id).to_uppercase()), Ok(id));
}

#[test]
fn hex_of_wrong_length_or_digits() {
    assert_eq!(parse_hex32(""), Err(HexError::Length));
    assert_eq!(parse_hex32(&"0".repeat(63)), Err(HexError::Length));
    assert_eq!(parse_hex32(&"0".repeat(65)), Err(HexError::Length));
    assert_eq!(parse_hex32(&"g".repeat(64)), Err(HexError::Digits));
    // 32 characters of two bytes each take up the right number of bytes.
    assert_eq!(parse_hex32(&"é".repeat(32)), Err(HexError::Digits));
    // A sign before one digit is read as that digit.
    let mut id = [0u8; 32];
    id[0] = 5;
    assert_eq!(parse_hex32(&format!("+5{}", "0".repeat(62))), Ok(id));
}

#[test]
fn object_ids() {
    let a = ObjectId([1; 32]);
    let b = ObjectId([2; 32]);
    assert!(a.is(&a) && !a.is(&b));
    assert_eq!(ObjectId::zero(), ObjectId([0; 32]));
    assert_eq!(ObjectId::from([3; 32]), ObjectId([3; 32]));
    assert_eq!(a.as_ref(), &[1u8; 32][..]);
    assert_eq!(a.to_short_hex(), "01010101");
    assert_eq!(b.to_hex(), "02".repeat(32));
}

#[test]
fn repository_ids() {
    let a = RepositoryId([0xfe; 32]);
    assert_eq!(RepositoryId::from_hex(&a.to_hex()), Some(a));
    assert_eq!(RepositoryId::from_hex("fe"), None);
    assert_eq!(RepositoryId::from_hex(&"zz".repeat(32)), None);
    assert_eq!(a.to_short_hex(), "fefefefe");
    assert!(a.is(&RepositoryId([0xfe; 32])));
    assert!(!a.is(&RepositoryId([0xff; 32])));
}

#[test]
fn times_are_ordered() {
    let t = |secs, nanos| Timestamp { before_epoch: false, secs, nanos };
    assert!(t(2, 0).is_after(&t(1, 999_999_999)));
    assert!(t(1, 5).is_after(&t(1, 4)));
    assert!(!t(1, 5).is_after(&t(1, 5)));
    assert!(!t(1, 5).is_after(&t(2, 0)));
    let early = |secs, nanos| Timestamp { before_epoch: true, secs, nanos };
    assert!(t(0, 0).is_after(&early(0, 1)) && !early(0, 1).is_after(&t(0, 0)));
    assert!(early(1, 0).is_after(&early(1, 1)) && !early(1, 1).is_after(&early(1, 0)));
    assert!(!early(1, 1).is_after(&early(1, 1)));
    assert_eq!(t(3, 4).duration_since_epoch(), (3, 4));
    assert_eq!(early(3, 4).duration_since_epoch(), (0, 0));
    assert!(same_time(&Some(t(1, 2)), &Some(t(1, 2))));
    assert!(!same_time(&Some(t(1, 2)), &Some(early(1, 2))));
    assert!(!same_time(&Some(t(1, 2)), &Some(t(1, 3))));
    assert!(!same_time(&Some(t(1, 2)), &None));
    assert!(same_time(&None, &None));
}

#[test]
fn clones_are_equal() {
    let mut objects = SortedMap::new();
    objects.insert(ObjectId([9; 32]), scup::model::Object::Chunk(scup::model::Chunk));
    let repo = Repository { repo_uuid: RepositoryId([1; 32]), objects, head: ObjectId([9; 32]) };
    assert_eq!(repo.clone(), repo);
}

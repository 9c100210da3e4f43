use grit::bytemap::ByteMap;
use grit::error::Error;
use grit::hash::{calculate_hash, has_object_id_shape};
use grit::store::{get_object, get_ref, hash_object, init, read_object, update_ref, ObjectKind};

#[test]
fn hash_is_lower_case_hex_sha1() {
    assert_eq!(calculate_hash(b"abc"), b"a9993e364706816aba3e25717850c26c9cd0d89d".to_vec());
    assert_eq!(calculate_hash(b""), b"da39a3ee5e6b4b0d3255bfef95601890afd80709".to_vec());
}

#[test]
fn hash_differs_from_its_input() {
    let input = b"a9993e364706816aba3e25717850c26c9cd0d89d";
    let id = calculate_hash(input);
    assert_ne!(id, input.to_vec());
    assert_eq!(id.len(), 40);
    assert!(has_object_id_shape(&id));
}

#[test]
fn object_id_shape_is_forty_hex_digits() {
    assert!(has_object_id_shape(b"5b211494ba9e0f5c98ca51e8732bda579d8487ef"));
    assert!(has_object_id_shape(b"5B211494BA9E0F5C98CA51E8732BDA579D8487EF"));
    assert!(!has_object_id_shape(b"5b211494ba9e0f5c98ca51e8732bda579d8487e"));
    assert!(!has_object_id_shape(b"5b211494ba9e0f5c98ca51e8732bda579d8487eff"));
    assert!(!has_object_id_shape(b"5b211494ba9e0f5c98ca51e8732bda579d8487eg"));
    assert!(!has_object_id_shape(b""));
}

#[test]
fn put_hashes_the_tagged_payload() {
    let mut repo = init();
    let id = hash_object(&mut repo, b"hello", ObjectKind::Blob);
    assert_eq!(id, b"5b211494ba9e0f5c98ca51e8732bda579d8487ef".to_vec());
    assert_eq!(repo.objects.get(&id).unwrap(), &b"blob\0hello".to_vec());
    assert_eq!(repo.objects.len(), 1);
}

#[test]
fn get_returns_what_was_put() {
    let payloads: [&[u8]; 4] = [b"", b"hello", b"with\0zero\0bytes", b"line\nfeed\n"];
    let kinds = [ObjectKind::Blob, ObjectKind::Tree, ObjectKind::Commit];
    for payload in payloads {
        for kind in kinds {
            let mut repo = init();
            let id = hash_object(&mut repo, payload, kind);
            let any = get_object(&repo, &id, None).ok().unwrap();
            assert_eq!(any.kind, kind);
            assert_eq!(any.payload, payload.to_vec());
            let same = get_object(&repo, &id, Some(kind)).ok().unwrap();
            assert_eq!(same.kind, kind);
            assert_eq!(same.payload, payload.to_vec());
        }
    }
}

#[test]
fn put_twice_gives_the_same_id() {
    let mut repo = init();
    let first = hash_object(&mut repo, b"hello", ObjectKind::Blob);
    let second = hash_object(&mut repo, b"hello", ObjectKind::Blob);
    assert_eq!(first, second);
    assert_eq!(repo.objects.len(), 1);
    assert_eq!(get_object(&repo, &first, None).ok().unwrap().payload, b"hello".to_vec());
}

#[test]
fn blob_and_tree_of_equal_payload_differ_in_id() {
    let mut repo = init();
    let blob = hash_object(&mut repo, b"hello", ObjectKind::Blob);
    let tree = hash_object(&mut repo, b"hello", ObjectKind::Tree);
    assert_eq!(tree, b"796aed8475acc475279d47c92e3f85a23f388189".to_vec());
    assert_ne!(blob, tree);
    assert_eq!(repo.objects.len(), 2);
}

#[test]
fn get_of_unknown_id_is_not_found() {
    let repo = init();
    let got = get_object(&repo, b"5b211494ba9e0f5c98ca51e8732bda579d8487ef", None);
    assert_eq!(got.err(), Some(Error::NotFound));
}

#[test]
fn get_of_another_kind_is_a_type_mismatch() {
    let mut repo = init();
    let id = hash_object(&mut repo, b"hello", ObjectKind::Blob);
    assert_eq!(get_object(&repo, &id, Some(ObjectKind::Tree)).err(), Some(Error::TypeMismatch));
    assert_eq!(get_object(&repo, &id, Some(ObjectKind::Commit)).err(), Some(Error::TypeMismatch));
    assert!(get_object(&repo, &id, Some(ObjectKind::Blob)).is_ok());
}

#[test]
fn get_of_untagged_bytes_is_corrupt() {
    let mut repo = init();
    repo.objects.insert(b"one".to_vec(), b"no zero byte".to_vec());
    repo.objects.insert(b"two".to_vec(), b"blobs\0payload".to_vec());
    repo.objects.insert(b"three".to_vec(), b"\0payload".to_vec());
    assert_eq!(get_object(&repo, b"one", None).err(), Some(Error::CorruptObject));
    assert_eq!(get_object(&repo, b"two", None).err(), Some(Error::CorruptObject));
    assert_eq!(get_object(&repo, b"three", None).err(), Some(Error::CorruptObject));
}

#[test]
fn stored_bytes_split_at_the_first_zero() {
    let object = read_object(b"commit\0a\0b").unwrap();
    assert_eq!(object.kind, ObjectKind::Commit);
    assert_eq!(object.payload, b"a\0b".to_vec());
    assert!(read_object(b"").is_none());
    let empty = read_object(b"tree\0").unwrap();
    assert_eq!(empty.kind, ObjectKind::Tree);
    assert_eq!(empty.payload, Vec::<u8>::new());
}

#[test]
fn unset_reference_is_none() {
    let repo = init();
    assert_eq!(get_ref(&repo, b"HEAD"), None);
}

#[test]
fn set_reference_overwrites() {
    let mut repo = init();
    update_ref(&mut repo, b"refs/heads/main", b"one");
    update_ref(&mut repo, b"HEAD", b"two");
    update_ref(&mut repo, b"refs/heads/main", b"three");
    assert_eq!(get_ref(&repo, b"refs/heads/main"), Some(b"three".to_vec()));
    assert_eq!(get_ref(&repo, b"HEAD"), Some(b"two".to_vec()));
    assert_eq!(get_ref(&repo, b"refs/heads"), None);
    assert_eq!(repo.refs.len(), 2);
    assert_eq!(repo.objects.len(), 0);
}

#[test]
fn byte_map_keeps_insertion_order_and_last_value() {
    let mut map = ByteMap::new();
    assert_eq!(map.len(), 0);
    assert!(map.get(b"a").is_none());
    map.insert(b"a".to_vec(), b"1".to_vec());
    map.insert(b"b".to_vec(), b"2".to_vec());
    map.insert(b"a".to_vec(), b"3".to_vec());
    assert_eq!(map.len(), 2);
    assert_eq!(map.slot(0).key, b"a".to_vec());
    assert_eq!(map.slot(0).value, b"3".to_vec());
    assert_eq!(map.slot(1).key, b"b".to_vec());
    assert!(map.contains_key(b"b"));
    assert!(!map.contains_key(b"c"));
    assert!(!map.contains_key(b""));
}

#[test]
fn byte_map_extend_prefers_the_other() {
    let mut left = ByteMap::new();
    left.insert(b"a".to_vec(), b"1".to_vec());
    left.insert(b"b".to_vec(), b"2".to_vec());
    let mut right = ByteMap::new();
    right.insert(b"b".to_vec(), b"20".to_vec());
    right.insert(b"c".to_vec(), b"30".to_vec());
    left.extend(&right);
    assert_eq!(left.len(), 3);
    assert_eq!(left.get(b"a").unwrap(), &b"1".to_vec());
    assert_eq!(left.get(b"b").unwrap(), &b"20".to_vec());
    assert_eq!(left.get(b"c").unwrap(), &b"30".to_vec());
}

#[test]
fn errors_describe_themselves() {
    assert_eq!(Error::NotFound.message(), "not found");
    assert_eq!(Error::TypeMismatch.message(), "object is of another kind");
    assert_eq!(Error::CorruptObject.message(), "corrupt object");
    assert_eq!(Error::InvalidCommitFormat.message(), "invalid commit format");
    assert_eq!(Error::InvalidPath.message(), "invalid path in tree");
}

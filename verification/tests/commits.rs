use grit::commit::{commit_payload, get_commit, parse_commit};
use grit::error::Error;
use grit::store::{hash_object, init, ObjectKind};

const TREE: &[u8] = b"accfa819f512c99706884dcd3063986e6d24b27b";
const PARENT: &[u8] = b"a2db1fd5c947fc682d9a94e4b8da63bb0473365c";

fn payload(text: &str) -> Vec<u8> {
    text.as_bytes().to_vec()
}

#[test]
fn root_commit_payload_has_no_parent_line() {
    let bytes = commit_payload(TREE, None, b"first");
    assert_eq!(bytes, payload("tree accfa819f512c99706884dcd3063986e6d24b27b\n\nfirst"));
}

#[test]
fn commit_payload_with_parent() {
    let parent = PARENT.to_vec();
    let bytes = commit_payload(TREE, Some(&parent), b"second");
    assert_eq!(
        bytes,
        payload(
            "tree accfa819f512c99706884dcd3063986e6d24b27b\nparent a2db1fd5c947fc682d9a94e4b8da63bb0473365c\n\nsecond"
        )
    );
}

#[test]
fn parse_root_commit() {
    let c = parse_commit(b"tree accfa819f512c99706884dcd3063986e6d24b27b\n\nfirst").ok().unwrap();
    assert_eq!(c.tree, TREE.to_vec());
    assert_eq!(c.parent, None);
    assert_eq!(c.message, b"first".to_vec());
}

#[test]
fn parse_commit_with_parent() {
    let parent = PARENT.to_vec();
    let bytes = commit_payload(TREE, Some(&parent), b"second");
    let c = parse_commit(&bytes).ok().unwrap();
    assert_eq!(c.tree, TREE.to_vec());
    assert_eq!(c.parent, Some(PARENT.to_vec()));
    assert_eq!(c.message, b"second".to_vec());
}

#[test]
fn message_is_kept_verbatim() {
    let message = b"subject\n\nbody with a blank line\r\nparent looks like a header\n\n";
    let bytes = commit_payload(TREE, None, message);
    let c = parse_commit(&bytes).ok().unwrap();
    assert_eq!(c.message, message.to_vec());
    assert_eq!(c.parent, None);
    let empty = parse_commit(&commit_payload(TREE, None, b"")).ok().unwrap();
    assert_eq!(empty.message, Vec::<u8>::new());
}

#[test]
fn first_line_must_be_a_tree_line() {
    let bad: [&[u8]; 8] = [
        b"",
        b"\n\nmessage",
        b"tree accfa819f512c99706884dcd3063986e6d24b27b",
        b"blob accfa819f512c99706884dcd3063986e6d24b27b\n\nmessage",
        b"tree \n\nmessage",
        b"tree accfa819f512c99706884dcd3063986e6d24b27\n\nmessage",
        b"tree  accfa819f512c99706884dcd3063986e6d24b27b\n\nmessage",
        b"treeaccfa819f512c99706884dcd3063986e6d24b27b\n\nmessage",
    ];
    for bytes in bad {
        assert_eq!(parse_commit(bytes).err(), Some(Error::InvalidCommitFormat));
    }
}

#[test]
fn malformed_parent_line_is_rejected() {
    let bad: [&[u8]; 6] = [
        b"tree accfa819f512c99706884dcd3063986e6d24b27b\nparent \n\nmessage",
        b"tree accfa819f512c99706884dcd3063986e6d24b27b\nparent\n\nmessage",
        b"tree accfa819f512c99706884dcd3063986e6d24b27b\nparent xyz\n\nmessage",
        b"tree accfa819f512c99706884dcd3063986e6d24b27b\nauthor a2db1fd5c947fc682d9a94e4b8da63bb0473365c\n\nmessage",
        b"tree accfa819f512c99706884dcd3063986e6d24b27b\nmessage without an empty line",
        b"tree accfa819f512c99706884dcd3063986e6d24b27b\n",
    ];
    for bytes in bad {
        assert_eq!(parse_commit(bytes).err(), Some(Error::InvalidCommitFormat));
    }
}

#[test]
fn parent_line_needs_the_empty_line_after_it() {
    let bytes =
        b"tree accfa819f512c99706884dcd3063986e6d24b27b\nparent a2db1fd5c947fc682d9a94e4b8da63bb0473365c\nmessage";
    assert_eq!(parse_commit(bytes).err(), Some(Error::InvalidCommitFormat));
    let ends =
        b"tree accfa819f512c99706884dcd3063986e6d24b27b\nparent a2db1fd5c947fc682d9a94e4b8da63bb0473365c\n";
    assert_eq!(parse_commit(ends).err(), Some(Error::InvalidCommitFormat));
}

#[test]
fn get_commit_reads_a_stored_commit() {
    let mut repo = init();
    let bytes = commit_payload(TREE, None, b"first");
    let id = hash_object(&mut repo, &bytes, ObjectKind::Commit);
    assert_eq!(id, b"a2db1fd5c947fc682d9a94e4b8da63bb0473365c".to_vec());
    let c = get_commit(&repo, &id).ok().unwrap();
    assert_eq!(c.tree, TREE.to_vec());
    assert_eq!(c.parent, None);
    assert_eq!(c.message, b"first".to_vec());
}

#[test]
fn get_commit_rejects_a_malformed_commit() {
    let mut repo = init();
    let no_tree = hash_object(&mut repo, b"parent x\n\nmessage", ObjectKind::Commit);
    let bad_parent = hash_object(
        &mut repo,
        b"tree accfa819f512c99706884dcd3063986e6d24b27b\nparent nothing\n\nmessage",
        ObjectKind::Commit,
    );
    assert_eq!(get_commit(&repo, &no_tree).err(), Some(Error::InvalidCommitFormat));
    assert_eq!(get_commit(&repo, &bad_parent).err(), Some(Error::InvalidCommitFormat));
}

#[test]
fn get_commit_of_missing_or_other_object() {
    let mut repo = init();
    let blob = hash_object(&mut repo, b"tree accfa819f512c99706884dcd3063986e6d24b27b\n\nm", ObjectKind::Blob);
    assert_eq!(get_commit(&repo, &blob).err(), Some(Error::TypeMismatch));
    assert_eq!(get_commit(&repo, PARENT).err(), Some(Error::NotFound));
}

use grit::error::Error;
use grit::history::{checkout, commit, history, indent_message, log};
use grit::resolve::{get_oid, tag};
use grit::store::{get_ref, hash_object, init, update_ref, ObjectKind};
use grit::commit::{commit_payload, get_commit};
use grit::worktree::{DirEntry, Node};

const C1: &[u8] = b"a2db1fd5c947fc682d9a94e4b8da63bb0473365c";
const C2: &[u8] = b"7e71e4395836e3b5ed5f9087f745ab47e4f72a85";

fn a_txt(contents: &str) -> Vec<DirEntry> {
    vec![DirEntry { name: b"a.txt".to_vec(), node: Node::File(contents.as_bytes().to_vec()) }]
}

#[test]
fn commit_log_checkout_end_to_end() {
    let mut repo = init();
    assert!(log(&repo, None).ok().unwrap().is_none());

    let c1 = commit(&mut repo, &a_txt("hello"), b"first");
    assert_eq!(c1, C1.to_vec());
    assert_eq!(get_ref(&repo, b"HEAD"), Some(C1.to_vec()));
    let one = log(&repo, None).ok().unwrap().unwrap();
    assert_eq!(one.failure, None);
    assert_eq!(one.entries.len(), 1);
    assert_eq!(one.entries[0].commit_id, C1.to_vec());
    assert_eq!(one.entries[0].message, b"first".to_vec());

    let c2 = commit(&mut repo, &a_txt("world"), b"second");
    assert_eq!(c2, C2.to_vec());
    let two = log(&repo, None).ok().unwrap().unwrap();
    assert_eq!(two.failure, None);
    assert_eq!(two.entries.len(), 2);
    assert_eq!(two.entries[0].commit_id, C2.to_vec());
    assert_eq!(two.entries[0].message, b"second".to_vec());
    assert_eq!(two.entries[1].commit_id, C1.to_vec());
    assert_eq!(two.entries[1].message, b"first".to_vec());

    let files = checkout(&mut repo, &c1).ok().unwrap();
    assert_eq!(files.len(), 1);
    assert_eq!(files.get(b"./a.txt").unwrap(), &b"hello".to_vec());
    assert_eq!(get_oid(&repo, b"HEAD").ok(), Some(C1.to_vec()));
    assert_eq!(get_oid(&repo, b"@").ok(), Some(C1.to_vec()));
}

#[test]
fn commit_records_tree_parent_and_message() {
    let mut repo = init();
    let c1 = commit(&mut repo, &a_txt("hello"), b"first");
    let c2 = commit(&mut repo, &a_txt("world"), b"second\n\nwith a body\n");
    let first = get_commit(&repo, &c1).ok().unwrap();
    assert_eq!(first.tree, b"accfa819f512c99706884dcd3063986e6d24b27b".to_vec());
    assert_eq!(first.parent, None);
    let second = get_commit(&repo, &c2).ok().unwrap();
    assert_eq!(second.tree, b"0dfc4300f2ac6f2cfd7dfc48826934f3947d643e".to_vec());
    assert_eq!(second.parent, Some(C1.to_vec()));
    assert_eq!(second.message, b"second\n\nwith a body\n".to_vec());
    assert_eq!(repo.objects.len(), 6);
}

#[test]
fn tag_of_head_after_commit() {
    let mut repo = init();
    let c1 = commit(&mut repo, &a_txt("hello"), b"first");
    assert_eq!(tag(&mut repo, b"v1", None).ok(), Some(c1.clone()));
    commit(&mut repo, &a_txt("world"), b"second");
    assert_eq!(get_oid(&repo, b"v1").ok(), Some(c1));
    let tagged = log(&repo, Some(b"v1")).ok().unwrap().unwrap();
    assert_eq!(tagged.entries.len(), 1);
    assert_eq!(tagged.entries[0].message, b"first".to_vec());
}

#[test]
fn checkout_that_fails_leaves_head() {
    let mut repo = init();
    let c1 = commit(&mut repo, &a_txt("hello"), b"first");
    assert_eq!(checkout(&mut repo, C2).err(), Some(Error::NotFound));
    assert_eq!(get_ref(&repo, b"HEAD"), Some(c1.clone()));
    let no_tree = hash_object(
        &mut repo,
        &commit_payload(b"0dfc4300f2ac6f2cfd7dfc48826934f3947d643e", None, b"lost"),
        ObjectKind::Commit,
    );
    assert_eq!(checkout(&mut repo, &no_tree).err(), Some(Error::CorruptObject));
    assert_eq!(get_ref(&repo, b"HEAD"), Some(c1));
    let blob = hash_object(&mut repo, b"hello", ObjectKind::Blob);
    assert_eq!(checkout(&mut repo, &blob).err(), Some(Error::TypeMismatch));
}

#[test]
fn history_stops_at_a_commit_that_cannot_be_read() {
    let mut repo = init();
    let missing = C1.to_vec();
    let orphan = hash_object(
        &mut repo,
        &commit_payload(b"accfa819f512c99706884dcd3063986e6d24b27b", Some(&missing), b"orphan"),
        ObjectKind::Commit,
    );
    let walked = history(&repo, &orphan);
    assert_eq!(walked.entries.len(), 1);
    assert_eq!(walked.entries[0].commit_id, orphan);
    assert_eq!(walked.entries[0].message, b"orphan".to_vec());
    assert_eq!(walked.failure, Some(Error::NotFound));
    let nothing = history(&repo, C2);
    assert_eq!(nothing.entries.len(), 0);
    assert_eq!(nothing.failure, Some(Error::NotFound));
}

#[test]
fn log_of_unknown_name_is_not_found() {
    let mut repo = init();
    commit(&mut repo, &a_txt("hello"), b"first");
    assert_eq!(log(&repo, Some(b"nothing")).err(), Some(Error::NotFound));
    let by_id = log(&repo, Some(C1)).ok().unwrap().unwrap();
    assert_eq!(by_id.entries.len(), 1);
}

#[test]
fn log_indents_each_line_of_a_message() {
    assert_eq!(indent_message(b"first"), b"\tfirst".to_vec());
    assert_eq!(indent_message(b"a\nb"), b"\ta\n\tb".to_vec());
    assert_eq!(indent_message(b"a\n\nb"), b"\ta\n\t\n\tb".to_vec());
    assert_eq!(indent_message(b"a\n"), b"\ta".to_vec());
    assert_eq!(indent_message(b"a\r\nb\r"), b"\ta\n\tb\r".to_vec());
    assert_eq!(indent_message(b"\n"), b"\t".to_vec());
    assert_eq!(indent_message(b"\r\n\r\n"), b"\t\n\t".to_vec());
    assert_eq!(indent_message(b""), Vec::<u8>::new());
}

#[test]
fn log_indentation_matches_lines_of_text() {
    let messages = ["first", "a\nb", "a\n\nb\n", "\n\n", "x\r\ny\r\n", "tab\there\n last ", ""];
    for message in messages {
        let mut expected = String::new();
        let mut first = true;
        for line in message.lines() {
            if !first {
                expected.push('\n');
            }
            first = false;
            expected.push('\t');
            expected.push_str(line);
        }
        assert_eq!(indent_message(message.as_bytes()), expected.into_bytes());
    }
}

#[test]
fn log_without_name_starts_at_the_id_that_head_holds() {
    let mut repo = init();
    let c1 = commit(&mut repo, &a_txt("hello"), b"first");
    let c2 = commit(&mut repo, &a_txt("world"), b"second");
    update_ref(&mut repo, &c2, &c1);
    let from_head = log(&repo, None).ok().unwrap().unwrap();
    assert_eq!(from_head.failure, None);
    assert_eq!(from_head.entries.len(), 2);
    assert_eq!(from_head.entries[0].commit_id, c2);
    assert_eq!(from_head.entries[1].commit_id, c1);
    let by_name = log(&repo, Some(&c2)).ok().unwrap().unwrap();
    assert_eq!(by_name.entries.len(), 1);
    assert_eq!(by_name.entries[0].commit_id, c1);
}

#[test]
fn log_without_name_fails_at_a_head_that_is_no_commit() {
    let mut repo = init();
    let c1 = commit(&mut repo, &a_txt("hello"), b"first");
    update_ref(&mut repo, b"refs/heads/main", &c1);
    update_ref(&mut repo, b"HEAD", b"main");
    let from_head = log(&repo, None).ok().unwrap().unwrap();
    assert_eq!(from_head.entries.len(), 0);
    assert_eq!(from_head.failure, Some(Error::NotFound));
    let by_name = log(&repo, Some(b"main")).ok().unwrap().unwrap();
    assert_eq!(by_name.entries.len(), 1);
    assert_eq!(by_name.failure, None);
}

use grit::error::Error;
use grit::flatten::{get_blob, get_tree, is_valid_name, read_tree};
use grit::store::{hash_object, init, ObjectKind};
use grit::tree::{entry_line_bytes, parse_tree, tree_entries_iterator, EntryKind};
use grit::worktree::{clear_action, is_ignored, write_tree, ClearAction, DirEntry, Node, PathKind};

const HELLO: &[u8] = b"5b211494ba9e0f5c98ca51e8732bda579d8487ef";
const WORLD: &[u8] = b"7186b66b6ad5dc034b76436018f1056527106104";

fn file(name: &str, contents: &str) -> DirEntry {
    DirEntry { name: name.as_bytes().to_vec(), node: Node::File(contents.as_bytes().to_vec()) }
}

fn dir(name: &str, entries: Vec<DirEntry>) -> DirEntry {
    DirEntry { name: name.as_bytes().to_vec(), node: Node::Directory(entries) }
}

fn nested() -> Vec<DirEntry> {
    vec![
        file("a.txt", "hello"),
        dir("sub", vec![file("b.txt", "world"), dir("deep", vec![file("c", "")])]),
    ]
}

#[test]
fn entry_line_is_kind_id_name() {
    assert_eq!(
        entry_line_bytes(EntryKind::Blob, HELLO, b"a.txt"),
        b"blob 5b211494ba9e0f5c98ca51e8732bda579d8487ef a.txt\n".to_vec()
    );
    assert_eq!(
        entry_line_bytes(EntryKind::Tree, WORLD, b"my dir"),
        b"tree 7186b66b6ad5dc034b76436018f1056527106104 my dir\n".to_vec()
    );
}

#[test]
fn parse_tree_reads_each_line() {
    let payload = b"blob 5b211494ba9e0f5c98ca51e8732bda579d8487ef a.txt\ntree 7186b66b6ad5dc034b76436018f1056527106104 my dir\n";
    let entries = parse_tree(payload).ok().unwrap();
    assert_eq!(entries.len(), 2);
    assert_eq!(entries[0].kind, EntryKind::Blob);
    assert_eq!(entries[0].oid, HELLO.to_vec());
    assert_eq!(entries[0].name, b"a.txt".to_vec());
    assert_eq!(entries[1].kind, EntryKind::Tree);
    assert_eq!(entries[1].oid, WORLD.to_vec());
    assert_eq!(entries[1].name, b"my dir".to_vec());
    assert_eq!(parse_tree(b"").ok().unwrap().len(), 0);
}

#[test]
fn parse_tree_rejects_what_is_no_entry_line() {
    let bad: [&[u8]; 8] = [
        b"blob 5b211494ba9e0f5c98ca51e8732bda579d8487ef a.txt",
        b"\n",
        b"blob 5b211494ba9e0f5c98ca51e8732bda579d8487ef a.txt\n\n",
        b"commit 5b211494ba9e0f5c98ca51e8732bda579d8487ef a.txt\n",
        b"blob 5b211494ba9e0f5c98ca51e8732bda579d8487e a.txt\n",
        b"blob 5b211494ba9e0f5c98ca51e8732bda579d8487ef \n",
        b"blob 5b211494ba9e0f5c98ca51e8732bda579d8487ef\n",
        b"blob\n",
    ];
    for payload in bad {
        assert_eq!(parse_tree(payload).err(), Some(Error::CorruptObject));
    }
}

#[test]
fn tree_entries_of_missing_or_other_object() {
    let mut repo = init();
    let blob = hash_object(&mut repo, b"", ObjectKind::Blob);
    let bad = hash_object(&mut repo, b"not a tree", ObjectKind::Tree);
    assert_eq!(tree_entries_iterator(&repo, HELLO).err(), Some(Error::CorruptObject));
    assert_eq!(tree_entries_iterator(&repo, &blob).err(), Some(Error::TypeMismatch));
    assert_eq!(tree_entries_iterator(&repo, &bad).err(), Some(Error::CorruptObject));
}

#[test]
fn valid_names_are_single_segments() {
    assert!(is_valid_name(b"a.txt"));
    assert!(is_valid_name(b"..."));
    assert!(is_valid_name(b".grit"));
    assert!(is_valid_name(b""));
    assert!(!is_valid_name(b"."));
    assert!(!is_valid_name(b".."));
    assert!(!is_valid_name(b"a/b"));
    assert!(!is_valid_name(b"../escape"));
    assert!(!is_valid_name(b"/"));
}

#[test]
fn ignored_paths_have_the_reserved_segment() {
    assert!(is_ignored(b".grit"));
    assert!(is_ignored(b"./.grit"));
    assert!(is_ignored(b"./.grit/objects/abc"));
    assert!(is_ignored(b"./sub/.grit"));
    assert!(is_ignored(b"a/.grit/b"));
    assert!(!is_ignored(b""));
    assert!(!is_ignored(b"."));
    assert!(!is_ignored(b"./.gritty"));
    assert!(!is_ignored(b"./x.grit"));
    assert!(!is_ignored(b"./.git"));
    assert!(!is_ignored(b"./a.txt"));
    assert!(!is_ignored(b".grit.bak/.grit2"));
}

#[test]
fn clearing_keeps_ignored_paths() {
    assert_eq!(clear_action(b"./.grit", PathKind::Directory), ClearAction::Keep);
    assert_eq!(clear_action(b"./sub/.grit", PathKind::File), ClearAction::Keep);
    assert_eq!(clear_action(b"./a.txt", PathKind::File), ClearAction::RemoveFile);
    assert_eq!(clear_action(b"./sub", PathKind::Directory), ClearAction::ClearAndRemove);
    assert_eq!(clear_action(b"./link", PathKind::Other), ClearAction::Keep);
}

#[test]
fn write_tree_of_one_file() {
    let mut repo = init();
    let id = write_tree(&mut repo, b".", &vec![file("a.txt", "hello")]);
    assert_eq!(id, b"accfa819f512c99706884dcd3063986e6d24b27b".to_vec());
    assert_eq!(repo.objects.len(), 2);
    assert_eq!(
        repo.objects.get(&id).unwrap(),
        &b"tree\0blob 5b211494ba9e0f5c98ca51e8732bda579d8487ef a.txt\n".to_vec()
    );
    assert_eq!(get_blob(&repo, HELLO).ok(), Some(b"hello".to_vec()));
}

#[test]
fn write_tree_of_empty_directory() {
    let mut repo = init();
    let id = write_tree(&mut repo, b".", &Vec::new());
    assert_eq!(id, b"d28c5ff92df044a522508a29cf3fad0b812f672f".to_vec());
    assert_eq!(read_tree(&repo, &id).ok().unwrap().len(), 0);
}

#[test]
fn write_tree_of_nested_directories() {
    let mut repo = init();
    let id = write_tree(&mut repo, b".", &nested());
    assert_eq!(id, b"251e2d583104b9a3dda191a8ad0c529665dfb81d".to_vec());
    assert_eq!(repo.objects.len(), 6);
    let entries = tree_entries_iterator(&repo, &id).ok().unwrap();
    assert_eq!(entries.len(), 2);
    assert_eq!(entries[1].kind, EntryKind::Tree);
    assert_eq!(entries[1].oid, b"1b44e5b9eb2b17b271738e27b59e5e19289e78a0".to_vec());
    assert_eq!(entries[1].name, b"sub".to_vec());
}

#[test]
fn write_tree_is_deterministic() {
    let mut repo = init();
    let first = write_tree(&mut repo, b".", &nested());
    let count = repo.objects.len();
    let second = write_tree(&mut repo, b".", &nested());
    assert_eq!(first, second);
    assert_eq!(repo.objects.len(), count);
    let mut other = init();
    hash_object(&mut other, b"unrelated", ObjectKind::Blob);
    assert_eq!(write_tree(&mut other, b".", &nested()), first);
}

#[test]
fn write_tree_depends_on_the_order_of_entries() {
    let mut repo = init();
    let forward = write_tree(&mut repo, b".", &vec![file("a", "1"), file("b", "2")]);
    let backward = write_tree(&mut repo, b".", &vec![file("b", "2"), file("a", "1")]);
    assert_ne!(forward, backward);
}

#[test]
fn write_tree_skips_the_reserved_name_at_every_depth() {
    let mut with = init();
    let entries = vec![
        dir(".grit", vec![file("HEAD", "x")]),
        file("a.txt", "hello"),
        dir("sub", vec![file(".grit", "y"), file("b.txt", "world"), dir("deep", vec![file("c", "")])]),
    ];
    let id = write_tree(&mut with, b".", &entries);
    assert_eq!(id, b"251e2d583104b9a3dda191a8ad0c529665dfb81d".to_vec());
    assert_eq!(with.objects.len(), 6);
    let mut inside = init();
    let nothing = write_tree(&mut inside, b"./.grit", &vec![file("HEAD", "x")]);
    assert_eq!(nothing, b"d28c5ff92df044a522508a29cf3fad0b812f672f".to_vec());
}

#[test]
fn get_tree_lists_paths_with_blobs() {
    let mut repo = init();
    let id = write_tree(&mut repo, b".", &nested());
    let flat = get_tree(&repo, &id, b"./").ok().unwrap();
    assert_eq!(flat.len(), 3);
    assert_eq!(flat.get(b"./a.txt").unwrap(), &HELLO.to_vec());
    assert_eq!(flat.get(b"./sub/b.txt").unwrap(), &WORLD.to_vec());
    assert_eq!(
        flat.get(b"./sub/deep/c").unwrap(),
        &b"48ede76ef68a65b7292840b4ad4d1f111359d82a".to_vec()
    );
    let based = get_tree(&repo, &id, b"out/").ok().unwrap();
    assert!(based.contains_key(b"out/sub/deep/c"));
}

#[test]
fn read_tree_restores_what_write_tree_captured() {
    let mut repo = init();
    let id = write_tree(&mut repo, b".", &nested());
    let files = read_tree(&repo, &id).ok().unwrap();
    assert_eq!(files.len(), 3);
    assert_eq!(files.get(b"./a.txt").unwrap(), &b"hello".to_vec());
    assert_eq!(files.get(b"./sub/b.txt").unwrap(), &b"world".to_vec());
    assert_eq!(files.get(b"./sub/deep/c").unwrap(), &Vec::<u8>::new());
}

#[test]
fn read_tree_restores_names_with_spaces() {
    let mut repo = init();
    let entries = vec![file(" two  words ", "x"), dir("a b", vec![file("c d", "y")])];
    let id = write_tree(&mut repo, b".", &entries);
    let files = read_tree(&repo, &id).ok().unwrap();
    assert_eq!(files.len(), 2);
    assert_eq!(files.get(b"./ two  words ").unwrap(), &b"x".to_vec());
    assert_eq!(files.get(b"./a b/c d").unwrap(), &b"y".to_vec());
}

#[test]
fn entry_that_escapes_is_an_invalid_path() {
    let mut repo = init();
    let blob = hash_object(&mut repo, b"evil", ObjectKind::Blob);
    let line = entry_line_bytes(EntryKind::Blob, &blob, b"../escape");
    let tree = hash_object(&mut repo, &line, ObjectKind::Tree);
    assert_eq!(get_tree(&repo, &tree, b"./").err(), Some(Error::InvalidPath));
    assert_eq!(read_tree(&repo, &tree).err(), Some(Error::InvalidPath));
    for name in [&b".."[..], &b"."[..], &b"a/b"[..]] {
        let line = entry_line_bytes(EntryKind::Tree, &tree, name);
        let outer = hash_object(&mut repo, &line, ObjectKind::Tree);
        assert_eq!(read_tree(&repo, &outer).err(), Some(Error::InvalidPath));
    }
}

#[test]
fn nested_invalid_path_fails_the_whole_tree() {
    let mut repo = init();
    let blob = hash_object(&mut repo, b"evil", ObjectKind::Blob);
    let inner = hash_object(
        &mut repo,
        &entry_line_bytes(EntryKind::Blob, &blob, b"../escape"),
        ObjectKind::Tree,
    );
    let mut payload = entry_line_bytes(EntryKind::Blob, &blob, b"fine");
    payload.extend(entry_line_bytes(EntryKind::Tree, &inner, b"sub"));
    let outer = hash_object(&mut repo, &payload, ObjectKind::Tree);
    assert_eq!(read_tree(&repo, &outer).err(), Some(Error::InvalidPath));
}

#[test]
fn missing_objects_are_corrupt() {
    let mut repo = init();
    assert_eq!(read_tree(&repo, HELLO).err(), Some(Error::CorruptObject));
    let no_blob = hash_object(
        &mut repo,
        &entry_line_bytes(EntryKind::Blob, HELLO, b"a.txt"),
        ObjectKind::Tree,
    );
    assert_eq!(get_tree(&repo, &no_blob, b"./").ok().unwrap().len(), 1);
    assert_eq!(read_tree(&repo, &no_blob).err(), Some(Error::CorruptObject));
    let no_tree = hash_object(
        &mut repo,
        &entry_line_bytes(EntryKind::Tree, WORLD, b"sub"),
        ObjectKind::Tree,
    );
    assert_eq!(get_tree(&repo, &no_tree, b"./").err(), Some(Error::CorruptObject));
}

#[test]
fn entry_of_the_wrong_kind_is_a_type_mismatch() {
    let mut repo = init();
    let blob = hash_object(&mut repo, b"hello", ObjectKind::Blob);
    let as_tree = hash_object(
        &mut repo,
        &entry_line_bytes(EntryKind::Tree, &blob, b"sub"),
        ObjectKind::Tree,
    );
    assert_eq!(get_tree(&repo, &as_tree, b"./").err(), Some(Error::TypeMismatch));
    let as_blob = hash_object(
        &mut repo,
        &entry_line_bytes(EntryKind::Blob, &as_tree, b"file"),
        ObjectKind::Tree,
    );
    assert_eq!(read_tree(&repo, &as_blob).err(), Some(Error::TypeMismatch));
    assert_eq!(get_tree(&repo, &blob, b"./").err(), Some(Error::TypeMismatch));
}

#[test]
fn later_entry_of_the_same_path_stays() {
    let mut repo = init();
    let entries = vec![file("a", "old"), file("a", "new")];
    let id = write_tree(&mut repo, b".", &entries);
    let files = read_tree(&repo, &id).ok().unwrap();
    assert_eq!(files.len(), 1);
    assert_eq!(files.get(b"./a").unwrap(), &b"new".to_vec());
}

//! The working directory as a value, and its capture as a tree.

use vstd::prelude::*;
use crate::bytes::{append, copy_bytes, has_prefix_at};
use crate::hash::is_object_id;
use crate::store::{hash_object, object_id_of, objects_with, ObjectKind, Repository};
use crate::tree::{encode_tree, entry_line_bytes, EntryKind, EntryModel};

verus! {

/// What a name in a directory stands for: a file with its contents, or a
/// directory with its entries in listing order.
pub enum Node {
    File(Vec<u8>),
    Directory(Vec<DirEntry>),
}

/// One name in a directory, with what it stands for.
pub struct DirEntry {
    pub name: Vec<u8>,
    pub node: Node,
}

/// The name of the directory that holds the repository's own data: `.grit`.
pub open spec fn reserved_name() -> Seq<u8> {
    seq![46u8, 103u8, 114u8, 105u8, 116u8]
}

/// Whether a segment of `path` that begins at `i` is the reserved name: it
/// begins at the start or after a `/`, and ends at the end or before a `/`.
pub open spec fn reserved_segment_at(path: Seq<u8>, i: int) -> bool {
    &&& 0 <= i
    &&& i + 5 <= path.len()
    &&& path.subrange(i, i + 5) == reserved_name()
    &&& (i == 0 || path[i - 1] == 47u8)
    &&& (i + 5 == path.len() || path[i + 5] == 47u8)
}

/// Whether some segment of `path`, taken between its `/`, is the reserved
/// name.
pub open spec fn is_ignored_spec(path: Seq<u8>) -> bool {
    exists|i: int| reserved_segment_at(path, i)
}

/// Tests whether some segment of `path` is the reserved name, so that the
/// path belongs to the repository's own data.
pub fn is_ignored(path: &[u8]) -> (ignored: bool)
    ensures
        ignored == is_ignored_spec(path@),
{
    let reserved = vec![46u8, 103u8, 114u8, 105u8, 116u8];
    assert(reserved@ =~= reserved_name());
    let total: usize = path.len();
    if total < 5 {
        return false;
    }
    let mut i: usize = 0;
    while i <= total - 5
        invariant
            total == path@.len(),
            total >= 5,
            i <= total - 4,
            reserved@ == reserved_name(),
            forall|k: int| 0 <= k < i ==> !reserved_segment_at(path@, k),
        decreases total - i,
    {
        let starts = i == 0 || path[i - 1] == 47u8;
        let ends = i + 5 == total || path[i + 5] == 47u8;
        if starts && ends && has_prefix_at(path, i, reserved.as_slice()) {
            assert(path@.skip(i as int).subrange(0, 5) =~= path@.subrange(i as int, i + 5));
            assert(reserved_segment_at(path@, i as int));
            return true;
        }
        proof {
            if starts && ends {
                assert(path@.skip(i as int).subrange(0, 5) =~= path@.subrange(i as int, i + 5));
            }
        }
        i += 1;
    }
    false
}

/// What a path in the working directory is found to be.
#[derive(Clone, Copy, Debug, PartialEq, Eq, Structural)]
pub enum PathKind {
    File,
    Directory,
    Other,
}

/// What clearing the working directory does with one path.
#[derive(Clone, Copy, Debug, PartialEq, Eq, Structural)]
pub enum ClearAction {
    /// Leave the path as it is, and do not look below it.
    Keep,
    /// Remove the file.
    RemoveFile,
    /// Clear the directory, then remove it.
    ClearAndRemove,
}

/// What clearing does with a path: an ignored path is kept, whatever it
/// is; a file is removed; a directory is cleared and removed; anything else
/// is kept.
pub open spec fn spec_clear_action(path: Seq<u8>, kind: PathKind) -> ClearAction {
    if is_ignored_spec(path) {
        ClearAction::Keep
    } else {
        match kind {
            PathKind::File => ClearAction::RemoveFile,
            PathKind::Directory => ClearAction::ClearAndRemove,
            PathKind::Other => ClearAction::Keep,
        }
    }
}

/// Decides what clearing the working directory does with one path.
pub fn clear_action(path: &[u8], kind: PathKind) -> (action: ClearAction)
    ensures
        action == spec_clear_action(path@, kind),
{
    if is_ignored(path) {
        ClearAction::Keep
    } else {
        match kind {
            PathKind::File => ClearAction::RemoveFile,
            PathKind::Directory => ClearAction::ClearAndRemove,
            PathKind::Other => ClearAction::Keep,
        }
    }
}

/// The path of the entry `name` in `directory`.
pub open spec fn child_path(directory: Seq<u8>, name: Seq<u8>) -> Seq<u8> {
    directory + seq![47u8] + name
}

/// The entries of the tree that captures a directory: one for each name
/// whose path is not ignored, in listing order, a blob for a file and a tree
/// for a directory.
pub open spec fn tree_lines(directory: Seq<u8>, entries: Seq<DirEntry>) -> Seq<EntryModel>
    decreases entries, 0nat,
{
    if entries.len() == 0 {
        Seq::<EntryModel>::empty()
    } else {
        let lines = tree_lines(directory, entries.drop_last());
        let entry = entries.last();
        let path = child_path(directory, entry.name@);
        if is_ignored_spec(path) {
            lines
        } else {
            match entry.node {
                Node::File(contents) => lines.push(
                    EntryModel {
                        kind: EntryKind::Blob,
                        oid: object_id_of(ObjectKind::Blob, contents@),
                        name: entry.name@,
                    },
                ),
                Node::Directory(children) => lines.push(
                    EntryModel {
                        kind: EntryKind::Tree,
                        oid: tree_id(path, children@),
                        name: entry.name@,
                    },
                ),
            }
        }
    }
}

/// The id of the tree that captures a directory. It depends on the
/// directory's path and entries alone.
pub open spec fn tree_id(directory: Seq<u8>, entries: Seq<DirEntry>) -> Seq<u8>
    decreases entries, 1nat,
{
    object_id_of(ObjectKind::Tree, encode_tree(tree_lines(directory, entries)))
}

/// The object store after the entries of a directory were captured: the
/// blob of each file and the tree of each directory below it, but not yet
/// the directory's own tree.
pub open spec fn capture_entries(
    objects: Map<Seq<u8>, Seq<u8>>,
    directory: Seq<u8>,
    entries: Seq<DirEntry>,
) -> Map<Seq<u8>, Seq<u8>>
    decreases entries, 0nat,
{
    if entries.len() == 0 {
        objects
    } else {
        let stored = capture_entries(objects, directory, entries.drop_last());
        let entry = entries.last();
        let path = child_path(directory, entry.name@);
        if is_ignored_spec(path) {
            stored
        } else {
            match entry.node {
                Node::File(contents) => objects_with(stored, ObjectKind::Blob, contents@),
                Node::Directory(children) => capture(stored, path, children@),
            }
        }
    }
}

/// The object store after a directory was captured.
pub open spec fn capture(
    objects: Map<Seq<u8>, Seq<u8>>,
    directory: Seq<u8>,
    entries: Seq<DirEntry>,
) -> Map<Seq<u8>, Seq<u8>>
    decreases entries, 1nat,
{
    objects_with(
        capture_entries(objects, directory, entries),
        ObjectKind::Tree,
        encode_tree(tree_lines(directory, entries)),
    )
}

/// Captures a directory as a tree and returns the tree's id. Each file is
/// stored as a blob and each directory as a tree, in listing order; an
/// entry whose path has the reserved name as a segment is left out, at
/// every depth. The id depends on the path and the entries alone, so that
/// capturing an unchanged directory again gives the same id.
pub fn write_tree(repo: &mut Repository, directory: &[u8], entries: &Vec<DirEntry>) -> (oid: Vec<
    u8,
>)
    requires
        old(repo).wf(),
    ensures
        final(repo).wf(),
        oid@ == tree_id(directory@, entries@),
        is_object_id(oid@),
        final(repo).objects@ == capture(old(repo).objects@, directory@, entries@),
        final(repo).refs == old(repo).refs,
        final(repo).objects.count() >= old(repo).objects.count(),
    decreases entries@,
{
    let mut payload: Vec<u8> = Vec::new();
    let ghost mut lines = Seq::<EntryModel>::empty();
    let mut i: usize = 0;
    assert(entries@.take(0) =~= Seq::<DirEntry>::empty());
    while i < entries.len()
        invariant
            repo.wf(),
            repo.refs == old(repo).refs,
            repo.objects.count() >= old(repo).objects.count(),
            i <= entries@.len(),
            lines == tree_lines(directory@, entries@.take(i as int)),
            payload@ == encode_tree(lines),
            repo.objects@ == capture_entries(
                old(repo).objects@,
                directory@,
                entries@.take(i as int),
            ),
        decreases entries@.len() - i,
    {
        let entry = &entries[i];
        proof {
            assert(entries@.take(i + 1).drop_last() =~= entries@.take(i as int));
            assert(entries@.take(i + 1).last() == entries@[i as int]);
        }
        let mut path = copy_bytes(directory);
        path.push(47u8);
        append(&mut path, entry.name.as_slice());
        assert(path@ =~= child_path(directory@, entry.name@));
        if !is_ignored(path.as_slice()) {
            let (kind, oid) = match &entry.node {
                Node::File(contents) => (
                    EntryKind::Blob,
                    hash_object(repo, contents.as_slice(), ObjectKind::Blob),
                ),
                Node::Directory(children) => (
                    EntryKind::Tree,
                    write_tree(repo, path.as_slice(), children),
                ),
            };
            let line = entry_line_bytes(kind, oid.as_slice(), entry.name.as_slice());
            append(&mut payload, line.as_slice());
            proof {
                let model = EntryModel { kind, oid: oid@, name: entry.name@ };
                assert(lines.push(model).drop_last() =~= lines);
                lines = lines.push(model);
            }
        }
        i += 1;
    }
    assert(entries@.take(entries@.len() as int) =~= entries@);
    hash_object(repo, payload.as_slice(), ObjectKind::Tree)
}

/// Every path below an ignored directory is ignored.
pub proof fn lemma_below_ignored_is_ignored(directory: Seq<u8>, name: Seq<u8>)
    requires
        is_ignored_spec(directory),
    ensures
        is_ignored_spec(child_path(directory, name)),
{
    let i = choose|i: int| reserved_segment_at(directory, i);
    let path = child_path(directory, name);
    assert(path.subrange(i, i + 5) =~= directory.subrange(i, i + 5));
    assert(reserved_segment_at(path, i));
}

/// An entry whose path is ignored adds nothing to the tree of its
/// directory and nothing to the store, wherever in the listing it stands
/// and at whatever depth the directory lies.
pub proof fn lemma_ignored_entry_skipped(
    objects: Map<Seq<u8>, Seq<u8>>,
    directory: Seq<u8>,
    entries: Seq<DirEntry>,
    k: int,
)
    requires
        0 <= k < entries.len(),
        is_ignored_spec(child_path(directory, entries[k].name@)),
    ensures
        tree_lines(directory, entries.remove(k)) == tree_lines(directory, entries),
        tree_id(directory, entries.remove(k)) == tree_id(directory, entries),
        capture_entries(objects, directory, entries.remove(k)) == capture_entries(
            objects,
            directory,
            entries,
        ),
        capture(objects, directory, entries.remove(k)) == capture(objects, directory, entries),
    decreases entries.len(),
{
    if k == entries.len() - 1 {
        assert(entries.remove(k) =~= entries.drop_last());
    } else {
        let without = entries.remove(k);
        assert(without.drop_last() =~= entries.drop_last().remove(k));
        assert(without.last() == entries.last());
        lemma_ignored_entry_skipped(objects, directory, entries.drop_last(), k);
    }
}

} // verus!

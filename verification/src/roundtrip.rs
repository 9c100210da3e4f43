//! Capturing a directory and restoring the tree gives the directory's files
//! back.

use vstd::prelude::*;
use crate::error::Error;
use crate::flatten::{flatten_entries, flatten_step, restores, root_path, spec_blob, spec_get_tree,
    valid_name};
use crate::hash::{lemma_object_id_shape, spec_object_id};
use crate::store::{lemma_decode_tagged, object_id_of, objects_with, tagged, ObjectKind};
use crate::tree::{encode_tree, lemma_parse_encoded_tree, spec_tree_entries, storable_entry,
    EntryModel};
use crate::worktree::{capture, capture_entries, child_path, is_ignored_spec, tree_id, tree_lines,
    DirEntry, Node};

verus! {

/// Whether `name` can be stored in a tree and restored from it: it is not
/// empty, is a single path segment, and holds no line feed.
pub open spec fn plain_name(name: Seq<u8>) -> bool {
    name.len() > 0 && valid_name(name) && !name.contains(10u8)
}

/// Whether every name in the directory, at every depth, is plain.
pub open spec fn plain_names(entries: Seq<DirEntry>) -> bool
    decreases entries,
{
    if entries.len() == 0 {
        true
    } else {
        &&& plain_names(entries.drop_last())
        &&& plain_name(entries.last().name@)
        &&& match entries.last().node {
            Node::File(_) => true,
            Node::Directory(children) => plain_names(children@),
        }
    }
}

/// Whether no path in the directory, at any depth, is ignored.
pub open spec fn no_reserved(directory: Seq<u8>, entries: Seq<DirEntry>) -> bool
    decreases entries,
{
    if entries.len() == 0 {
        true
    } else {
        let path = child_path(directory, entries.last().name@);
        &&& no_reserved(directory, entries.drop_last())
        &&& !is_ignored_spec(path)
        &&& match entries.last().node {
            Node::File(_) => true,
            Node::Directory(children) => no_reserved(path, children@),
        }
    }
}

/// How many directories are nested in one another, the directory itself
/// counted.
pub open spec fn nesting(entries: Seq<DirEntry>) -> nat
    decreases entries,
{
    if entries.len() == 0 {
        1
    } else {
        let before = nesting(entries.drop_last());
        match entries.last().node {
            Node::File(_) => before,
            Node::Directory(children) => if nesting(children@) + 1 > before {
                nesting(children@) + 1
            } else {
                before
            },
        }
    }
}

/// The stored bytes of the objects that capture the entries of a directory:
/// a blob for each file and a tree for each directory below it.
pub open spec fn entry_objects(directory: Seq<u8>, entries: Seq<DirEntry>) -> Set<Seq<u8>>
    decreases entries, 0nat,
{
    if entries.len() == 0 {
        Set::<Seq<u8>>::empty()
    } else {
        let before = entry_objects(directory, entries.drop_last());
        match entries.last().node {
            Node::File(contents) => before.insert(tagged(ObjectKind::Blob, contents@)),
            Node::Directory(children) => before.union(
                dir_objects(child_path(directory, entries.last().name@), children@),
            ),
        }
    }
}

/// The stored bytes of the objects that capture a directory, its own tree
/// included.
pub open spec fn dir_objects(directory: Seq<u8>, entries: Seq<DirEntry>) -> Set<Seq<u8>>
    decreases entries, 1nat,
{
    entry_objects(directory, entries).insert(
        tagged(ObjectKind::Tree, encode_tree(tree_lines(directory, entries))),
    )
}

/// Whether no two of these objects have the same id.
pub open spec fn hash_separates(objects: Set<Seq<u8>>) -> bool {
    forall|a: Seq<u8>, b: Seq<u8>|
        #![trigger objects.contains(a), objects.contains(b)]
        objects.contains(a) && objects.contains(b) && spec_object_id(a) == spec_object_id(b)
            ==> a == b
}

/// Whether the store holds these bytes under their id.
pub open spec fn held(store: Map<Seq<u8>, Seq<u8>>, object: Seq<u8>) -> bool {
    store.contains_key(spec_object_id(object)) && store[spec_object_id(object)] == object
}

/// The files of a directory: the path of each, which begins with `base`,
/// with its contents. Where two entries give the same path, the later one
/// stays.
pub open spec fn dir_files(base: Seq<u8>, entries: Seq<DirEntry>) -> Map<Seq<u8>, Seq<u8>>
    decreases entries,
{
    if entries.len() == 0 {
        Map::<Seq<u8>, Seq<u8>>::empty()
    } else {
        let before = dir_files(base, entries.drop_last());
        let path = base + entries.last().name@;
        match entries.last().node {
            Node::File(contents) => before.insert(path, contents@),
            Node::Directory(children) => before.union_prefer_right(
                dir_files(path + seq![47u8], children@),
            ),
        }
    }
}

/// The files of a directory: the path of each with the id of its blob.
pub open spec fn dir_blobs(base: Seq<u8>, entries: Seq<DirEntry>) -> Map<Seq<u8>, Seq<u8>>
    decreases entries,
{
    if entries.len() == 0 {
        Map::<Seq<u8>, Seq<u8>>::empty()
    } else {
        let before = dir_blobs(base, entries.drop_last());
        let path = base + entries.last().name@;
        match entries.last().node {
            Node::File(contents) => before.insert(
                path,
                object_id_of(ObjectKind::Blob, contents@),
            ),
            Node::Directory(children) => before.union_prefer_right(
                dir_blobs(path + seq![47u8], children@),
            ),
        }
    }
}

/// Putting one of a set of objects that the hash separates keeps every
/// object of the set that was held, and holds the new one.
pub proof fn lemma_put_holds(
    stored: Map<Seq<u8>, Seq<u8>>,
    kind: ObjectKind,
    payload: Seq<u8>,
    all: Set<Seq<u8>>,
)
    requires
        hash_separates(all),
        all.contains(tagged(kind, payload)),
    ensures
        forall|o: Seq<u8>|
            all.contains(o) && held(stored, o) ==> #[trigger] held(
                objects_with(stored, kind, payload),
                o,
            ),
        held(objects_with(stored, kind, payload), tagged(kind, payload)),
{
    let new = tagged(kind, payload);
    assert forall|o: Seq<u8>| all.contains(o) && held(stored, o) implies #[trigger] held(
        objects_with(stored, kind, payload),
        o,
    ) by {
        if spec_object_id(o) == spec_object_id(new) {
            assert(all.contains(o) && all.contains(new));
        }
    }
}

/// Capturing the entries of a directory keeps what was held and holds the
/// objects of the entries.
pub proof fn lemma_capture_entries_holds(
    objects: Map<Seq<u8>, Seq<u8>>,
    directory: Seq<u8>,
    entries: Seq<DirEntry>,
    all: Set<Seq<u8>>,
)
    requires
        hash_separates(all),
        entry_objects(directory, entries).subset_of(all),
        no_reserved(directory, entries),
    ensures
        forall|o: Seq<u8>|
            all.contains(o) && held(objects, o) ==> #[trigger] held(
                capture_entries(objects, directory, entries),
                o,
            ),
        forall|o: Seq<u8>|
            entry_objects(directory, entries).contains(o) ==> #[trigger] held(
                capture_entries(objects, directory, entries),
                o,
            ),
    decreases entries, 0nat,
{
    if entries.len() != 0 {
        let before = entries.drop_last();
        let entry = entries.last();
        let path = child_path(directory, entry.name@);
        let stored = capture_entries(objects, directory, before);
        let after = capture_entries(objects, directory, entries);
        assert(entry_objects(directory, before).subset_of(all));
        lemma_capture_entries_holds(objects, directory, before, all);
        match entry.node {
            Node::File(contents) => {
                let blob = tagged(ObjectKind::Blob, contents@);
                assert(entry_objects(directory, entries).contains(blob));
                lemma_put_holds(stored, ObjectKind::Blob, contents@, all);
                assert forall|o: Seq<u8>| all.contains(o) && held(objects, o) implies #[trigger] held(
                    after,
                    o,
                ) by {
                    assert(held(stored, o));
                }
                assert forall|o: Seq<u8>|
                    entry_objects(directory, entries).contains(o) implies #[trigger] held(
                    after,
                    o,
                ) by {
                    if o != blob {
                        assert(entry_objects(directory, before).contains(o));
                        assert(held(stored, o));
                    }
                }
            },
            Node::Directory(children) => {
                let below = dir_objects(path, children@);
                assert(below.subset_of(all)) by {
                    assert forall|o: Seq<u8>| below.contains(o) implies all.contains(o) by {
                        assert(entry_objects(directory, entries).contains(o));
                    }
                }
                lemma_capture_holds(stored, path, children@, all);
                assert(after == capture(stored, path, children@));
                assert forall|o: Seq<u8>| all.contains(o) && held(objects, o) implies #[trigger] held(
                    after,
                    o,
                ) by {
                    assert(held(stored, o));
                    assert(held(capture(stored, path, children@), o));
                }
                assert forall|o: Seq<u8>|
                    entry_objects(directory, entries).contains(o) implies #[trigger] held(
                    after,
                    o,
                ) by {
                    if !below.contains(o) {
                        assert(entry_objects(directory, before).contains(o));
                        assert(held(stored, o));
                    }
                    assert(held(capture(stored, path, children@), o));
                }
            },
        }
    }
}

/// Capturing a directory keeps what was held and holds the objects of the
/// directory.
pub proof fn lemma_capture_holds(
    objects: Map<Seq<u8>, Seq<u8>>,
    directory: Seq<u8>,
    entries: Seq<DirEntry>,
    all: Set<Seq<u8>>,
)
    requires
        hash_separates(all),
        dir_objects(directory, entries).subset_of(all),
        no_reserved(directory, entries),
    ensures
        forall|o: Seq<u8>|
            all.contains(o) && held(objects, o) ==> #[trigger] held(
                capture(objects, directory, entries),
                o,
            ),
        forall|o: Seq<u8>|
            dir_objects(directory, entries).contains(o) ==> #[trigger] held(
                capture(objects, directory, entries),
                o,
            ),
    decreases entries, 1nat,
{
    let payload = encode_tree(tree_lines(directory, entries));
    let own = tagged(ObjectKind::Tree, payload);
    let stored = capture_entries(objects, directory, entries);
    let after = capture(objects, directory, entries);
    assert(dir_objects(directory, entries).contains(own));
    assert(entry_objects(directory, entries).subset_of(all)) by {
        assert forall|o: Seq<u8>| entry_objects(directory, entries).contains(o) implies all.contains(
            o,
        ) by {
            assert(dir_objects(directory, entries).contains(o));
        }
    }
    lemma_capture_entries_holds(objects, directory, entries, all);
    lemma_put_holds(stored, ObjectKind::Tree, payload, all);
    assert forall|o: Seq<u8>| all.contains(o) && held(objects, o) implies #[trigger] held(
        after,
        o,
    ) by {
        assert(held(stored, o));
    }
    assert forall|o: Seq<u8>| dir_objects(directory, entries).contains(o) implies #[trigger] held(
        after,
        o,
    ) by {
        if o != own {
            assert(entry_objects(directory, entries).contains(o));
            assert(held(stored, o));
        }
    }
}

/// With plain names, every entry of the tree that captures a directory is
/// storable.
pub proof fn lemma_lines_storable(directory: Seq<u8>, entries: Seq<DirEntry>)
    requires
        plain_names(entries),
    ensures
        forall|i: int|
            0 <= i < tree_lines(directory, entries).len() ==> storable_entry(
                #[trigger] tree_lines(directory, entries)[i],
            ),
    decreases entries,
{
    if entries.len() != 0 {
        lemma_lines_storable(directory, entries.drop_last());
        let entry = entries.last();
        let path = child_path(directory, entry.name@);
        let lines = tree_lines(directory, entries);
        let before = tree_lines(directory, entries.drop_last());
        match entry.node {
            Node::File(contents) => {
                lemma_object_id_shape(tagged(ObjectKind::Blob, contents@));
            },
            Node::Directory(children) => {
                lemma_object_id_shape(
                    tagged(ObjectKind::Tree, encode_tree(tree_lines(path, children@))),
                );
            },
        }
        assert(plain_name(entry.name@));
        assert forall|i: int| 0 <= i < lines.len() implies storable_entry(#[trigger] lines[i]) by {
            if i < before.len() {
                assert(lines[i] == before[i]);
            } else {
                assert(!is_ignored_spec(path));
                assert(lines == before.push(lines[i]));
                assert(lines[i].name == entry.name@);
                match entry.node {
                    Node::File(contents) => {
                        assert(lines[i].oid == object_id_of(ObjectKind::Blob, contents@));
                    },
                    Node::Directory(children) => {
                        assert(lines[i].oid == tree_id(path, children@));
                    },
                }
            }
        }
    }
}

/// A directory has at least itself nested.
pub proof fn lemma_nesting_positive(entries: Seq<DirEntry>)
    ensures
        nesting(entries) >= 1,
    decreases entries,
{
    if entries.len() != 0 {
        lemma_nesting_positive(entries.drop_last());
    }
}

/// In a store that holds the objects of a directory's entries, the entries
/// of its tree list the directory's files with their blobs.
pub proof fn lemma_flatten_lines(
    store: Map<Seq<u8>, Seq<u8>>,
    directory: Seq<u8>,
    entries: Seq<DirEntry>,
    base: Seq<u8>,
    depth: nat,
)
    requires
        plain_names(entries),
        no_reserved(directory, entries),
        forall|o: Seq<u8>| entry_objects(directory, entries).contains(o) ==> held(store, o),
        nesting(entries) <= depth + 1,
    ensures
        flatten_entries(store, tree_lines(directory, entries), base, depth) == Ok::<
            Map<Seq<u8>, Seq<u8>>,
            Error,
        >(dir_blobs(base, entries)),
    decreases entries, 0nat,
{
    if entries.len() != 0 {
        let before = entries.drop_last();
        let entry = entries.last();
        let path = child_path(directory, entry.name@);
        let lines = tree_lines(directory, entries);
        assert forall|o: Seq<u8>| entry_objects(directory, before).contains(o) implies held(
            store,
            o,
        ) by {
            assert(entry_objects(directory, entries).contains(o));
        }
        lemma_flatten_lines(store, directory, before, base, depth);
        assert(lines.drop_last() =~= tree_lines(directory, before));
        let sofar = dir_blobs(base, before);
        match entry.node {
            Node::File(contents) => {
                assert(flatten_entries(store, lines, base, depth) == flatten_step(
                    store,
                    sofar,
                    lines.last(),
                    base,
                    depth,
                ));
            },
            Node::Directory(children) => {
                assert forall|o: Seq<u8>| dir_objects(path, children@).contains(o) implies held(
                    store,
                    o,
                ) by {
                    assert(entry_objects(directory, entries).contains(o));
                }
                lemma_flatten_captured(
                    store,
                    path,
                    children@,
                    base + entry.name@ + seq![47u8],
                    depth,
                );
                assert(flatten_entries(store, lines, base, depth) == flatten_step(
                    store,
                    sofar,
                    lines.last(),
                    base,
                    depth,
                ));
            },
        }
    }
}

/// In a store that holds the objects of a directory, the directory's tree
/// lists the directory's files with their blobs.
pub proof fn lemma_flatten_captured(
    store: Map<Seq<u8>, Seq<u8>>,
    directory: Seq<u8>,
    entries: Seq<DirEntry>,
    base: Seq<u8>,
    depth: nat,
)
    requires
        plain_names(entries),
        no_reserved(directory, entries),
        forall|o: Seq<u8>| dir_objects(directory, entries).contains(o) ==> held(store, o),
        nesting(entries) <= depth,
    ensures
        spec_get_tree(store, tree_id(directory, entries), base, depth) == Ok::<
            Map<Seq<u8>, Seq<u8>>,
            Error,
        >(dir_blobs(base, entries)),
    decreases entries, 1nat,
{
    let lines = tree_lines(directory, entries);
    let payload = encode_tree(lines);
    let own = tagged(ObjectKind::Tree, payload);
    assert(dir_objects(directory, entries).contains(own));
    assert(held(store, own));
    lemma_decode_tagged(ObjectKind::Tree, payload);
    lemma_lines_storable(directory, entries);
    lemma_parse_encoded_tree(lines);
    lemma_nesting_positive(entries);
    assert(spec_tree_entries(store, tree_id(directory, entries)) == Ok::<Seq<EntryModel>, Error>(
        lines,
    ));
    assert forall|o: Seq<u8>| entry_objects(directory, entries).contains(o) implies held(
        store,
        o,
    ) by {
        assert(dir_objects(directory, entries).contains(o));
    }
    lemma_flatten_lines(store, directory, entries, base, (depth - 1) as nat);
}

/// The files of a directory and their blobs have the same paths; each blob
/// is that of the file's contents, and is among the directory's objects.
pub proof fn lemma_files_of_blobs(directory: Seq<u8>, entries: Seq<DirEntry>, base: Seq<u8>)
    ensures
        dir_files(base, entries).dom() == dir_blobs(base, entries).dom(),
        forall|path: Seq<u8>|
            dir_blobs(base, entries).contains_key(path) ==> #[trigger] dir_blobs(
                base,
                entries,
            )[path] == object_id_of(ObjectKind::Blob, dir_files(base, entries)[path])
                && entry_objects(directory, entries).contains(
                tagged(ObjectKind::Blob, dir_files(base, entries)[path]),
            ),
    decreases entries,
{
    if entries.len() == 0 {
        assert(dir_files(base, entries).dom() =~= dir_blobs(base, entries).dom());
    } else {
        let before = entries.drop_last();
        let entry = entries.last();
        let blobs = dir_blobs(base, entries);
        let files = dir_files(base, entries);
        let objects = entry_objects(directory, entries);
        lemma_files_of_blobs(directory, before, base);
        match entry.node {
            Node::File(contents) => {
                assert(files.dom() =~= blobs.dom());
                assert forall|path: Seq<u8>| blobs.contains_key(path) implies #[trigger] blobs[path]
                    == object_id_of(ObjectKind::Blob, files[path]) && objects.contains(
                    tagged(ObjectKind::Blob, files[path]),
                ) by {
                    if path != base + entry.name@ {
                        let id = dir_blobs(base, before)[path];
                        assert(entry_objects(directory, before).contains(
                            tagged(ObjectKind::Blob, dir_files(base, before)[path]),
                        ));
                    }
                }
            },
            Node::Directory(children) => {
                let below = child_path(directory, entry.name@);
                let nested = base + entry.name@ + seq![47u8];
                lemma_files_of_blobs(below, children@, nested);
                assert(files.dom() =~= blobs.dom());
                assert forall|path: Seq<u8>| blobs.contains_key(path) implies #[trigger] blobs[path]
                    == object_id_of(ObjectKind::Blob, files[path]) && objects.contains(
                    tagged(ObjectKind::Blob, files[path]),
                ) by {
                    if dir_blobs(nested, children@).contains_key(path) {
                        let id = dir_blobs(nested, children@)[path];
                        assert(dir_files(nested, children@).dom().contains(path));
                        assert(entry_objects(below, children@).contains(
                            tagged(ObjectKind::Blob, dir_files(nested, children@)[path]),
                        ));
                        assert(dir_objects(below, children@).contains(
                            tagged(ObjectKind::Blob, dir_files(nested, children@)[path]),
                        ));
                    } else {
                        let id = dir_blobs(base, before)[path];
                        assert(!dir_files(nested, children@).dom().contains(path));
                        assert(entry_objects(directory, before).contains(
                            tagged(ObjectKind::Blob, dir_files(base, before)[path]),
                        ));
                    }
                }
            },
        }
    }
}

/// In a store that holds the objects of a directory, restoring the
/// directory's tree gives the directory's files.
pub proof fn lemma_restore_from_held(
    store: Map<Seq<u8>, Seq<u8>>,
    directory: Seq<u8>,
    entries: Seq<DirEntry>,
    depth: nat,
)
    requires
        plain_names(entries),
        no_reserved(directory, entries),
        forall|o: Seq<u8>| dir_objects(directory, entries).contains(o) ==> held(store, o),
        nesting(entries) <= depth,
    ensures
        restores(
            store,
            tree_id(directory, entries),
            depth,
            Ok(dir_files(root_path(), entries)),
        ),
{
    let flat = dir_blobs(root_path(), entries);
    let files = dir_files(root_path(), entries);
    lemma_flatten_captured(store, directory, entries, root_path(), depth);
    lemma_files_of_blobs(directory, entries, root_path());
    assert forall|path: Seq<u8>| flat.contains_key(path) implies spec_blob(
        store,
        #[trigger] flat[path],
    ) == Ok::<Seq<u8>, Error>(files[path]) by {
        let contents = files[path];
        lemma_decode_tagged(ObjectKind::Blob, contents);
        assert(dir_objects(directory, entries).contains(tagged(ObjectKind::Blob, contents)));
        assert(held(store, tagged(ObjectKind::Blob, contents)));
    }
}

/// Restoring the tree that captured a directory gives the directory's
/// files: the same paths below `./` with the same contents. It holds of a
/// directory whose names are plain and none of whose paths is ignored,
/// where the hash separates the directory's objects and trees may be nested
/// as deep as the directory's are.
pub proof fn lemma_capture_then_restore(
    objects: Map<Seq<u8>, Seq<u8>>,
    directory: Seq<u8>,
    entries: Seq<DirEntry>,
    depth: nat,
)
    requires
        plain_names(entries),
        no_reserved(directory, entries),
        hash_separates(dir_objects(directory, entries)),
        nesting(entries) <= depth,
    ensures
        restores(
            capture(objects, directory, entries),
            tree_id(directory, entries),
            depth,
            Ok(dir_files(root_path(), entries)),
        ),
{
    lemma_capture_holds(objects, directory, entries, dir_objects(directory, entries));
    lemma_restore_from_held(capture(objects, directory, entries), directory, entries, depth);
}

} // verus!

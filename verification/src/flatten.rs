//! The flat view of a stored tree: every file's path with the id of its
//! blob, and the files that a tree restores.

use vstd::prelude::*;
use crate::bytemap::{slot_has_key, ByteMap};
use crate::bytes::{append, copy_bytes, find_byte};
use crate::error::Error;
use crate::store::{get_object, spec_get_object, ObjectKind, Repository};
use crate::tree::{entries_view, spec_tree_entries, tree_entries_iterator, EntryKind, EntryModel};

verus! {

/// Whether `name` is a single path segment: it holds no `/`, and is neither
/// `.` nor `..`.
pub open spec fn valid_name(name: Seq<u8>) -> bool {
    !name.contains(47u8) && name != seq![46u8] && name != seq![46u8, 46u8]
}

/// Tests whether `name` is a single path segment.
pub fn is_valid_name(name: &[u8]) -> (yes: bool)
    ensures
        yes == valid_name(name@),
{
    match find_byte(name, 0, 47u8) {
        Some(i) => {
            assert(name@[i as int] == 47u8);
            false
        },
        None => {
            let dot = name.len() == 1 && name[0] == 46u8;
            let dots = name.len() == 2 && name[0] == 46u8 && name[1] == 46u8;
            proof {
                if dot {
                    assert(name@ =~= seq![46u8]);
                }
                if dots {
                    assert(name@ =~= seq![46u8, 46u8]);
                }
                if name@ == seq![46u8] {
                    assert(seq![46u8].len() == 1 && seq![46u8][0] == 46u8);
                }
                if name@ == seq![46u8, 46u8] {
                    assert(seq![46u8, 46u8].len() == 2 && seq![46u8, 46u8][0] == 46u8 && seq![
                        46u8,
                        46u8,
                    ][1] == 46u8);
                }
            }
            !dot && !dots
        },
    }
}

/// The files below the tree stored under `tree_id`: the path of each, which
/// begins with `base`, with the id of its blob. Where two entries give the
/// same path, the later one stays. `depth` bounds how many trees may be
/// nested in one another; a tree nested deeper than that is corrupt.
pub open spec fn spec_get_tree(
    objects: Map<Seq<u8>, Seq<u8>>,
    tree_id: Seq<u8>,
    base: Seq<u8>,
    depth: nat,
) -> Result<Map<Seq<u8>, Seq<u8>>, Error>
    decreases depth, 0nat,
{
    if depth == 0 {
        Err(Error::CorruptObject)
    } else {
        match spec_tree_entries(objects, tree_id) {
            Err(e) => Err(e),
            Ok(entries) => flatten_entries(objects, entries, base, (depth - 1) as nat),
        }
    }
}

/// The files found so far, with those that the entry `e` adds. An entry
/// whose name is no single path segment is refused with `InvalidPath`.
pub open spec fn flatten_step(
    objects: Map<Seq<u8>, Seq<u8>>,
    sofar: Map<Seq<u8>, Seq<u8>>,
    e: EntryModel,
    base: Seq<u8>,
    depth: nat,
) -> Result<Map<Seq<u8>, Seq<u8>>, Error>
    decreases depth, 1nat,
{
    if !valid_name(e.name) {
        Err(Error::InvalidPath)
    } else {
        match e.kind {
            EntryKind::Blob => Ok(sofar.insert(base + e.name, e.oid)),
            EntryKind::Tree => match spec_get_tree(
                objects,
                e.oid,
                base + e.name + seq![47u8],
                depth,
            ) {
                Err(err) => Err(err),
                Ok(below) => Ok(sofar.union_prefer_right(below)),
            },
        }
    }
}

/// The files that a list of entries gives, taken in order; the first entry
/// that fails decides the error.
pub open spec fn flatten_entries(
    objects: Map<Seq<u8>, Seq<u8>>,
    entries: Seq<EntryModel>,
    base: Seq<u8>,
    depth: nat,
) -> Result<Map<Seq<u8>, Seq<u8>>, Error>
    decreases depth, 2 + entries.len(),
{
    if entries.len() == 0 {
        Ok(Map::<Seq<u8>, Seq<u8>>::empty())
    } else {
        match flatten_entries(objects, entries.drop_last(), base, depth) {
            Err(e) => Err(e),
            Ok(sofar) => flatten_step(objects, sofar, entries.last(), base, depth),
        }
    }
}

/// An error among the first `k` entries is the error of the whole list.
pub proof fn lemma_flatten_prefix_error(
    objects: Map<Seq<u8>, Seq<u8>>,
    entries: Seq<EntryModel>,
    base: Seq<u8>,
    depth: nat,
    k: int,
)
    requires
        0 <= k <= entries.len(),
        flatten_entries(objects, entries.take(k), base, depth) is Err,
    ensures
        flatten_entries(objects, entries, base, depth) == flatten_entries(
            objects,
            entries.take(k),
            base,
            depth,
        ),
    decreases entries.len() - k,
{
    if k == entries.len() {
        assert(entries.take(k) =~= entries);
    } else {
        assert(entries.drop_last().take(k) =~= entries.take(k));
        lemma_flatten_prefix_error(objects, entries.drop_last(), base, depth, k);
    }
}

/// A list of entries one of whose names is no single path segment gives no
/// files: listing it fails, and it fails with `InvalidPath` where the
/// entries before that one can be listed.
pub proof fn lemma_invalid_name_fails(
    objects: Map<Seq<u8>, Seq<u8>>,
    entries: Seq<EntryModel>,
    base: Seq<u8>,
    depth: nat,
    k: int,
)
    requires
        0 <= k < entries.len(),
        !valid_name(entries[k].name),
    ensures
        flatten_entries(objects, entries, base, depth) is Err,
        flatten_entries(objects, entries.take(k), base, depth) is Ok ==> flatten_entries(
            objects,
            entries,
            base,
            depth,
        ) == Err::<Map<Seq<u8>, Seq<u8>>, Error>(Error::InvalidPath),
{
    let upto = entries.take(k + 1);
    assert(upto.drop_last() =~= entries.take(k));
    assert(upto.last() == entries[k]);
    match flatten_entries(objects, entries.take(k), base, depth) {
        Err(e) => {
            assert(flatten_entries(objects, upto, base, depth) == Err::<
                Map<Seq<u8>, Seq<u8>>,
                Error,
            >(e));
        },
        Ok(sofar) => {
            assert(flatten_step(objects, sofar, entries[k], base, depth) == Err::<
                Map<Seq<u8>, Seq<u8>>,
                Error,
            >(Error::InvalidPath));
            assert(flatten_entries(objects, upto, base, depth) == flatten_step(
                objects,
                sofar,
                entries[k],
                base,
                depth,
            ));
        },
    }
    lemma_flatten_prefix_error(objects, entries, base, depth, k + 1);
}

/// Whether a map that was computed, or the failure to compute it, agrees
/// with the model.
pub open spec fn map_result_matches(
    got: Result<ByteMap, Error>,
    model: Result<Map<Seq<u8>, Seq<u8>>, Error>,
) -> bool {
    match got {
        Ok(m) => m.wf() && model == Ok::<Map<Seq<u8>, Seq<u8>>, Error>(m@),
        Err(e) => model == Err::<Map<Seq<u8>, Seq<u8>>, Error>(e),
    }
}

fn flatten(repo: &Repository, tree_id: &[u8], base: &[u8], depth: usize) -> (got: Result<
    ByteMap,
    Error,
>)
    requires
        repo.wf(),
    ensures
        map_result_matches(got, spec_get_tree(repo.objects@, tree_id@, base@, depth as nat)),
    decreases depth,
{
    if depth == 0 {
        return Err(Error::CorruptObject);
    }
    let entries = match tree_entries_iterator(repo, tree_id) {
        Err(e) => {
            return Err(e);
        },
        Ok(entries) => entries,
    };
    let ghost objects = repo.objects@;
    let ghost all = entries_view(entries@);
    let ghost below = (depth - 1) as nat;
    let mut tree = ByteMap::new();
    let mut i: usize = 0;
    assert(all.take(0) =~= Seq::<EntryModel>::empty());
    while i < entries.len()
        invariant
            repo.wf(),
            objects == repo.objects@,
            all == entries_view(entries@),
            spec_tree_entries(objects, tree_id@) == Ok::<Seq<EntryModel>, Error>(all),
            below == depth - 1,
            depth > 0,
            i <= entries@.len(),
            tree.wf(),
            flatten_entries(objects, all.take(i as int), base@, below) == Ok::<
                Map<Seq<u8>, Seq<u8>>,
                Error,
            >(tree@),
        decreases entries@.len() - i,
    {
        let entry = &entries[i];
        let ghost e = all[i as int];
        let ghost sofar = tree@;
        proof {
            assert(all.take(i + 1).drop_last() =~= all.take(i as int));
            assert(all.take(i + 1).last() == e);
            assert(e == entry@);
            assert(flatten_entries(objects, all.take(i + 1), base@, below) == flatten_step(
                objects,
                sofar,
                e,
                base@,
                below,
            ));
        }
        if !is_valid_name(entry.name.as_slice()) {
            proof {
                lemma_flatten_prefix_error(objects, all, base@, below, i + 1);
            }
            return Err(Error::InvalidPath);
        }
        let mut path = copy_bytes(base);
        append(&mut path, entry.name.as_slice());
        match entry.kind {
            EntryKind::Blob => {
                let oid = copy_bytes(entry.oid.as_slice());
                tree.insert(path, oid);
            },
            EntryKind::Tree => {
                path.push(47u8);
                assert(path@ =~= base@ + e.name + seq![47u8]);
                match flatten(repo, entry.oid.as_slice(), path.as_slice(), depth - 1) {
                    Err(err) => {
                        proof {
                            lemma_flatten_prefix_error(objects, all, base@, below, i + 1);
                        }
                        return Err(err);
                    },
                    Ok(subtree) => {
                        tree.extend(&subtree);
                    },
                }
            },
        }
        i += 1;
    }
    assert(all.take(entries@.len() as int) =~= all);
    Ok(tree)
}

/// Lists the files below the tree stored under `tree_id`, each path
/// beginning with `base_path`, with the id of its blob. Trees may be nested
/// as deep as there are objects in the store, which no store without a
/// cycle exceeds.
pub fn get_tree(repo: &Repository, tree_id: &[u8], base_path: &[u8]) -> (got: Result<
    ByteMap,
    Error,
>)
    requires
        repo.wf(),
    ensures
        map_result_matches(
            got,
            spec_get_tree(repo.objects@, tree_id@, base_path@, repo.objects.count()),
        ),
{
    flatten(repo, tree_id, base_path, repo.objects.len())
}

/// The path of the working directory itself, `./`, with which the path of
/// every restored file begins.
pub open spec fn root_path() -> Seq<u8> {
    seq![46u8, 47u8]
}

/// The contents of the blob stored under `oid`. A blob that is missing or
/// unreadable is corrupt.
pub open spec fn spec_blob(objects: Map<Seq<u8>, Seq<u8>>, oid: Seq<u8>) -> Result<
    Seq<u8>,
    Error,
> {
    match spec_get_object(objects, oid, Some(ObjectKind::Blob)) {
        Err(Error::NotFound) => Err(Error::CorruptObject),
        Err(e) => Err(e),
        Ok((_, contents)) => Ok(contents),
    }
}

/// Whether `got` is what restoring the tree stored under `tree_id` gives:
/// the files below the tree, each path with the contents of its blob. It
/// fails as listing the tree fails, or else with the error of one of the
/// blobs that cannot be read, and succeeds where there is neither.
pub open spec fn restores(
    objects: Map<Seq<u8>, Seq<u8>>,
    tree_id: Seq<u8>,
    depth: nat,
    got: Result<Map<Seq<u8>, Seq<u8>>, Error>,
) -> bool {
    match spec_get_tree(objects, tree_id, root_path(), depth) {
        Err(e) => got == Err::<Map<Seq<u8>, Seq<u8>>, Error>(e),
        Ok(flat) => match got {
            Ok(files) => files.dom() == flat.dom() && forall|path: Seq<u8>|
                flat.contains_key(path) ==> spec_blob(objects, #[trigger] flat[path]) == Ok::<
                    Seq<u8>,
                    Error,
                >(files[path]),
            Err(e) => exists|path: Seq<u8>|
                flat.contains_key(path) && spec_blob(objects, #[trigger] flat[path]) == Err::<
                    Seq<u8>,
                    Error,
                >(e),
        },
    }
}

/// The model of a result that holds a map.
pub open spec fn map_result_view(got: Result<ByteMap, Error>) -> Result<
    Map<Seq<u8>, Seq<u8>>,
    Error,
> {
    match got {
        Ok(m) => Ok(m@),
        Err(e) => Err(e),
    }
}

/// Reads the contents of the blob stored under `oid`.
pub fn get_blob(repo: &Repository, oid: &[u8]) -> (got: Result<Vec<u8>, Error>)
    requires
        repo.wf(),
    ensures
        match got {
            Ok(contents) => spec_blob(repo.objects@, oid@) == Ok::<Seq<u8>, Error>(contents@),
            Err(e) => spec_blob(repo.objects@, oid@) == Err::<Seq<u8>, Error>(e),
        },
{
    match get_object(repo, oid, Some(ObjectKind::Blob)) {
        Err(Error::NotFound) => Err(Error::CorruptObject),
        Err(e) => Err(e),
        Ok(object) => Ok(object.payload),
    }
}

/// Computes the files that the working directory holds once the tree
/// stored under `tree_id` is restored: each path, which begins with `./`,
/// with the file's contents. Nothing is written where it fails.
pub fn read_tree(repo: &Repository, tree_id: &[u8]) -> (got: Result<ByteMap, Error>)
    requires
        repo.wf(),
    ensures
        got matches Ok(files) ==> files.wf(),
        restores(repo.objects@, tree_id@, repo.objects.count(), map_result_view(got)),
{
    let root = vec![46u8, 47u8];
    assert(root@ =~= root_path());
    let flat = match get_tree(repo, tree_id, root.as_slice()) {
        Err(e) => {
            return Err(e);
        },
        Ok(flat) => flat,
    };
    let ghost objects = repo.objects@;
    let mut files = ByteMap::new();
    let mut i: usize = 0;
    while i < flat.len()
        invariant
            repo.wf(),
            flat.wf(),
            files.wf(),
            objects == repo.objects@,
            spec_get_tree(objects, tree_id@, root_path(), repo.objects.count()) == Ok::<
                Map<Seq<u8>, Seq<u8>>,
                Error,
            >(flat@),
            i <= flat.count(),
            forall|j: int| 0 <= j < i ==> files@.contains_key(#[trigger] flat.slots()[j].key@),
            forall|path: Seq<u8>| #[trigger]
                files@.contains_key(path) ==> flat@.contains_key(path) && spec_blob(
                    objects,
                    flat@[path],
                ) == Ok::<Seq<u8>, Error>(files@[path]),
        decreases flat.count() - i,
    {
        let slot = flat.slot(i);
        match get_blob(repo, slot.value.as_slice()) {
            Err(e) => {
                assert(flat@.contains_key(slot.key@) && spec_blob(objects, flat@[slot.key@])
                    == Err::<Seq<u8>, Error>(e));
                return Err(e);
            },
            Ok(contents) => {
                let path = copy_bytes(slot.key.as_slice());
                files.insert(path, contents);
            },
        }
        i += 1;
    }
    proof {
        assert forall|path: Seq<u8>| flat@.contains_key(path) implies files@.contains_key(
            path,
        ) by {
            let j = choose|j: int| slot_has_key(flat.slots(), j, path);
            assert(files@.contains_key(flat.slots()[j].key@));
        }
        assert(files@.dom() =~= flat@.dom());
    }
    Ok(files)
}

} // verus!

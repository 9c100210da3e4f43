//! A store that holds a captured directory has at least as many objects as
//! the directory has directories nested in one another, so that restoring
//! the directory never runs into the bound on nesting.

use vstd::prelude::*;
use vstd::set_lib::lemma_len_subset;
use crate::commit::spec_get_commit;
use crate::flatten::{restores, root_path};
use crate::hash::{is_object_id, spec_object_id};
use crate::history::{here, lemma_commit_then_get_commit, new_commit_payload};
use crate::resolve::head_name;
use crate::roundtrip::{dir_files, dir_objects, entry_objects, hash_separates, held,
    lemma_capture_holds, lemma_lines_storable, lemma_nesting_positive, lemma_put_holds,
    lemma_restore_from_held, nesting, no_reserved, plain_names};
use crate::store::{lemma_tagged_injective, object_id_of, objects_with, tagged, ObjectKind};
use crate::tree::{encode_tree, lemma_parse_encoded_tree};
use crate::worktree::{capture, capture_entries, child_path, tree_id, tree_lines, DirEntry, Node};

verus! {

/// The stored bytes of a directory's own tree.
pub open spec fn own_tree(directory: Seq<u8>, entries: Seq<DirEntry>) -> Seq<u8> {
    tagged(ObjectKind::Tree, encode_tree(tree_lines(directory, entries)))
}

/// Two directories with the same tree entries nest equally deep.
proof fn lemma_same_lines_same_nesting(
    d1: Seq<u8>,
    e1: Seq<DirEntry>,
    d2: Seq<u8>,
    e2: Seq<DirEntry>,
    all: Set<Seq<u8>>,
)
    requires
        hash_separates(all),
        plain_names(e1),
        plain_names(e2),
        no_reserved(d1, e1),
        no_reserved(d2, e2),
        entry_objects(d1, e1).subset_of(all),
        entry_objects(d2, e2).subset_of(all),
        tree_lines(d1, e1) == tree_lines(d2, e2),
    ensures
        nesting(e1) == nesting(e2),
    decreases e1, 0nat,
{
    let l1 = tree_lines(d1, e1);
    let l2 = tree_lines(d2, e2);
    if e1.len() == 0 {
        if e2.len() != 0 {
            assert(l2.len() > 0);
        }
    } else if e2.len() == 0 {
        assert(l1.len() > 0);
    } else {
        let b1 = e1.drop_last();
        let b2 = e2.drop_last();
        let p1 = child_path(d1, e1.last().name@);
        let p2 = child_path(d2, e2.last().name@);
        assert(tree_lines(d1, b1) =~= l1.drop_last());
        assert(tree_lines(d2, b2) =~= l2.drop_last());
        assert(l1.last() == l2.last());
        assert(entry_objects(d1, b1).subset_of(all));
        assert(entry_objects(d2, b2).subset_of(all));
        lemma_same_lines_same_nesting(d1, b1, d2, b2, all);
        match e1.last().node {
            Node::File(_) => {
                match e2.last().node {
                    Node::File(_) => {},
                    Node::Directory(_) => {
                        assert(l1.last().kind != l2.last().kind);
                    },
                }
            },
            Node::Directory(c1) => {
                match e2.last().node {
                    Node::File(_) => {
                        assert(l1.last().kind != l2.last().kind);
                    },
                    Node::Directory(c2) => {
                        let o1 = own_tree(p1, c1@);
                        let o2 = own_tree(p2, c2@);
                        assert(l1.last().oid == tree_id(p1, c1@));
                        assert(l2.last().oid == tree_id(p2, c2@));
                        assert(dir_objects(p1, c1@).contains(o1));
                        assert(dir_objects(p2, c2@).contains(o2));
                        assert(entry_objects(d1, e1).contains(o1));
                        assert(entry_objects(d2, e2).contains(o2));
                        assert(all.contains(o1) && all.contains(o2));
                        assert(spec_object_id(o1) == spec_object_id(o2));
                        lemma_tagged_injective(
                            ObjectKind::Tree,
                            encode_tree(tree_lines(p1, c1@)),
                            ObjectKind::Tree,
                            encode_tree(tree_lines(p2, c2@)),
                        );
                        assert(dir_objects(p1, c1@).subset_of(all)) by {
                            assert forall|o: Seq<u8>| dir_objects(p1, c1@).contains(
                                o,
                            ) implies all.contains(o) by {
                                assert(entry_objects(d1, e1).contains(o));
                            }
                        }
                        assert(dir_objects(p2, c2@).subset_of(all)) by {
                            assert forall|o: Seq<u8>| dir_objects(p2, c2@).contains(
                                o,
                            ) implies all.contains(o) by {
                                assert(entry_objects(d2, e2).contains(o));
                            }
                        }
                        lemma_same_tree_same_nesting(p1, c1@, p2, c2@, all);
                    },
                }
            },
        }
    }
}

/// Two directories with the same tree nest equally deep.
proof fn lemma_same_tree_same_nesting(
    d1: Seq<u8>,
    e1: Seq<DirEntry>,
    d2: Seq<u8>,
    e2: Seq<DirEntry>,
    all: Set<Seq<u8>>,
)
    requires
        hash_separates(all),
        plain_names(e1),
        plain_names(e2),
        no_reserved(d1, e1),
        no_reserved(d2, e2),
        dir_objects(d1, e1).subset_of(all),
        dir_objects(d2, e2).subset_of(all),
        encode_tree(tree_lines(d1, e1)) == encode_tree(tree_lines(d2, e2)),
    ensures
        nesting(e1) == nesting(e2),
    decreases e1, 1nat,
{
    lemma_lines_storable(d1, e1);
    lemma_lines_storable(d2, e2);
    lemma_parse_encoded_tree(tree_lines(d1, e1));
    lemma_parse_encoded_tree(tree_lines(d2, e2));
    assert(entry_objects(d1, e1).subset_of(all)) by {
        assert forall|o: Seq<u8>| entry_objects(d1, e1).contains(o) implies all.contains(o) by {
            assert(dir_objects(d1, e1).contains(o));
        }
    }
    assert(entry_objects(d2, e2).subset_of(all)) by {
        assert forall|o: Seq<u8>| entry_objects(d2, e2).contains(o) implies all.contains(o) by {
            assert(dir_objects(d2, e2).contains(o));
        }
    }
    lemma_same_lines_same_nesting(d1, e1, d2, e2, all);
}

/// The directory directly below this one that nests deepest, with its
/// path, if any directory is below this one.
pub open spec fn deepest_child(directory: Seq<u8>, entries: Seq<DirEntry>) -> Option<
    (Seq<u8>, Seq<DirEntry>),
>
    decreases entries,
{
    if entries.len() == 0 {
        None
    } else {
        let before = deepest_child(directory, entries.drop_last());
        match entries.last().node {
            Node::File(_) => before,
            Node::Directory(children) => if nesting(children@) + 1 > nesting(
                entries.drop_last(),
            ) {
                Some((child_path(directory, entries.last().name@), children@))
            } else {
                before
            },
        }
    }
}

/// A directory that nests deeper than itself has a deepest child, which
/// nests one less deep and whose objects are among the directory's.
proof fn lemma_deepest_child(directory: Seq<u8>, entries: Seq<DirEntry>)
    requires
        plain_names(entries),
        no_reserved(directory, entries),
        nesting(entries) > 1,
    ensures
        deepest_child(directory, entries) matches Some((path, children)) && nesting(children)
            + 1 == nesting(entries) && plain_names(children) && no_reserved(path, children)
            && dir_objects(path, children).subset_of(entry_objects(directory, entries)),
    decreases entries,
{
    if entries.len() != 0 {
        let before = entries.drop_last();
        lemma_nesting_positive(before);
        let inherit = match entries.last().node {
            Node::File(_) => true,
            Node::Directory(children) => !(nesting(children@) + 1 > nesting(before)),
        };
        if inherit {
            lemma_deepest_child(directory, before);
            let found = deepest_child(directory, before)->0;
            assert forall|o: Seq<u8>| dir_objects(found.0, found.1).contains(
                o,
            ) implies entry_objects(directory, entries).contains(o) by {
                assert(entry_objects(directory, before).contains(o));
            }
        }
    }
}

/// The directories on the way down from a directory through its deepest
/// children, the directory itself first, as far as `n` of them.
pub open spec fn chain(directory: Seq<u8>, entries: Seq<DirEntry>, n: nat) -> Seq<
    (Seq<u8>, Seq<DirEntry>),
>
    decreases n,
{
    if n == 0 {
        Seq::<(Seq<u8>, Seq<DirEntry>)>::empty()
    } else {
        seq![(directory, entries)] + match deepest_child(directory, entries) {
            Some((path, children)) => chain(path, children, (n - 1) as nat),
            None => Seq::<(Seq<u8>, Seq<DirEntry>)>::empty(),
        }
    }
}

/// The chain of a directory holds as many directories as it nests deep;
/// each nests one less deep than the one before it, and the objects of each
/// are among the directory's.
proof fn lemma_chain(directory: Seq<u8>, entries: Seq<DirEntry>, n: nat)
    requires
        plain_names(entries),
        no_reserved(directory, entries),
        n <= nesting(entries),
    ensures
        chain(directory, entries, n).len() == n,
        forall|i: int|
            0 <= i < n ==> {
                let link = #[trigger] chain(directory, entries, n)[i];
                &&& plain_names(link.1)
                &&& no_reserved(link.0, link.1)
                &&& dir_objects(link.0, link.1).subset_of(dir_objects(directory, entries))
                &&& nesting(link.1) == nesting(entries) - i
            },
    decreases n,
{
    if n == 1 {
        match deepest_child(directory, entries) {
            Some((path, children)) => {
                assert(chain(path, children, 0).len() == 0);
            },
            None => {},
        }
    } else if n > 1 {
        lemma_deepest_child(directory, entries);
        let (path, children) = deepest_child(directory, entries)->0;
        let below = chain(path, children, (n - 1) as nat);
        let whole = chain(directory, entries, n);
        lemma_chain(path, children, (n - 1) as nat);
        assert(whole =~= seq![(directory, entries)] + below);
        assert forall|i: int| 0 <= i < n implies {
            let link = #[trigger] whole[i];
            &&& plain_names(link.1)
            &&& no_reserved(link.0, link.1)
            &&& dir_objects(link.0, link.1).subset_of(dir_objects(directory, entries))
            &&& nesting(link.1) == nesting(entries) - i
        } by {
            if i > 0 {
                let link = below[i - 1];
                assert(whole[i] == link);
                assert forall|o: Seq<u8>| dir_objects(link.0, link.1).contains(
                    o,
                ) implies dir_objects(directory, entries).contains(o) by {
                    assert(dir_objects(path, children).contains(o));
                    assert(entry_objects(directory, entries).contains(o));
                }
            }
        }
    }
}

/// A finite store that holds the objects of a directory has at least as
/// many objects as the directory nests deep, where the directory's names are
/// plain, none of its paths is ignored and the hash separates its objects.
pub proof fn lemma_nesting_within_store(
    store: Map<Seq<u8>, Seq<u8>>,
    directory: Seq<u8>,
    entries: Seq<DirEntry>,
)
    requires
        plain_names(entries),
        no_reserved(directory, entries),
        hash_separates(dir_objects(directory, entries)),
        forall|o: Seq<u8>| dir_objects(directory, entries).contains(o) ==> held(store, o),
        store.dom().finite(),
    ensures
        nesting(entries) <= store.dom().len(),
{
    let n = nesting(entries);
    let all = dir_objects(directory, entries);
    let links = chain(directory, entries, n);
    lemma_chain(directory, entries, n);
    let ids = Seq::new(n, |i: int| spec_object_id(own_tree(links[i].0, links[i].1)));
    assert forall|i: int, j: int| 0 <= i < n && 0 <= j < n && i != j implies ids[i]
        != ids[j] by {
        let a = links[i];
        let b = links[j];
        let oa = own_tree(a.0, a.1);
        let ob = own_tree(b.0, b.1);
        assert(dir_objects(a.0, a.1).contains(oa));
        assert(dir_objects(b.0, b.1).contains(ob));
        assert(all.contains(oa) && all.contains(ob));
        if ids[i] == ids[j] {
            assert(oa == ob);
            lemma_tagged_injective(
                ObjectKind::Tree,
                encode_tree(tree_lines(a.0, a.1)),
                ObjectKind::Tree,
                encode_tree(tree_lines(b.0, b.1)),
            );
            lemma_same_tree_same_nesting(a.0, a.1, b.0, b.1, all);
        }
    }
    assert(ids.no_duplicates());
    ids.unique_seq_to_set();
    assert(ids.to_set().subset_of(store.dom())) by {
        assert forall|id: Seq<u8>| ids.to_set().contains(id) implies store.dom().contains(id) by {
            let i = choose|i: int| 0 <= i < ids.len() && ids[i] == id;
            let link = links[i];
            let own = own_tree(link.0, link.1);
            assert(dir_objects(link.0, link.1).contains(own));
            assert(all.contains(own));
            assert(held(store, own));
        }
    }
    lemma_len_subset(ids.to_set(), store.dom());
}

/// Capturing a directory and restoring its tree from the same store gives
/// the directory's files: the same paths below `./` with the same contents,
/// with trees nested as deep as the store has objects. It holds of a
/// directory whose names are plain and none of whose paths is ignored,
/// where the hash separates the directory's objects.
pub proof fn lemma_write_tree_then_read_tree(
    objects: Map<Seq<u8>, Seq<u8>>,
    directory: Seq<u8>,
    entries: Seq<DirEntry>,
)
    requires
        plain_names(entries),
        no_reserved(directory, entries),
        hash_separates(dir_objects(directory, entries)),
        objects.dom().finite(),
    ensures
        restores(
            capture(objects, directory, entries),
            tree_id(directory, entries),
            capture(objects, directory, entries).dom().len(),
            Ok(dir_files(root_path(), entries)),
        ),
{
    let store = capture(objects, directory, entries);
    lemma_capture_holds(objects, directory, entries, dir_objects(directory, entries));
    lemma_capture_finite(objects, directory, entries);
    lemma_nesting_within_store(store, directory, entries);
    lemma_restore_from_held(store, directory, entries, store.dom().len());
}

/// Checking out the commit that was just recorded gives the files of the
/// directory that was committed: the commit is read back with the
/// directory's tree, and restoring that tree gives the same paths below
/// `./` with the same contents. It holds under the conditions of
/// `lemma_write_tree_then_read_tree`, the new commit counted among the
/// objects that the hash separates, where `HEAD` was unset or held an
/// object id.
pub proof fn lemma_commit_then_checkout(
    objects: Map<Seq<u8>, Seq<u8>>,
    refs: Map<Seq<u8>, Seq<u8>>,
    entries: Seq<DirEntry>,
    message: Seq<u8>,
)
    requires
        plain_names(entries),
        no_reserved(here(), entries),
        hash_separates(
            dir_objects(here(), entries).insert(
                tagged(ObjectKind::Commit, new_commit_payload(refs, entries, message)),
            ),
        ),
        objects.dom().finite(),
        refs.contains_key(head_name()) ==> is_object_id(refs[head_name()]),
    ensures
        ({
            let payload = new_commit_payload(refs, entries, message);
            let store = objects_with(
                capture(objects, here(), entries),
                ObjectKind::Commit,
                payload,
            );
            &&& spec_get_commit(store, object_id_of(ObjectKind::Commit, payload)) matches Ok(c)
                && c.tree == tree_id(here(), entries)
            &&& restores(
                store,
                tree_id(here(), entries),
                store.dom().len(),
                Ok(dir_files(root_path(), entries)),
            )
        }),
{
    let payload = new_commit_payload(refs, entries, message);
    let all = dir_objects(here(), entries).insert(tagged(ObjectKind::Commit, payload));
    let captured = capture(objects, here(), entries);
    let store = objects_with(captured, ObjectKind::Commit, payload);
    lemma_commit_then_get_commit(objects, refs, entries, message);
    assert(dir_objects(here(), entries).subset_of(all));
    lemma_capture_holds(objects, here(), entries, all);
    lemma_put_holds(captured, ObjectKind::Commit, payload, all);
    assert forall|o: Seq<u8>| dir_objects(here(), entries).contains(o) implies held(store, o) by {
        assert(all.contains(o));
        assert(held(captured, o));
    }
    lemma_capture_finite(objects, here(), entries);
    lemma_nesting_within_store(store, here(), entries);
    lemma_restore_from_held(store, here(), entries, store.dom().len());
}

/// Capturing a directory keeps a finite store finite.
pub proof fn lemma_capture_finite(
    objects: Map<Seq<u8>, Seq<u8>>,
    directory: Seq<u8>,
    entries: Seq<DirEntry>,
)
    requires
        objects.dom().finite(),
    ensures
        capture(objects, directory, entries).dom().finite(),
        capture_entries(objects, directory, entries).dom().finite(),
    decreases entries,
{
    if entries.len() != 0 {
        lemma_capture_finite(objects, directory, entries.drop_last());
        match entries.last().node {
            Node::File(_) => {},
            Node::Directory(children) => {
                lemma_capture_finite(
                    capture_entries(objects, directory, entries.drop_last()),
                    child_path(directory, entries.last().name@),
                    children@,
                );
            },
        }
    }
}

} // verus!

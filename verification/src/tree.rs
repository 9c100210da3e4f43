//! Trees: a directory snapshot as a list of named references to blobs and
//! to other trees, and the flat view of a stored tree.

use vstd::prelude::*;
use crate::bytes::{append, bytes_eq, copy_range, find_byte, first_position,
    lemma_first_position_is};
use crate::error::Error;
use crate::hash::{has_object_id_shape, is_object_id};
use crate::store::{blob_tag, get_object, spec_get_object, tree_tag, ObjectKind, Repository};

verus! {

/// What a tree entry refers to.
#[derive(Clone, Copy, Debug, PartialEq, Eq, Structural)]
pub enum EntryKind {
    Blob,
    Tree,
}

/// One entry of a tree, as it is read from the store.
pub struct TreeEntry {
    pub kind: EntryKind,
    pub oid: Vec<u8>,
    pub name: Vec<u8>,
}

/// What a tree entry says: the kind and id of an object, and its name.
pub struct EntryModel {
    pub kind: EntryKind,
    pub oid: Seq<u8>,
    pub name: Seq<u8>,
}

impl View for TreeEntry {
    type V = EntryModel;

    open spec fn view(&self) -> EntryModel {
        EntryModel { kind: self.kind, oid: self.oid@, name: self.name@ }
    }
}

/// The models of a list of entries, in order.
pub open spec fn entries_view(entries: Seq<TreeEntry>) -> Seq<EntryModel> {
    Seq::new(entries.len(), |i: int| entries[i]@)
}

/// The text that marks an entry of the given kind.
pub open spec fn entry_tag(kind: EntryKind) -> Seq<u8> {
    match kind {
        EntryKind::Blob => blob_tag(),
        EntryKind::Tree => tree_tag(),
    }
}

/// The entry kind that a tag names, if it names one.
pub open spec fn entry_kind_of(tag: Seq<u8>) -> Option<EntryKind> {
    if tag == blob_tag() {
        Some(EntryKind::Blob)
    } else if tag == tree_tag() {
        Some(EntryKind::Tree)
    } else {
        None
    }
}

/// The line of an entry: kind, id and name with a space between them, and a
/// line feed.
pub open spec fn entry_line(e: EntryModel) -> Seq<u8> {
    entry_tag(e.kind) + seq![32u8] + e.oid + seq![32u8] + e.name + seq![10u8]
}

/// The payload of a tree: the lines of its entries, in order.
pub open spec fn encode_tree(entries: Seq<EntryModel>) -> Seq<u8>
    decreases entries.len(),
{
    if entries.len() == 0 {
        Seq::<u8>::empty()
    } else {
        encode_tree(entries.drop_last()) + entry_line(entries.last())
    }
}

/// The entry that a line without its line feed holds, if it is one: the
/// kind ends at the first space, the id at the second, and the name is
/// everything after that, spaces included. The id has the shape of an
/// object id and the name is not empty.
pub open spec fn parse_entry(line: Seq<u8>) -> Option<EntryModel> {
    let a = first_position(line, 32u8);
    let rest = line.skip(a + 1);
    let b = first_position(rest, 32u8);
    if a < line.len() && b < rest.len() {
        let oid = rest.take(b);
        let name = rest.skip(b + 1);
        match entry_kind_of(line.take(a)) {
            Some(kind) => if is_object_id(oid) && name.len() > 0 {
                Some(EntryModel { kind, oid, name })
            } else {
                None
            },
            None => None,
        }
    } else {
        None
    }
}

/// The entries that a payload holds, if it is a tree: every line ends in a
/// line feed and is an entry.
pub open spec fn spec_parse_tree(payload: Seq<u8>) -> Option<Seq<EntryModel>>
    decreases payload.len(),
{
    if payload.len() == 0 {
        Some(Seq::<EntryModel>::empty())
    } else {
        let n = first_position(payload, 10u8);
        if 0 <= n < payload.len() {
            match parse_entry(payload.take(n)) {
                Some(e) => match spec_parse_tree(payload.skip(n + 1)) {
                    Some(rest) => Some(seq![e] + rest),
                    None => None,
                },
                None => None,
            }
        } else {
            None
        }
    }
}

fn entry_kind_from_tag(tag: &[u8]) -> (kind: Option<EntryKind>)
    ensures
        kind == entry_kind_of(tag@),
{
    let blob = vec![98u8, 108u8, 111u8, 98u8];
    let tree = vec![116u8, 114u8, 101u8, 101u8];
    assert(blob@ =~= blob_tag());
    assert(tree@ =~= tree_tag());
    if bytes_eq(tag, blob.as_slice()) {
        Some(EntryKind::Blob)
    } else if bytes_eq(tag, tree.as_slice()) {
        Some(EntryKind::Tree)
    } else {
        None
    }
}

fn parse_entry_line(line: &[u8]) -> (entry: Option<TreeEntry>)
    ensures
        match entry {
            Some(e) => parse_entry(line@) == Some(e@),
            None => parse_entry(line@) is None,
        },
{
    let total: usize = line.len();
    let a = match find_byte(line, 0, 32u8) {
        None => {
            proof {
                lemma_first_position_is(line@, 32u8, line@.len() as int);
            }
            return None;
        },
        Some(a) => a,
    };
    proof {
        lemma_first_position_is(line@, 32u8, a as int);
    }
    let ghost rest = line@.skip(a + 1);
    let b = match find_byte(line, a + 1, 32u8) {
        None => {
            proof {
                lemma_first_position_is(rest, 32u8, rest.len() as int);
            }
            return None;
        },
        Some(b) => b,
    };
    proof {
        lemma_first_position_is(rest, 32u8, b - (a + 1));
    }
    let tag = copy_range(line, 0, a);
    let oid = copy_range(line, a + 1, b);
    let name = copy_range(line, b + 1, total);
    assert(tag@ =~= line@.take(a as int));
    assert(oid@ =~= rest.take(b - (a + 1)));
    assert(name@ =~= rest.skip(b - (a + 1) + 1));
    match entry_kind_from_tag(tag.as_slice()) {
        None => None,
        Some(kind) => {
            if has_object_id_shape(oid.as_slice()) && name.len() > 0 {
                Some(TreeEntry { kind, oid, name })
            } else {
                None
            }
        },
    }
}

/// Joins the entries read so far with what the rest of the payload holds.
pub open spec fn entries_then(sofar: Seq<EntryModel>, rest: Option<Seq<EntryModel>>) -> Option<
    Seq<EntryModel>,
> {
    match rest {
        Some(more) => Some(sofar + more),
        None => None,
    }
}

/// Reads a payload as a tree. Fails with `CorruptObject` on every payload
/// that is not a sequence of entry lines.
pub fn parse_tree(payload: &[u8]) -> (parsed: Result<Vec<TreeEntry>, Error>)
    ensures
        match parsed {
            Ok(entries) => spec_parse_tree(payload@) == Some(entries_view(entries@)),
            Err(e) => e == Error::CorruptObject && spec_parse_tree(payload@) is None,
        },
{
    let total: usize = payload.len();
    let mut entries: Vec<TreeEntry> = Vec::new();
    let mut pos: usize = 0;
    assert(payload@.skip(0) =~= payload@);
    proof {
        let whole = spec_parse_tree(payload@);
        if whole is Some {
            assert(entries_view(entries@) + whole->0 =~= whole->0);
        }
    }
    while pos < total
        invariant
            total == payload@.len(),
            pos <= total,
            spec_parse_tree(payload@) == entries_then(
                entries_view(entries@),
                spec_parse_tree(payload@.skip(pos as int)),
            ),
        decreases total - pos,
    {
        let ghost rest = payload@.skip(pos as int);
        let ghost sofar = entries_view(entries@);
        match find_byte(payload, pos, 10u8) {
            None => {
                proof {
                    lemma_first_position_is(rest, 10u8, rest.len() as int);
                }
                return Err(Error::CorruptObject);
            },
            Some(end) => {
                proof {
                    lemma_first_position_is(rest, 10u8, end - pos);
                }
                let line = copy_range(payload, pos, end);
                assert(line@ =~= rest.take(end - pos));
                assert(rest.skip(end - pos + 1) =~= payload@.skip(end + 1));
                match parse_entry_line(line.as_slice()) {
                    None => {
                        return Err(Error::CorruptObject);
                    },
                    Some(entry) => {
                        let ghost e = entry@;
                        entries.push(entry);
                        proof {
                            assert(entries_view(entries@) =~= sofar.push(e));
                            let tail = spec_parse_tree(payload@.skip(end + 1));
                            if tail is Some {
                                assert(sofar + (seq![e] + tail->0) =~= sofar.push(e) + tail->0);
                            }
                        }
                        pos = end + 1;
                    },
                }
            },
        }
    }
    assert(entries_view(entries@) + Seq::<EntryModel>::empty() =~= entries_view(entries@));
    Ok(entries)
}

/// The line of one entry.
pub fn entry_line_bytes(kind: EntryKind, oid: &[u8], name: &[u8]) -> (line: Vec<u8>)
    ensures
        line@ == entry_line(EntryModel { kind, oid: oid@, name: name@ }),
{
    let mut line = match kind {
        EntryKind::Blob => vec![98u8, 108u8, 111u8, 98u8],
        EntryKind::Tree => vec![116u8, 114u8, 101u8, 101u8],
    };
    assert(line@ =~= entry_tag(kind));
    line.push(32u8);
    append(&mut line, oid);
    line.push(32u8);
    append(&mut line, name);
    line.push(10u8);
    assert(line@ =~= entry_line(EntryModel { kind, oid: oid@, name: name@ }));
    line
}

/// What reading the entries of the tree stored under `tree_id` gives. A
/// tree that is missing or is no sequence of entry lines is corrupt.
pub open spec fn spec_tree_entries(objects: Map<Seq<u8>, Seq<u8>>, tree_id: Seq<u8>) -> Result<
    Seq<EntryModel>,
    Error,
> {
    match spec_get_object(objects, tree_id, Some(ObjectKind::Tree)) {
        Err(Error::NotFound) => Err(Error::CorruptObject),
        Err(e) => Err(e),
        Ok((_, payload)) => match spec_parse_tree(payload) {
            Some(entries) => Ok(entries),
            None => Err(Error::CorruptObject),
        },
    }
}

/// Reads the entries of the tree stored under `tree_id`. Fails with
/// `CorruptObject` where no object is stored there or its payload is no
/// tree, and with `TypeMismatch` where the object is of another kind.
pub fn tree_entries_iterator(repo: &Repository, tree_id: &[u8]) -> (got: Result<
    Vec<TreeEntry>,
    Error,
>)
    requires
        repo.wf(),
    ensures
        match got {
            Ok(entries) => spec_tree_entries(repo.objects@, tree_id@) == Ok::<
                Seq<EntryModel>,
                Error,
            >(entries_view(entries@)),
            Err(e) => spec_tree_entries(repo.objects@, tree_id@) == Err::<Seq<EntryModel>, Error>(
                e,
            ),
        },
{
    match get_object(repo, tree_id, Some(ObjectKind::Tree)) {
        Err(Error::NotFound) => Err(Error::CorruptObject),
        Err(e) => Err(e),
        Ok(object) => parse_tree(object.payload.as_slice()),
    }
}

/// Whether an entry is one that a tree's payload can hold: its id has the
/// shape of an object id, and its name is not empty and holds no line feed.
pub open spec fn storable_entry(e: EntryModel) -> bool {
    is_object_id(e.oid) && e.name.len() > 0 && !e.name.contains(10u8)
}

/// The payload of a list that begins with `e` is the line of `e` and then
/// the payload of the rest.
pub proof fn lemma_encode_first(e: EntryModel, rest: Seq<EntryModel>)
    ensures
        encode_tree(seq![e] + rest) == entry_line(e) + encode_tree(rest),
    decreases rest.len(),
{
    let all = seq![e] + rest;
    if rest.len() == 0 {
        assert(all.drop_last() =~= Seq::<EntryModel>::empty());
        assert(encode_tree(all.drop_last()) =~= Seq::<u8>::empty());
        assert(encode_tree(all) =~= entry_line(e) + encode_tree(rest));
    } else {
        assert(all.drop_last() =~= seq![e] + rest.drop_last());
        lemma_encode_first(e, rest.drop_last());
        assert(encode_tree(all) =~= entry_line(e) + encode_tree(rest));
    }
}

/// The line of a storable entry, without its line feed, is read as that
/// entry.
pub proof fn lemma_parse_entry_line(e: EntryModel)
    requires
        storable_entry(e),
    ensures
        parse_entry(entry_tag(e.kind) + seq![32u8] + e.oid + seq![32u8] + e.name) == Some(e),
{
    let tag = entry_tag(e.kind);
    let line = tag + seq![32u8] + e.oid + seq![32u8] + e.name;
    assert(blob_tag().len() == 4 && tree_tag().len() == 4);
    assert(blob_tag()[0] != tree_tag()[0]);
    assert forall|j: int| 0 <= j < 4 implies line[j] != 32u8 by {
        assert(line[j] == tag[j]);
    }
    lemma_first_position_is(line, 32u8, 4);
    let rest = line.skip(5);
    assert(rest =~= e.oid + seq![32u8] + e.name);
    assert forall|j: int| 0 <= j < 40 implies rest[j] != 32u8 by {
        assert(rest[j] == e.oid[j]);
    }
    lemma_first_position_is(rest, 32u8, 40);
    assert(line.take(4) =~= tag);
    assert(rest.take(40) =~= e.oid);
    assert(rest.skip(41) =~= e.name);
}

/// A tree's payload is read back as the entries that it was written from,
/// where each of them is storable.
pub proof fn lemma_parse_encoded_tree(entries: Seq<EntryModel>)
    requires
        forall|i: int| 0 <= i < entries.len() ==> storable_entry(#[trigger] entries[i]),
    ensures
        spec_parse_tree(encode_tree(entries)) == Some(entries),
    decreases entries.len(),
{
    if entries.len() == 0 {
        assert(encode_tree(entries) =~= Seq::<u8>::empty());
    } else {
        let e = entries[0];
        let rest = entries.skip(1);
        assert(entries =~= seq![e] + rest);
        lemma_encode_first(e, rest);
        lemma_parse_encoded_tree(rest);
        lemma_parse_entry_line(e);
        let body = entry_tag(e.kind) + seq![32u8] + e.oid + seq![32u8] + e.name;
        let payload = encode_tree(entries);
        assert(payload =~= body + seq![10u8] + encode_tree(rest));
        let n = body.len() as int;
        assert(blob_tag().len() == 4 && tree_tag().len() == 4);
        assert forall|j: int| 0 <= j < n implies payload[j] != 10u8 by {
            assert(payload[j] == body[j]);
            if j < 4 {
                assert(body[j] == entry_tag(e.kind)[j]);
            } else if j == 4 {
            } else if j < 45 {
                assert(body[j] == e.oid[j - 5]);
            } else if j == 45 {
            } else {
                assert(body[j] == e.name[j - 46]);
            }
        }
        lemma_first_position_is(payload, 10u8, n);
        assert(payload.take(n) =~= body);
        assert(payload.skip(n + 1) =~= encode_tree(rest));
    }
}

} // verus!

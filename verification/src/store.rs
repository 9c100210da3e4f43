//! The object store and the reference store of a repository.

use vstd::prelude::*;
use crate::bytemap::ByteMap;
use crate::bytes::{append, bytes_eq, copy_bytes, copy_range, find_byte, first_position,
    lemma_first_position, lemma_first_position_is};
use crate::error::Error;
use crate::hash::{calculate_hash, is_object_id, spec_object_id};

verus! {

/// The kind of a stored object.
#[derive(Clone, Copy, Debug, PartialEq, Eq, Structural)]
pub enum ObjectKind {
    Blob,
    Tree,
    Commit,
}

/// The ASCII text `blob`.
pub open spec fn blob_tag() -> Seq<u8> {
    seq![98u8, 108u8, 111u8, 98u8]
}

/// The ASCII text `tree`.
pub open spec fn tree_tag() -> Seq<u8> {
    seq![116u8, 114u8, 101u8, 101u8]
}

/// The ASCII text `commit`.
pub open spec fn commit_tag() -> Seq<u8> {
    seq![99u8, 111u8, 109u8, 109u8, 105u8, 116u8]
}

/// The text that marks an object of the given kind.
pub open spec fn kind_tag(kind: ObjectKind) -> Seq<u8> {
    match kind {
        ObjectKind::Blob => blob_tag(),
        ObjectKind::Tree => tree_tag(),
        ObjectKind::Commit => commit_tag(),
    }
}

/// The kind that a tag names, if it names one.
pub open spec fn kind_of_tag(tag: Seq<u8>) -> Option<ObjectKind> {
    if tag == blob_tag() {
        Some(ObjectKind::Blob)
    } else if tag == tree_tag() {
        Some(ObjectKind::Tree)
    } else if tag == commit_tag() {
        Some(ObjectKind::Commit)
    } else {
        None
    }
}

/// The bytes under which an object is stored and hashed: its kind's tag, a
/// zero byte, and the payload.
pub open spec fn tagged(kind: ObjectKind, payload: Seq<u8>) -> Seq<u8> {
    kind_tag(kind) + seq![0u8] + payload
}

/// The kind and payload that stored bytes hold: the tag ends at the first
/// zero byte, and everything after that byte is payload.
pub open spec fn decode_object(stored: Seq<u8>) -> Option<(ObjectKind, Seq<u8>)> {
    let n = first_position(stored, 0u8);
    if n == stored.len() {
        None
    } else {
        match kind_of_tag(stored.take(n)) {
            Some(kind) => Some((kind, stored.skip(n + 1))),
            None => None,
        }
    }
}

/// Stored bytes give back the kind and the payload that they were made of.
pub proof fn lemma_decode_tagged(kind: ObjectKind, payload: Seq<u8>)
    ensures
        decode_object(tagged(kind, payload)) == Some((kind, payload)),
{
    let stored = tagged(kind, payload);
    let n = kind_tag(kind).len() as int;
    lemma_first_position_is(stored, 0u8, n);
    assert(stored.take(n) =~= kind_tag(kind));
    assert(stored.skip(n + 1) =~= payload);
    assert(blob_tag().len() == 4 && tree_tag().len() == 4 && commit_tag().len() == 6);
    assert(blob_tag()[0] != tree_tag()[0]);
}

/// Two objects with the same stored bytes are of the same kind and payload.
pub proof fn lemma_tagged_injective(
    kind: ObjectKind,
    payload: Seq<u8>,
    other_kind: ObjectKind,
    other_payload: Seq<u8>,
)
    requires
        tagged(kind, payload) == tagged(other_kind, other_payload),
    ensures
        kind == other_kind,
        payload == other_payload,
{
    lemma_decode_tagged(kind, payload);
    lemma_decode_tagged(other_kind, other_payload);
}

/// An object taken from the store.
pub struct Object {
    pub kind: ObjectKind,
    pub payload: Vec<u8>,
}

/// A repository: the objects by id, and the references by name.
pub struct Repository {
    pub objects: ByteMap,
    pub refs: ByteMap,
}

impl Repository {
    /// The invariant of the two stores.
    pub open spec fn wf(self) -> bool {
        self.objects.wf() && self.refs.wf()
    }
}

/// A repository with no objects and no references.
pub fn init() -> (repo: Repository)
    ensures
        repo.wf(),
        repo.objects@ == Map::<Seq<u8>, Seq<u8>>::empty(),
        repo.refs@ == Map::<Seq<u8>, Seq<u8>>::empty(),
{
    Repository { objects: ByteMap::new(), refs: ByteMap::new() }
}

fn tag_bytes(kind: ObjectKind) -> (tag: Vec<u8>)
    ensures
        tag@ == kind_tag(kind),
{
    let tag = match kind {
        ObjectKind::Blob => vec![98u8, 108u8, 111u8, 98u8],
        ObjectKind::Tree => vec![116u8, 114u8, 101u8, 101u8],
        ObjectKind::Commit => vec![99u8, 111u8, 109u8, 109u8, 105u8, 116u8],
    };
    assert(tag@ =~= kind_tag(kind));
    tag
}

/// The id under which an object of this kind and payload is stored.
pub open spec fn object_id_of(kind: ObjectKind, payload: Seq<u8>) -> Seq<u8> {
    spec_object_id(tagged(kind, payload))
}

/// The object store after an object of this kind and payload was put.
pub open spec fn objects_with(
    objects: Map<Seq<u8>, Seq<u8>>,
    kind: ObjectKind,
    payload: Seq<u8>,
) -> Map<Seq<u8>, Seq<u8>> {
    objects.insert(object_id_of(kind, payload), tagged(kind, payload))
}

/// Stores an object and returns its id: the hash of the tag, a zero byte and
/// the payload. Whatever was stored under that id before is replaced; the
/// references and all other objects stay as they were.
pub fn hash_object(repo: &mut Repository, data: &[u8], kind: ObjectKind) -> (oid: Vec<u8>)
    requires
        old(repo).wf(),
    ensures
        final(repo).wf(),
        oid@ == object_id_of(kind, data@),
        is_object_id(oid@),
        final(repo).objects@ == objects_with(old(repo).objects@, kind, data@),
        final(repo).refs == old(repo).refs,
        final(repo).objects.count() >= old(repo).objects.count(),
{
    let mut object = tag_bytes(kind);
    object.push(0u8);
    append(&mut object, data);
    assert(object@ =~= tagged(kind, data@));
    let oid = calculate_hash(object.as_slice());
    let key = copy_bytes(oid.as_slice());
    repo.objects.insert(key, object);
    oid
}

/// What looking up `oid` gives in a store with these objects.
pub open spec fn spec_get_object(
    objects: Map<Seq<u8>, Seq<u8>>,
    oid: Seq<u8>,
    expected: Option<ObjectKind>,
) -> Result<(ObjectKind, Seq<u8>), Error> {
    if !objects.contains_key(oid) {
        Err(Error::NotFound)
    } else {
        match decode_object(objects[oid]) {
            None => Err(Error::CorruptObject),
            Some((kind, payload)) => if expected is Some && expected->0 != kind {
                Err(Error::TypeMismatch)
            } else {
                Ok((kind, payload))
            },
        }
    }
}

/// Whether the object and its model agree.
pub open spec fn object_result_matches(
    got: Result<Object, Error>,
    model: Result<(ObjectKind, Seq<u8>), Error>,
) -> bool {
    match got {
        Ok(object) => model == Ok::<(ObjectKind, Seq<u8>), Error>((object.kind, object.payload@)),
        Err(e) => model == Err::<(ObjectKind, Seq<u8>), Error>(e),
    }
}

fn kind_from_tag(tag: &[u8]) -> (kind: Option<ObjectKind>)
    ensures
        kind == kind_of_tag(tag@),
{
    let blob = tag_bytes(ObjectKind::Blob);
    let tree = tag_bytes(ObjectKind::Tree);
    let commit = tag_bytes(ObjectKind::Commit);
    if bytes_eq(tag, blob.as_slice()) {
        Some(ObjectKind::Blob)
    } else if bytes_eq(tag, tree.as_slice()) {
        Some(ObjectKind::Tree)
    } else if bytes_eq(tag, commit.as_slice()) {
        Some(ObjectKind::Commit)
    } else {
        None
    }
}

/// Reads stored bytes as an object.
pub fn read_object(stored: &[u8]) -> (object: Option<Object>)
    ensures
        match object {
            Some(o) => decode_object(stored@) == Some((o.kind, o.payload@)),
            None => decode_object(stored@) is None,
        },
{
    proof {
        lemma_first_position(stored@, 0u8);
    }
    match find_byte(stored, 0, 0u8) {
        None => {
            proof {
                lemma_first_position_is(stored@, 0u8, stored@.len() as int);
            }
            None
        },
        Some(n) => {
            proof {
                lemma_first_position_is(stored@, 0u8, n as int);
            }
            let tag = copy_range(stored, 0, n);
            assert(tag@ =~= stored@.take(n as int));
            match kind_from_tag(tag.as_slice()) {
                None => None,
                Some(kind) => {
                    let payload = copy_range(stored, n + 1, stored.len());
                    assert(payload@ =~= stored@.skip(n + 1));
                    Some(Object { kind, payload })
                },
            }
        },
    }
}

/// Looks up the object stored under `oid`. Fails with `NotFound` where
/// nothing is stored there, with `CorruptObject` where the stored bytes are
/// no object, and with `TypeMismatch` where a kind is expected and the
/// object is of another.
pub fn get_object(repo: &Repository, oid: &[u8], expected: Option<ObjectKind>) -> (got: Result<
    Object,
    Error,
>)
    requires
        repo.wf(),
    ensures
        object_result_matches(got, spec_get_object(repo.objects@, oid@, expected)),
{
    match repo.objects.get(oid) {
        None => Err(Error::NotFound),
        Some(stored) => match read_object(stored.as_slice()) {
            None => Err(Error::CorruptObject),
            Some(object) => {
                match expected {
                    None => Ok(object),
                    Some(kind) => if kind == object.kind {
                        Ok(object)
                    } else {
                        Err(Error::TypeMismatch)
                    },
                }
            },
        },
    }
}

/// Sets the reference `name` to `oid`, whatever it held before. The objects
/// and all other references stay as they were.
pub fn update_ref(repo: &mut Repository, name: &[u8], oid: &[u8])
    requires
        old(repo).wf(),
    ensures
        final(repo).wf(),
        final(repo).refs@ == old(repo).refs@.insert(name@, oid@),
        final(repo).objects == old(repo).objects,
{
    let key = copy_bytes(name);
    let value = copy_bytes(oid);
    repo.refs.insert(key, value);
}

/// What the reference `name` holds, if it is set.
pub fn get_ref(repo: &Repository, name: &[u8]) -> (oid: Option<Vec<u8>>)
    requires
        repo.wf(),
    ensures
        match oid {
            Some(id) => repo.refs@.contains_key(name@) && id@ == repo.refs@[name@],
            None => !repo.refs@.contains_key(name@),
        },
{
    match repo.refs.get(name) {
        Some(id) => Some(copy_bytes(id.as_slice())),
        None => None,
    }
}

/// Getting what was put gives back its kind and payload, whatever kind is
/// expected of it or none, and putting the same object again changes nothing.
pub proof fn lemma_get_after_put(
    objects: Map<Seq<u8>, Seq<u8>>,
    kind: ObjectKind,
    payload: Seq<u8>,
)
    ensures
        spec_get_object(objects_with(objects, kind, payload), object_id_of(kind, payload), None)
            == Ok::<(ObjectKind, Seq<u8>), Error>((kind, payload)),
        spec_get_object(
            objects_with(objects, kind, payload),
            object_id_of(kind, payload),
            Some(kind),
        ) == Ok::<(ObjectKind, Seq<u8>), Error>((kind, payload)),
        objects_with(objects_with(objects, kind, payload), kind, payload) == objects_with(
            objects,
            kind,
            payload,
        ),
{
    lemma_decode_tagged(kind, payload);
    assert(objects_with(objects_with(objects, kind, payload), kind, payload) =~= objects_with(
        objects,
        kind,
        payload,
    ));
}

} // verus!

//! Commits: a tree, at most one parent, and a message.

use vstd::prelude::*;
use crate::bytes::{append, copy_range, find_byte, first_position, has_prefix_at,
    lemma_first_position_is, starts_with};
use crate::error::Error;
use crate::hash::{has_object_id_shape, is_object_id};
use crate::store::{get_object, spec_get_object, ObjectKind, Repository};

verus! {

/// A commit as it is read from the store.
pub struct Commit {
    pub tree: Vec<u8>,
    pub parent: Option<Vec<u8>>,
    pub message: Vec<u8>,
}

/// What a commit says: the id of its tree, the id of its parent if it has
/// one, and its message.
pub struct CommitModel {
    pub tree: Seq<u8>,
    pub parent: Option<Seq<u8>>,
    pub message: Seq<u8>,
}

impl View for Commit {
    type V = CommitModel;

    open spec fn view(&self) -> CommitModel {
        CommitModel {
            tree: self.tree@,
            parent: match self.parent {
                Some(p) => Some(p@),
                None => None,
            },
            message: self.message@,
        }
    }
}

/// The ASCII text `tree` and a space.
pub open spec fn tree_word() -> Seq<u8> {
    seq![116u8, 114u8, 101u8, 101u8, 32u8]
}

/// The ASCII text `parent` and a space.
pub open spec fn parent_word() -> Seq<u8> {
    seq![112u8, 97u8, 114u8, 101u8, 110u8, 116u8, 32u8]
}

/// The line-feed byte, which ends a line.
pub open spec fn line_feed() -> Seq<u8> {
    seq![10u8]
}

/// Whether both ids of the commit have the shape of an object id.
pub open spec fn commit_ids_shaped(c: CommitModel) -> bool {
    is_object_id(c.tree) && (c.parent is Some ==> is_object_id(c.parent->0))
}

/// The payload of a commit: the tree line, the parent line if there is a
/// parent, an empty line, and the message as it is.
pub open spec fn encode_commit(c: CommitModel) -> Seq<u8> {
    let head = tree_word() + c.tree + line_feed();
    let parent = match c.parent {
        Some(p) => parent_word() + p + line_feed(),
        None => Seq::<u8>::empty(),
    };
    head + parent + line_feed() + c.message
}

/// Reads the first line of `text` as `word` followed by an object id. Gives
/// the id and the number of bytes in the line, its line feed included.
pub open spec fn id_line(text: Seq<u8>, word: Seq<u8>) -> Option<(Seq<u8>, int)> {
    let n = first_position(text, 10u8);
    let line = text.take(n);
    if n < text.len() && starts_with(line, word) && is_object_id(line.skip(word.len() as int)) {
        Some((line.skip(word.len() as int), n + 1))
    } else {
        None
    }
}

/// Whether `text` begins with an empty line.
pub open spec fn at_empty_line(text: Seq<u8>) -> bool {
    text.len() > 0 && text[0] == 10u8
}

/// The commit that a payload holds, if it has the form of one: a tree line;
/// then either an empty line, or a parent line and an empty line; then the
/// message, which is everything that follows.
pub open spec fn spec_parse_commit(payload: Seq<u8>) -> Option<CommitModel> {
    match id_line(payload, tree_word()) {
        None => None,
        Some((tree, a)) => {
            let rest = payload.skip(a);
            if at_empty_line(rest) {
                Some(CommitModel { tree, parent: None, message: rest.skip(1) })
            } else {
                match id_line(rest, parent_word()) {
                    None => None,
                    Some((parent, b)) => {
                        let tail = rest.skip(b);
                        if at_empty_line(tail) {
                            Some(
                                CommitModel { tree, parent: Some(parent), message: tail.skip(1) },
                            )
                        } else {
                            None
                        }
                    },
                }
            }
        },
    }
}

fn read_id_line(text: &[u8], from: usize, word: &[u8]) -> (found: Option<(Vec<u8>, usize)>)
    requires
        from <= text@.len(),
    ensures
        match found {
            Some((id, next)) => id_line(text@.skip(from as int), word@) == Some(
                (id@, next - from),
            ) && from < next <= text@.len(),
            None => id_line(text@.skip(from as int), word@) is None,
        },
{
    let ghost rest = text@.skip(from as int);
    let total: usize = text.len();
    match find_byte(text, from, 10u8) {
        None => {
            proof {
                lemma_first_position_is(rest, 10u8, rest.len() as int);
            }
            None
        },
        Some(end) => {
            proof {
                lemma_first_position_is(rest, 10u8, end - from);
            }
            let line = copy_range(text, from, end);
            assert(line@ =~= rest.take(end - from));
            assert(line@.skip(0) =~= line@);
            if !has_prefix_at(line.as_slice(), 0, word) {
                return None;
            }
            let id = copy_range(line.as_slice(), word.len(), line.len());
            assert(id@ =~= line@.skip(word@.len() as int));
            if has_object_id_shape(id.as_slice()) {
                assert(end < total);
                Some((id, end + 1))
            } else {
                None
            }
        },
    }
}

fn tree_word_bytes() -> (word: Vec<u8>)
    ensures
        word@ == tree_word(),
{
    let word = vec![116u8, 114u8, 101u8, 101u8, 32u8];
    assert(word@ =~= tree_word());
    word
}

fn parent_word_bytes() -> (word: Vec<u8>)
    ensures
        word@ == parent_word(),
{
    let word = vec![112u8, 97u8, 114u8, 101u8, 110u8, 116u8, 32u8];
    assert(word@ =~= parent_word());
    word
}

/// Reads a payload as a commit. Fails with `InvalidCommitFormat` on every
/// payload that does not have the form of a commit.
pub fn parse_commit(payload: &[u8]) -> (parsed: Result<Commit, Error>)
    ensures
        match parsed {
            Ok(c) => spec_parse_commit(payload@) == Some(c@),
            Err(e) => e == Error::InvalidCommitFormat && spec_parse_commit(payload@) is None,
        },
{
    let tree_word = tree_word_bytes();
    let parent_word = parent_word_bytes();
    assert(payload@.skip(0) =~= payload@);
    let (tree, a) = match read_id_line(payload, 0, tree_word.as_slice()) {
        None => {
            return Err(Error::InvalidCommitFormat);
        },
        Some(found) => found,
    };
    if a < payload.len() && payload[a] == 10u8 {
        let message = copy_range(payload, a + 1, payload.len());
        assert(message@ =~= payload@.skip(a as int).skip(1));
        return Ok(Commit { tree, parent: None, message });
    }
    let (parent, b) = match read_id_line(payload, a, parent_word.as_slice()) {
        None => {
            return Err(Error::InvalidCommitFormat);
        },
        Some(found) => found,
    };
    assert(payload@.skip(a as int).skip(b - a) =~= payload@.skip(b as int));
    if b < payload.len() && payload[b] == 10u8 {
        let message = copy_range(payload, b + 1, payload.len());
        assert(message@ =~= payload@.skip(b as int).skip(1));
        Ok(Commit { tree, parent: Some(parent), message })
    } else {
        Err(Error::InvalidCommitFormat)
    }
}

/// Writes a commit's payload.
pub fn commit_payload(tree: &[u8], parent: Option<&Vec<u8>>, message: &[u8]) -> (payload: Vec<u8>)
    ensures
        payload@ == encode_commit(
            CommitModel {
                tree: tree@,
                parent: match parent {
                    Some(p) => Some(p@),
                    None => None,
                },
                message: message@,
            },
        ),
{
    let mut payload = tree_word_bytes();
    append(&mut payload, tree);
    payload.push(10u8);
    let ghost head = payload@;
    assert(head =~= tree_word() + tree@ + line_feed());
    match parent {
        Some(p) => {
            let word = parent_word_bytes();
            append(&mut payload, word.as_slice());
            append(&mut payload, p.as_slice());
            payload.push(10u8);
            assert(payload@ =~= head + (parent_word() + p@ + line_feed()));
        },
        None => {
            assert(payload@ =~= head + Seq::<u8>::empty());
        },
    }
    let ghost with_parent = payload@;
    payload.push(10u8);
    append(&mut payload, message);
    assert(payload@ =~= with_parent + line_feed() + message@);
    payload
}

/// What reading the commit stored under `commit_id` gives.
pub open spec fn spec_get_commit(objects: Map<Seq<u8>, Seq<u8>>, commit_id: Seq<u8>) -> Result<
    CommitModel,
    Error,
> {
    match spec_get_object(objects, commit_id, Some(ObjectKind::Commit)) {
        Err(e) => Err(e),
        Ok((_, payload)) => match spec_parse_commit(payload) {
            Some(c) => Ok(c),
            None => Err(Error::InvalidCommitFormat),
        },
    }
}

/// Whether a commit that was read, or the failure to read it, agrees with
/// the model.
pub open spec fn commit_result_matches(got: Result<Commit, Error>, model: Result<CommitModel, Error>) -> bool {
    match got {
        Ok(c) => model == Ok::<CommitModel, Error>(c@),
        Err(e) => model == Err::<CommitModel, Error>(e),
    }
}

/// Reads the commit stored under `commit_id`. Fails as `get_object` does
/// where no commit is stored there, and with `InvalidCommitFormat` where the
/// payload does not have the form of a commit.
pub fn get_commit(repo: &Repository, commit_id: &[u8]) -> (got: Result<Commit, Error>)
    requires
        repo.wf(),
    ensures
        commit_result_matches(got, spec_get_commit(repo.objects@, commit_id@)),
{
    match get_object(repo, commit_id, Some(ObjectKind::Commit)) {
        Err(e) => Err(e),
        Ok(object) => parse_commit(object.payload.as_slice()),
    }
}

/// A line of `word` and an id, followed by `rest`, is read as that id.
proof fn lemma_id_line_of(word: Seq<u8>, id: Seq<u8>, rest: Seq<u8>)
    requires
        is_object_id(id),
        forall|i: int| 0 <= i < word.len() ==> word[i] != 10u8,
    ensures
        id_line(word + id + line_feed() + rest, word) == Some((id, (word.len() + 41) as int)),
        (word + id + line_feed() + rest).skip((word.len() + 41) as int) == rest,
{
    let text = word + id + line_feed() + rest;
    let n = (word.len() + 40) as int;
    assert forall|j: int| 0 <= j < n implies text[j] != 10u8 by {
        if j >= word.len() {
            assert(text[j] == id[j - word.len()]);
        }
    }
    lemma_first_position_is(text, 10u8, n);
    assert(text.take(n) =~= word + id);
    assert(text.take(n).subrange(0, word.len() as int) =~= word);
    assert(text.take(n).skip(word.len() as int) =~= id);
    assert(text.skip(n + 1) =~= rest);
}

/// A commit whose ids have the shape of object ids is read back from its
/// payload as it was written, message and all.
pub proof fn lemma_parse_encoded_commit(c: CommitModel)
    requires
        commit_ids_shaped(c),
    ensures
        spec_parse_commit(encode_commit(c)) == Some(c),
{
    let payload = encode_commit(c);
    match c.parent {
        None => {
            let rest = line_feed() + c.message;
            assert(payload =~= tree_word() + c.tree + line_feed() + rest);
            lemma_id_line_of(tree_word(), c.tree, rest);
            assert(rest.skip(1) =~= c.message);
        },
        Some(p) => {
            let tail = line_feed() + c.message;
            let rest = parent_word() + p + line_feed() + tail;
            assert(payload =~= tree_word() + c.tree + line_feed() + rest);
            lemma_id_line_of(tree_word(), c.tree, rest);
            assert(rest[0] == 112u8);
            lemma_id_line_of(parent_word(), p, tail);
            assert(tail.skip(1) =~= c.message);
        },
    }
}

/// A stored commit whose first line is not `tree` and an object id is
/// refused with `InvalidCommitFormat`, and so is one whose second line is
/// neither empty nor `parent` and an object id.
pub proof fn lemma_malformed_commit_rejected(
    objects: Map<Seq<u8>, Seq<u8>>,
    commit_id: Seq<u8>,
    payload: Seq<u8>,
)
    requires
        spec_get_object(objects, commit_id, Some(ObjectKind::Commit)) == Ok::<
            (ObjectKind, Seq<u8>),
            Error,
        >((ObjectKind::Commit, payload)),
        id_line(payload, tree_word()) is None || (id_line(payload, tree_word()) matches Some(
            (_, a),
        ) && !at_empty_line(payload.skip(a)) && id_line(payload.skip(a), parent_word()) is None),
    ensures
        spec_get_commit(objects, commit_id) == Err::<CommitModel, Error>(
            Error::InvalidCommitFormat,
        ),
{
}

} // verus!

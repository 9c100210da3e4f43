//! The operations that move `HEAD`: committing the working directory and
//! checking a commit out; and the history of a commit.

use vstd::prelude::*;
use crate::bytemap::ByteMap;
use crate::bytes::{append, copy_bytes, copy_range, find_byte, first_position,
    lemma_first_position_is};
use crate::commit::{commit_payload, encode_commit, get_commit, lemma_parse_encoded_commit,
    spec_get_commit, Commit, CommitModel};
use crate::error::Error;
use crate::flatten::{map_result_view, read_tree, restores};
use crate::hash::{is_object_id, lemma_object_id_shape};
use crate::resolve::{get_oid, head, head_name, spec_get_oid};
use crate::store::{get_ref, hash_object, lemma_get_after_put, object_id_of, objects_with, tagged,
    update_ref, ObjectKind, Repository};
use crate::tree::encode_tree;
use crate::worktree::{capture, tree_id, tree_lines, write_tree, DirEntry};

verus! {

/// The path under which the working directory is captured: `.`.
pub open spec fn here() -> Seq<u8> {
    seq![46u8]
}

/// The payload of the commit that records these entries with this message
/// on top of what `HEAD` holds among these references.
pub open spec fn new_commit_payload(
    refs: Map<Seq<u8>, Seq<u8>>,
    entries: Seq<DirEntry>,
    message: Seq<u8>,
) -> Seq<u8> {
    encode_commit(
        CommitModel {
            tree: tree_id(here(), entries),
            parent: if refs.contains_key(head_name()) {
                Some(refs[head_name()])
            } else {
                None
            },
            message,
        },
    )
}

/// Records the working directory as a new commit on top of the one that
/// `HEAD` holds, if it holds one, and moves `HEAD` to the new commit. The
/// directory is captured as a tree, the commit is stored, and its id is
/// returned.
pub fn commit(repo: &mut Repository, entries: &Vec<DirEntry>, message: &[u8]) -> (oid: Vec<u8>)
    requires
        old(repo).wf(),
    ensures
        final(repo).wf(),
        is_object_id(oid@),
        oid@ == object_id_of(
            ObjectKind::Commit,
            new_commit_payload(old(repo).refs@, entries@, message@),
        ),
        final(repo).objects@ == objects_with(
            capture(old(repo).objects@, here(), entries@),
            ObjectKind::Commit,
            new_commit_payload(old(repo).refs@, entries@, message@),
        ),
        final(repo).refs@ == old(repo).refs@.insert(head_name(), oid@),
{
    let dot = vec![46u8];
    assert(dot@ =~= here());
    let tree = write_tree(repo, dot.as_slice(), entries);
    let head_name = head();
    let parent = get_ref(repo, head_name.as_slice());
    let payload = commit_payload(tree.as_slice(), parent.as_ref(), message);
    let oid = hash_object(repo, payload.as_slice(), ObjectKind::Commit);
    update_ref(repo, head_name.as_slice(), oid.as_slice());
    oid
}

/// The commit that was just recorded is read back from the store with the
/// tree of the directory, the former value of `HEAD` as its parent and the
/// message as it was given, where `HEAD` was unset or held an object id.
pub proof fn lemma_commit_then_get_commit(
    objects: Map<Seq<u8>, Seq<u8>>,
    refs: Map<Seq<u8>, Seq<u8>>,
    entries: Seq<DirEntry>,
    message: Seq<u8>,
)
    requires
        refs.contains_key(head_name()) ==> is_object_id(refs[head_name()]),
    ensures
        spec_get_commit(
            objects_with(
                capture(objects, here(), entries),
                ObjectKind::Commit,
                new_commit_payload(refs, entries, message),
            ),
            object_id_of(ObjectKind::Commit, new_commit_payload(refs, entries, message)),
        ) == Ok::<CommitModel, Error>(
            CommitModel {
                tree: tree_id(here(), entries),
                parent: if refs.contains_key(head_name()) {
                    Some(refs[head_name()])
                } else {
                    None
                },
                message,
            },
        ),
{
    let c = CommitModel {
        tree: tree_id(here(), entries),
        parent: if refs.contains_key(head_name()) {
            Some(refs[head_name()])
        } else {
            None
        },
        message,
    };
    lemma_object_id_shape(
        tagged(ObjectKind::Tree, encode_tree(tree_lines(here(), entries))),
    );
    lemma_parse_encoded_commit(c);
    lemma_get_after_put(capture(objects, here(), entries), ObjectKind::Commit, encode_commit(c));
}

/// Computes the files of the commit stored under `commit_id` and moves
/// `HEAD` to it. The files are those that restoring the commit's tree
/// gives. `HEAD` moves only once they are computed: where reading the
/// commit or restoring its tree fails, the repository is unchanged.
pub fn checkout(repo: &mut Repository, commit_id: &[u8]) -> (got: Result<ByteMap, Error>)
    requires
        old(repo).wf(),
    ensures
        final(repo).wf(),
        final(repo).objects == old(repo).objects,
        got matches Ok(files) ==> files.wf(),
        match spec_get_commit(old(repo).objects@, commit_id@) {
            Err(e) => got matches Err(err) && err == e,
            Ok(c) => restores(
                old(repo).objects@,
                c.tree,
                old(repo).objects.count(),
                map_result_view(got),
            ),
        },
        got is Ok ==> final(repo).refs@ == old(repo).refs@.insert(head_name(), commit_id@),
        got is Err ==> *final(repo) == *old(repo),
{
    let commit = match get_commit(repo, commit_id) {
        Err(e) => {
            return Err(e);
        },
        Ok(commit) => commit,
    };
    let files = match read_tree(repo, commit.tree.as_slice()) {
        Err(e) => {
            return Err(e);
        },
        Ok(files) => files,
    };
    let head_name = head();
    update_ref(repo, head_name.as_slice(), commit_id);
    Ok(files)
}

/// One commit of a history.
pub struct LogEntry {
    pub commit_id: Vec<u8>,
    pub message: Vec<u8>,
}

/// What a history says of one commit: its id and its message.
pub struct LogEntryModel {
    pub commit_id: Seq<u8>,
    pub message: Seq<u8>,
}

impl View for LogEntry {
    type V = LogEntryModel;

    open spec fn view(&self) -> LogEntryModel {
        LogEntryModel { commit_id: self.commit_id@, message: self.message@ }
    }
}

/// The commits from a starting commit back through its ancestors, newest
/// first, and the failure that ended the walk if it did not end at a commit
/// without a parent.
pub struct History {
    pub entries: Vec<LogEntry>,
    pub failure: Option<Error>,
}

/// The models of a list of log entries, in order.
pub open spec fn log_view(entries: Seq<LogEntry>) -> Seq<LogEntryModel> {
    Seq::new(entries.len(), |i: int| entries[i]@)
}

/// The history of the commit stored under `start`: that commit, then its
/// parent, and so on until a commit has none. A commit that cannot be read
/// ends the walk with its error. `steps` bounds the number of commits; a
/// history longer than that is corrupt.
pub open spec fn spec_history(objects: Map<Seq<u8>, Seq<u8>>, start: Seq<u8>, steps: nat) -> (
    Seq<LogEntryModel>,
    Option<Error>,
)
    decreases steps,
{
    if steps == 0 {
        (Seq::<LogEntryModel>::empty(), Some(Error::CorruptObject))
    } else {
        match spec_get_commit(objects, start) {
            Err(e) => (Seq::<LogEntryModel>::empty(), Some(e)),
            Ok(c) => {
                let entry = LogEntryModel { commit_id: start, message: c.message };
                match c.parent {
                    None => (seq![entry], None),
                    Some(parent) => {
                        let (older, failure) = spec_history(objects, parent, (steps - 1) as nat);
                        (seq![entry] + older, failure)
                    },
                }
            },
        }
    }
}

/// Walks the history of the commit stored under `start`. It follows as
/// many parents as there are objects in the store and one more, which no
/// store without a cycle exceeds.
pub fn history(repo: &Repository, start: &[u8]) -> (log: History)
    requires
        repo.wf(),
    ensures
        (log_view(log.entries@), log.failure) == spec_history(
            repo.objects@,
            start@,
            repo.objects.count() + 1,
        ),
{
    let ghost objects = repo.objects@;
    let ghost all = spec_history(objects, start@, repo.objects.count() + 1);
    let mut entries: Vec<LogEntry> = Vec::new();
    let mut current = copy_bytes(start);
    let mut visited: usize = 0;
    let total: usize = repo.objects.len();
    assert(log_view(entries@) + all.0 =~= all.0);
    loop
        invariant
            repo.wf(),
            objects == repo.objects@,
            total == repo.objects.count(),
            visited <= total,
            all == spec_history(objects, start@, repo.objects.count() + 1),
            all.0 == log_view(entries@) + spec_history(
                objects,
                current@,
                (total - visited + 1) as nat,
            ).0,
            all.1 == spec_history(objects, current@, (total - visited + 1) as nat).1,
        decreases total - visited,
    {
        let ghost sofar = log_view(entries@);
        match get_commit(repo, current.as_slice()) {
            Err(e) => {
                assert(sofar + Seq::<LogEntryModel>::empty() =~= sofar);
                return History { entries, failure: Some(e) };
            },
            Ok(commit) => {
                let ghost entry = LogEntryModel { commit_id: current@, message: commit.message@ };
                let Commit { tree: _, parent, message } = commit;
                entries.push(LogEntry { commit_id: current, message });
                assert(log_view(entries@) =~= sofar.push(entry));
                match parent {
                    None => {
                        assert(sofar + seq![entry] =~= sofar.push(entry));
                        return History { entries, failure: None };
                    },
                    Some(p) => {
                        let ghost older = spec_history(objects, p@, (total - visited) as nat);
                        assert(sofar + (seq![entry] + older.0) =~= sofar.push(entry) + older.0);
                        if visited == total {
                            assert(sofar.push(entry) + Seq::<LogEntryModel>::empty()
                                =~= sofar.push(entry));
                            return History { entries, failure: Some(Error::CorruptObject) };
                        }
                        current = p;
                        visited += 1;
                    },
                }
            },
        }
    }
}

/// What the log of `name` is among these objects and references. Where a
/// name is given, it is the history of the commit that the name resolves
/// to, and the log fails as resolving the name fails. Where none is given,
/// it is the history of the commit whose id `HEAD` holds, as it stands
/// there; without `HEAD` there is no history yet.
pub open spec fn spec_log(
    objects: Map<Seq<u8>, Seq<u8>>,
    refs: Map<Seq<u8>, Seq<u8>>,
    name: Option<Seq<u8>>,
    steps: nat,
) -> Result<Option<(Seq<LogEntryModel>, Option<Error>)>, Error> {
    match name {
        Some(n) => match spec_get_oid(refs, n) {
            Err(e) => Err(e),
            Ok(oid) => Ok(Some(spec_history(objects, oid, steps))),
        },
        None => if refs.contains_key(head_name()) {
            Ok(Some(spec_history(objects, refs[head_name()], steps)))
        } else {
            Ok(None)
        },
    }
}

/// The model of a log that was computed.
pub open spec fn log_result_view(got: Result<Option<History>, Error>) -> Result<
    Option<(Seq<LogEntryModel>, Option<Error>)>,
    Error,
> {
    match got {
        Ok(Some(log)) => Ok(Some((log_view(log.entries@), log.failure))),
        Ok(None) => Ok(None),
        Err(e) => Err(e),
    }
}

/// Computes the log of `name`, or of the commit whose id `HEAD` holds where
/// no name is given: `None` where there is no commit yet, and `NotFound`
/// where the name does not resolve.
pub fn log(repo: &Repository, name: Option<&[u8]>) -> (got: Result<Option<History>, Error>)
    requires
        repo.wf(),
    ensures
        log_result_view(got) == spec_log(
            repo.objects@,
            repo.refs@,
            crate::resolve::option_view(name),
            repo.objects.count() + 1,
        ),
{
    match name {
        Some(n) => match get_oid(repo, n) {
            Err(e) => Err(e),
            Ok(oid) => Ok(Some(history(repo, oid.as_slice()))),
        },
        None => {
            let head_name = head();
            match get_ref(repo, head_name.as_slice()) {
                Some(held) => Ok(Some(history(repo, held.as_slice()))),
                None => Ok(None),
            }
        },
    }
}

/// A line without the carriage return that ends it, if one does.
pub open spec fn without_carriage_return(line: Seq<u8>) -> Seq<u8> {
    if line.len() > 0 && line.last() == 13u8 {
        line.drop_last()
    } else {
        line
    }
}

/// A message as a log shows it: a tab before each line, and a line feed
/// between the lines. A line ends at a line feed; the carriage return
/// before that line feed, if there is one, is dropped with it. No line
/// follows the last line feed of a message that ends in one.
pub open spec fn spec_indent(text: Seq<u8>) -> Seq<u8>
    decreases text.len(),
{
    let n = first_position(text, 10u8);
    if text.len() == 0 {
        Seq::<u8>::empty()
    } else if n < 0 || n >= text.len() {
        seq![9u8] + text
    } else if n + 1 == text.len() {
        seq![9u8] + without_carriage_return(text.take(n))
    } else {
        seq![9u8] + without_carriage_return(text.take(n)) + seq![10u8] + spec_indent(
            text.skip(n + 1),
        )
    }
}

/// Indents a message for the log.
pub fn indent_message(message: &[u8]) -> (shown: Vec<u8>)
    ensures
        shown@ == spec_indent(message@),
{
    let total: usize = message.len();
    let mut shown: Vec<u8> = Vec::new();
    let mut pos: usize = 0;
    assert(message@.skip(0) =~= message@);
    assert(shown@ + spec_indent(message@) =~= spec_indent(message@));
    while pos < total
        invariant
            total == message@.len(),
            pos <= total,
            spec_indent(message@) == shown@ + spec_indent(message@.skip(pos as int)),
        decreases total - pos,
    {
        let ghost rest = message@.skip(pos as int);
        let ghost before = shown@;
        shown.push(9u8);
        match find_byte(message, pos, 10u8) {
            None => {
                proof {
                    lemma_first_position_is(rest, 10u8, rest.len() as int);
                }
                let line = copy_range(message, pos, total);
                append(&mut shown, line.as_slice());
                assert(line@ =~= rest);
                assert(shown@ =~= before + (seq![9u8] + rest));
                assert(message@.skip(total as int).len() == 0);
                assert(shown@ + spec_indent(message@.skip(total as int)) =~= shown@);
                pos = total;
            },
            Some(end) => {
                proof {
                    lemma_first_position_is(rest, 10u8, end - pos);
                }
                let stop = if end > pos && message[end - 1] == 13u8 {
                    end - 1
                } else {
                    end
                };
                let line = copy_range(message, pos, stop);
                append(&mut shown, line.as_slice());
                assert(line@ =~= without_carriage_return(rest.take(end - pos))) by {
                    let whole = rest.take(end - pos);
                    assert(whole =~= message@.subrange(pos as int, end as int));
                    if end > pos {
                        assert(whole.last() == message@[end - 1]);
                    }
                }
                assert(rest.skip(end - pos + 1) =~= message@.skip(end + 1));
                if end + 1 < total {
                    shown.push(10u8);
                    assert(shown@ =~= before + (seq![9u8] + line@ + seq![10u8]));
                    assert(shown@ + spec_indent(message@.skip(end + 1)) =~= before + (seq![9u8]
                        + line@ + seq![10u8] + spec_indent(message@.skip(end + 1))));
                } else {
                    assert(shown@ =~= before + (seq![9u8] + line@));
                    assert(message@.skip(end + 1).len() == 0);
                    assert(shown@ + spec_indent(message@.skip(end + 1)) =~= shown@);
                }
                pos = end + 1;
            },
        }
    }
    assert(message@.skip(total as int).len() == 0);
    assert(shown@ + spec_indent(message@.skip(total as int)) =~= shown@);
    shown
}

} // verus!

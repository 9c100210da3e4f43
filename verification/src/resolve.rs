//! Names for objects: references, tags, and the resolution of a name to an
//! object id.

use vstd::prelude::*;
use crate::bytes::{append, bytes_eq, copy_bytes};
use crate::error::Error;
use crate::hash::{has_object_id_shape, is_object_id};
use crate::store::{get_ref, update_ref, Repository};

verus! {

/// The ASCII text `HEAD`: the reference to the commit that is checked out.
pub open spec fn head_name() -> Seq<u8> {
    seq![72u8, 69u8, 65u8, 68u8]
}

/// The ASCII text `@`, another way to write `HEAD`.
pub open spec fn at_sign() -> Seq<u8> {
    seq![64u8]
}

/// The ASCII text `refs/`.
pub open spec fn refs_prefix() -> Seq<u8> {
    seq![114u8, 101u8, 102u8, 115u8, 47u8]
}

/// The ASCII text `refs/tags/`.
pub open spec fn tags_prefix() -> Seq<u8> {
    seq![114u8, 101u8, 102u8, 115u8, 47u8, 116u8, 97u8, 103u8, 115u8, 47u8]
}

/// The ASCII text `refs/heads/`.
pub open spec fn heads_prefix() -> Seq<u8> {
    seq![114u8, 101u8, 102u8, 115u8, 47u8, 104u8, 101u8, 97u8, 100u8, 115u8, 47u8]
}

/// The name `HEAD`.
pub fn head() -> (name: Vec<u8>)
    ensures
        name@ == head_name(),
{
    let name = vec![72u8, 69u8, 65u8, 68u8];
    assert(name@ =~= head_name());
    name
}

/// The name that is looked up for `name`: `HEAD` for `@`, else `name`.
pub open spec fn canonical_name(name: Seq<u8>) -> Seq<u8> {
    if name == at_sign() {
        head_name()
    } else {
        name
    }
}

/// What `name` resolves to among these references. The first of these that
/// is a reference decides: the name itself, then the name below `refs/`,
/// below `refs/tags/`, below `refs/heads/`. If none is, a name with the
/// shape of an object id stands for itself, and any other is not found.
pub open spec fn spec_get_oid(refs: Map<Seq<u8>, Seq<u8>>, name: Seq<u8>) -> Result<
    Seq<u8>,
    Error,
> {
    let name = canonical_name(name);
    if refs.contains_key(name) {
        Ok(refs[name])
    } else if refs.contains_key(refs_prefix() + name) {
        Ok(refs[refs_prefix() + name])
    } else if refs.contains_key(tags_prefix() + name) {
        Ok(refs[tags_prefix() + name])
    } else if refs.contains_key(heads_prefix() + name) {
        Ok(refs[heads_prefix() + name])
    } else if is_object_id(name) {
        Ok(name)
    } else {
        Err(Error::NotFound)
    }
}

/// Whether bytes that were computed, or the failure to compute them, agree
/// with the model.
pub open spec fn bytes_result_matches(got: Result<Vec<u8>, Error>, model: Result<Seq<u8>, Error>) -> bool {
    match got {
        Ok(bytes) => model == Ok::<Seq<u8>, Error>(bytes@),
        Err(e) => model == Err::<Seq<u8>, Error>(e),
    }
}

fn prefixed(prefix: Vec<u8>, name: &[u8]) -> (joined: Vec<u8>)
    ensures
        joined@ == prefix@ + name@,
{
    let mut joined = prefix;
    append(&mut joined, name);
    joined
}

/// Resolves a name to an object id. Fails with `NotFound` where the name
/// is no reference under any of the four readings and has not the shape of
/// an object id.
pub fn get_oid(repo: &Repository, name: &[u8]) -> (got: Result<Vec<u8>, Error>)
    requires
        repo.wf(),
    ensures
        bytes_result_matches(got, spec_get_oid(repo.refs@, name@)),
{
    let at = vec![64u8];
    assert(at@ =~= at_sign());
    let wanted = if bytes_eq(name, at.as_slice()) {
        head()
    } else {
        copy_bytes(name)
    };
    if let Some(oid) = get_ref(repo, wanted.as_slice()) {
        return Ok(oid);
    }
    let refs = vec![114u8, 101u8, 102u8, 115u8, 47u8];
    assert(refs@ =~= refs_prefix());
    let below_refs = prefixed(refs, wanted.as_slice());
    if let Some(oid) = get_ref(repo, below_refs.as_slice()) {
        return Ok(oid);
    }
    let tags = vec![114u8, 101u8, 102u8, 115u8, 47u8, 116u8, 97u8, 103u8, 115u8, 47u8];
    assert(tags@ =~= tags_prefix());
    let below_tags = prefixed(tags, wanted.as_slice());
    if let Some(oid) = get_ref(repo, below_tags.as_slice()) {
        return Ok(oid);
    }
    let heads = vec![
        114u8,
        101u8,
        102u8,
        115u8,
        47u8,
        104u8,
        101u8,
        97u8,
        100u8,
        115u8,
        47u8,
    ];
    assert(heads@ =~= heads_prefix());
    let below_heads = prefixed(heads, wanted.as_slice());
    if let Some(oid) = get_ref(repo, below_heads.as_slice()) {
        return Ok(oid);
    }
    if has_object_id_shape(wanted.as_slice()) {
        Ok(wanted)
    } else {
        Err(Error::NotFound)
    }
}

/// Sets the tag `name` to `oid`, whatever it was set to before.
pub fn create_tag(repo: &mut Repository, name: &[u8], oid: &[u8])
    requires
        old(repo).wf(),
    ensures
        final(repo).wf(),
        final(repo).refs@ == old(repo).refs@.insert(tags_prefix() + name@, oid@),
        final(repo).objects == old(repo).objects,
{
    let tags = vec![114u8, 101u8, 102u8, 115u8, 47u8, 116u8, 97u8, 103u8, 115u8, 47u8];
    assert(tags@ =~= tags_prefix());
    let tag = prefixed(tags, name);
    update_ref(repo, tag.as_slice(), oid);
}

/// The references after `name` was tagged, and the id that it was tagged
/// with. Where a commit is named, that is what the name resolves to, and
/// tagging fails as resolving it fails. Where none is named, it is the id
/// that `HEAD` holds, as it stands there; without `HEAD` there is nothing
/// to tag. Only the tag changes: `HEAD` and every other reference stay.
pub open spec fn spec_tag(
    refs: Map<Seq<u8>, Seq<u8>>,
    name: Seq<u8>,
    commit: Option<Seq<u8>>,
) -> Result<(Map<Seq<u8>, Seq<u8>>, Seq<u8>), Error> {
    match commit {
        Some(c) => match spec_get_oid(refs, c) {
            Err(e) => Err(e),
            Ok(oid) => Ok((refs.insert(tags_prefix() + name, oid), oid)),
        },
        None => if refs.contains_key(head_name()) {
            Ok((refs.insert(tags_prefix() + name, refs[head_name()]), refs[head_name()]))
        } else {
            Err(Error::NotFound)
        },
    }
}

/// Tags the commit that `commit` names, or the one that `HEAD` holds where
/// none is named, and returns the id that the tag now holds. Where it
/// fails, the repository is unchanged.
pub fn tag(repo: &mut Repository, name: &[u8], commit: Option<&[u8]>) -> (got: Result<
    Vec<u8>,
    Error,
>)
    requires
        old(repo).wf(),
    ensures
        final(repo).wf(),
        final(repo).objects == old(repo).objects,
        match got {
            Ok(oid) => spec_tag(old(repo).refs@, name@, option_view(commit)) == Ok::<
                (Map<Seq<u8>, Seq<u8>>, Seq<u8>),
                Error,
            >((final(repo).refs@, oid@)),
            Err(e) => spec_tag(old(repo).refs@, name@, option_view(commit)) == Err::<
                (Map<Seq<u8>, Seq<u8>>, Seq<u8>),
                Error,
            >(e) && *final(repo) == *old(repo),
        },
{
    let found = match commit {
        Some(c) => get_oid(repo, c),
        None => {
            let head_name = head();
            match get_ref(repo, head_name.as_slice()) {
                Some(held) => Ok(held),
                None => Err(Error::NotFound),
            }
        },
    };
    match found {
        Err(e) => Err(e),
        Ok(oid) => {
            create_tag(repo, name, oid.as_slice());
            Ok(oid)
        },
    }
}

/// The bytes of an optional name.
pub open spec fn option_view(name: Option<&[u8]>) -> Option<Seq<u8>> {
    match name {
        Some(n) => Some(n@),
        None => None,
    }
}

/// `@` resolves as `HEAD` does.
pub proof fn lemma_at_is_head(refs: Map<Seq<u8>, Seq<u8>>)
    ensures
        spec_get_oid(refs, at_sign()) == spec_get_oid(refs, head_name()),
{
    assert(head_name().len() == 4 && at_sign().len() == 1);
}

/// A name with the shape of an object id that is no reference under any of
/// the four readings resolves to itself.
pub proof fn lemma_object_id_resolves_to_itself(refs: Map<Seq<u8>, Seq<u8>>, name: Seq<u8>)
    requires
        is_object_id(name),
        !refs.contains_key(name),
        !refs.contains_key(refs_prefix() + name),
        !refs.contains_key(tags_prefix() + name),
        !refs.contains_key(heads_prefix() + name),
    ensures
        spec_get_oid(refs, name) == Ok::<Seq<u8>, Error>(name),
{
    assert(at_sign().len() == 1);
}

/// Tagging `name` without naming a commit sets the tag to the id that
/// `HEAD` holds and changes nothing else: `HEAD` and every other reference
/// hold what they held.
pub proof fn lemma_tag_head(refs: Map<Seq<u8>, Seq<u8>>, name: Seq<u8>)
    requires
        refs.contains_key(head_name()),
    ensures
        spec_tag(refs, name, None) matches Ok((tagged, oid)) && {
            &&& oid == refs[head_name()]
            &&& tagged.contains_key(tags_prefix() + name)
            &&& tagged[tags_prefix() + name] == refs[head_name()]
            &&& tagged.contains_key(head_name())
            &&& tagged[head_name()] == refs[head_name()]
            &&& forall|other: Seq<u8>|
                other != tags_prefix() + name ==> (tagged.contains_key(other)
                    <==> refs.contains_key(other)) && (refs.contains_key(other)
                    ==> #[trigger] tagged[other] == refs[other])
        },
{
    let key = tags_prefix() + name;
    assert(key.len() == name.len() + 10);
    assert(head_name().len() == 4);
    assert(key != head_name());
}

/// After `name` was tagged without naming a commit, `name` resolves to the
/// id that `HEAD` holds, unless `name` is `@` or a reference of that name
/// exists by itself or below `refs/`.
pub proof fn lemma_tag_head_then_resolve(refs: Map<Seq<u8>, Seq<u8>>, name: Seq<u8>)
    requires
        refs.contains_key(head_name()),
        name != at_sign(),
        !refs.contains_key(name),
        !refs.contains_key(refs_prefix() + name),
    ensures
        spec_tag(refs, name, None) matches Ok((tagged, oid)) && oid == refs[head_name()]
            && spec_get_oid(tagged, name) == Ok::<Seq<u8>, Error>(refs[head_name()]),
{
    let key = tags_prefix() + name;
    assert(key.len() == name.len() + 10);
    assert((refs_prefix() + name).len() == name.len() + 5);
    assert(key != name);
    assert(key != refs_prefix() + name);
}

} // verus!

//! Replaying a chain of patches to the content of a document.
//!
//! The patches of one document, in ascending order of time, are resolved one
//! after the other. A patch says how far back its base lies, counted in
//! patches from the first that shares its timestamp; the base is the content
//! last resolved for the timestamp found there, or the empty content where
//! the count runs past the first patch.

use vstd::prelude::*;
use crate::cache::{CacheView, VersionCache};
use crate::codec::{codec_decode, codec_tag, decode_delta, read_tag};
use crate::model::{byte_views, patch_views, Patch, PatchView, VersionError};

verus! {

/// Timestamps never decrease along the sequence.
pub open spec fn ascending(patches: Seq<PatchView>) -> bool {
    forall|i: int, j: int|
        0 <= i <= j < patches.len() ==> (#[trigger] patches[i]).timestamp <= (
        #[trigger] patches[j]).timestamp
}

/// How many versions back the base of a patch lies: the tag in its delta, or
/// 0 where there is no delta or no readable tag.
pub open spec fn patch_tag(patch: PatchView) -> nat {
    match patch.delta {
        Some(delta) => match codec_tag(delta) {
            Some(tag) => tag,
            None => 0,
        },
        None => 0,
    }
}

/// The position of a patch among the versions before and after it: the
/// first position of the patches that share its timestamp.
pub open spec fn run_start(patches: Seq<PatchView>, index: int) -> int
    decreases index,
{
    if index > 0 && patches[index - 1].timestamp == patches[index].timestamp {
        run_start(patches, index - 1)
    } else {
        index
    }
}

/// Where the content for the timestamp of position `from` stands when the
/// patch at `upto` is resolved: at the last position before `upto` that
/// shares that timestamp.
pub open spec fn slot_at(patches: Seq<PatchView>, from: int, upto: int) -> int
    decreases upto - from,
{
    if from + 1 < upto && patches[from + 1].timestamp == patches[from].timestamp {
        slot_at(patches, from + 1, upto)
    } else {
        from
    }
}

/// The base that a tag names for the patch at `index`, given the contents
/// resolved before it: the content for the timestamp that stands `tag + 1`
/// positions before the patch's own, or the empty content where that runs
/// past the first patch.
pub open spec fn base_for_tag(
    patches: Seq<PatchView>,
    contents: Seq<Seq<u8>>,
    index: int,
    tag: nat,
) -> Seq<u8> {
    let back = run_start(patches, index) - tag - 1;
    if back < 0 {
        Seq::empty()
    } else {
        contents[slot_at(patches, back, index)]
    }
}

/// The base of the patch at `index`, given the contents resolved before it.
pub open spec fn base_content(patches: Seq<PatchView>, contents: Seq<Seq<u8>>, index: int) -> Seq<
    u8,
> {
    base_for_tag(patches, contents, index, patch_tag(patches[index]))
}

/// The content of a patch over its base: the base itself without a delta,
/// else what the codec decodes, if it decodes.
pub open spec fn apply_patch(patch: PatchView, base: Seq<u8>) -> Option<Seq<u8>> {
    match patch.delta {
        Some(delta) => codec_decode(base, delta),
        None => Some(base),
    }
}

/// The state of a replay: the cache as it then stands, the contents
/// resolved so far by position, and whether every delta so far decoded.
pub struct Replay {
    pub cache: CacheView,
    pub contents: Seq<Seq<u8>>,
    pub ok: bool,
}

/// One step of the replay. A remembered content is taken as it is; otherwise
/// the patch is applied to its base and the result is remembered. A delta
/// that does not decode stops the replay and leaves the cache as it was.
pub open spec fn replay_step(
    state: Replay,
    document_uuid: Seq<char>,
    patches: Seq<PatchView>,
    index: int,
) -> Replay {
    let key = (document_uuid, patches[index].uuid);
    if state.cache.contains_key(key) {
        Replay { contents: state.contents.push(state.cache[key]), ..state }
    } else {
        match apply_patch(patches[index], base_content(patches, state.contents, index)) {
            Some(content) => Replay {
                cache: state.cache.insert(key, content),
                contents: state.contents.push(content),
                ok: true,
            },
            None => Replay { ok: false, ..state },
        }
    }
}

/// The replay of the first `count` patches, from a given cache.
pub open spec fn replay(
    cache: CacheView,
    document_uuid: Seq<char>,
    patches: Seq<PatchView>,
    count: nat,
) -> Replay
    decreases count,
{
    if count == 0 {
        Replay { cache, contents: Seq::empty(), ok: true }
    } else {
        let before = replay(cache, document_uuid, patches, (count - 1) as nat);
        if before.ok {
            replay_step(before, document_uuid, patches, count - 1)
        } else {
            before
        }
    }
}

/// What a finished replay yields: the content of the last patch, the empty
/// content where there is no patch, a decode error where the replay stopped.
pub open spec fn replay_result(state: Replay) -> Result<Seq<u8>, VersionError> {
    if !state.ok {
        Err(VersionError::DecodeError)
    } else if state.contents.len() == 0 {
        Ok(Seq::empty())
    } else {
        Ok(state.contents.last())
    }
}

/// A replay that has not stopped has resolved every patch so far.
pub proof fn lemma_replay_len(
    cache: CacheView,
    document_uuid: Seq<char>,
    patches: Seq<PatchView>,
    count: nat,
)
    ensures
        replay(cache, document_uuid, patches, count).contents.len() <= count,
        replay(cache, document_uuid, patches, count).ok ==> replay(
            cache,
            document_uuid,
            patches,
            count,
        ).contents.len() == count,
    decreases count,
{
    if count > 0 {
        lemma_replay_len(cache, document_uuid, patches, (count - 1) as nat);
    }
}

/// A replay that has stopped stays as it is.
pub proof fn lemma_replay_stopped(
    cache: CacheView,
    document_uuid: Seq<char>,
    patches: Seq<PatchView>,
    stopped: nat,
    count: nat,
)
    requires
        stopped <= count,
        !replay(cache, document_uuid, patches, stopped).ok,
    ensures
        replay(cache, document_uuid, patches, count) == replay(
            cache,
            document_uuid,
            patches,
            stopped,
        ),
    decreases count,
{
    if count > stopped {
        lemma_replay_stopped(cache, document_uuid, patches, stopped, (count - 1) as nat);
    }
}

/// The position that holds the content for the timestamp of `from`.
fn timestamp_slot(patches: &Vec<Patch>, from: usize, upto: usize) -> (slot: usize)
    requires
        from < upto <= patches.len(),
    ensures
        slot == slot_at(patch_views(patches@), from as int, upto as int),
        from <= slot < upto,
{
    let mut slot: usize = from;
    while slot + 1 < upto && patches[slot + 1].timestamp == patches[slot].timestamp
        invariant
            from <= slot < upto <= patches.len(),
            slot_at(patch_views(patches@), from as int, upto as int) == slot_at(
                patch_views(patches@),
                slot as int,
                upto as int,
            ),
        decreases upto - slot,
    {
        slot = slot + 1;
    }
    slot
}

/// The first position of the patches that share the timestamp of the patch
/// at `index`.
fn first_of_run(patches: &Vec<Patch>, index: usize) -> (start: usize)
    requires
        index < patches.len(),
    ensures
        start == run_start(patch_views(patches@), index as int),
        start <= index,
{
    let mut start: usize = index;
    while start > 0 && patches[start - 1].timestamp == patches[start].timestamp
        invariant
            start <= index < patches.len(),
            run_start(patch_views(patches@), index as int) == run_start(
                patch_views(patches@),
                start as int,
            ),
        decreases start,
    {
        start = start - 1;
    }
    start
}

/// The base that a tag names for the patch at `index`, from the contents
/// resolved for the patches before it.
pub fn base_for(patches: &Vec<Patch>, resolved: &Vec<Vec<u8>>, index: usize, tag: usize) -> (base:
    Vec<u8>)
    requires
        index < patches.len(),
        resolved.len() == index,
    ensures
        base@ == base_for_tag(
            patch_views(patches@),
            byte_views(resolved@),
            index as int,
            tag as nat,
        ),
{
    let position = first_of_run(patches, index);
    if position > tag {
        let slot = timestamp_slot(patches, position - tag - 1, index);
        resolved[slot].clone()
    } else {
        Vec::new()
    }
}

/// The tag of a patch, as `patch_tag` defines it.
fn tag_of(patch: &Patch) -> (tag: usize)
    ensures
        tag == patch_tag(patch@),
{
    match &patch.delta {
        Some(delta) => match read_tag(delta.as_bytes().as_slice()) {
            Some(tag) => tag,
            None => 0,
        },
        None => 0,
    }
}

/// Reconstructs the content of a document from its patches up to some time,
/// given in ascending order of time: the content of the last of them, or the
/// empty content where there is none.
///
/// Contents that the cache remembers are reused; every content resolved here
/// is remembered. A delta that does not decode ends the call with
/// `DecodeError`; what was remembered up to then stays.
pub fn reconstruct(cache: &mut VersionCache, document_uuid: &str, patches: &Vec<Patch>) -> (result:
    Result<Vec<u8>, VersionError>)
    requires
        ascending(patch_views(patches@)),
    ensures
        final(cache)@ == replay(
            old(cache)@,
            document_uuid@,
            patch_views(patches@),
            patches.len() as nat,
        ).cache,
        match result {
            Ok(content) => replay_result(
                replay(old(cache)@, document_uuid@, patch_views(patches@), patches.len() as nat),
            ) == Ok::<Seq<u8>, VersionError>(content@),
            Err(error) => replay_result(
                replay(old(cache)@, document_uuid@, patch_views(patches@), patches.len() as nat),
            ) == Err::<Seq<u8>, VersionError>(error),
        },
{
    let ghost views = patch_views(patches@);
    let ghost start = cache@;
    let ghost document = document_uuid@;
    let mut resolved: Vec<Vec<u8>> = Vec::new();
    let mut index: usize = 0;
    while index < patches.len()
        invariant
            index <= patches.len(),
            views == patch_views(patches@),
            document == document_uuid@,
            start == old(cache)@,
            replay(start, document, views, index as nat).ok,
            cache@ == replay(start, document, views, index as nat).cache,
            byte_views(resolved@) == replay(start, document, views, index as nat).contents,
            resolved.len() == index,
        decreases patches.len() - index,
    {
        let ghost before = replay(start, document, views, index as nat);
        let patch = &patches[index];
        assert(patch@ == views[index as int]);
        match cache.get(document_uuid, patch.uuid.as_str()) {
            Some(remembered) => {
                resolved.push(remembered);
            },
            None => {
                let tag = tag_of(patch);
                let base = base_for(patches, &resolved, index, tag);
                assert(base@ == base_content(views, before.contents, index as int));
                let content = match &patch.delta {
                    Some(delta) => match decode_delta(
                        base.as_slice(),
                        delta.as_bytes().as_slice(),
                    ) {
                        Some(content) => content,
                        None => {
                            proof {
                                assert(!replay(start, document, views, (index + 1) as nat).ok);
                                lemma_replay_stopped(
                                    start,
                                    document,
                                    views,
                                    (index + 1) as nat,
                                    patches.len() as nat,
                                );
                            }
                            return Err(VersionError::DecodeError);
                        },
                    },
                    None => base,
                };
                cache.put(document_uuid, patch.uuid.as_str(), content.clone());
                resolved.push(content);
            },
        }
        assert(byte_views(resolved@) =~= replay(
            start,
            document,
            views,
            (index + 1) as nat,
        ).contents);
        index = index + 1;
    }
    match resolved.pop() {
        Some(content) => Ok(content),
        None => Ok(Vec::new()),
    }
}

} // verus!

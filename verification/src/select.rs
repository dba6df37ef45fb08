//! Choosing the base of a new version.
//!
//! The most recent versions before the new one are tried in turn, the
//! latest first. Each is reconstructed and the new content is encoded
//! against it, under the tag that names it: 0 for the latest, 1 for the one
//! before, and so on. The smallest delta is kept, the earliest among equals.

use vstd::prelude::*;
use crate::cache::{CacheView, VersionCache};
use crate::chain::{reconstruct, replay, replay_result, Replay};
use crate::codec::{codec_decode, codec_encode, codec_tag, encode_delta};
use crate::model::{PatchView, VersionError};
use crate::store::{of_document_upto, recent_timestamps, PatchStore};

verus! {

/// The replay that reconstructs a document as of a time, from a given cache.
pub open spec fn version_replay(
    cache: CacheView,
    patches: Seq<PatchView>,
    document_uuid: Seq<char>,
    timestamp: i64,
) -> Replay {
    let history = patches.filter(of_document_upto(document_uuid, timestamp));
    replay(cache, document_uuid, history, history.len())
}

/// The state of a search for the base: the cache as it then stands, the
/// best tag and delta so far, and whether every candidate so far could be
/// reconstructed.
pub struct Selection {
    pub cache: CacheView,
    pub tag: nat,
    pub delta: Seq<u8>,
    pub ok: bool,
}

/// The content of the candidate at `index`, reconstructed from the cache of
/// the search at that point; empty where it cannot be reconstructed.
pub open spec fn candidate_base(
    state: Selection,
    patches: Seq<PatchView>,
    document_uuid: Seq<char>,
    candidates: Seq<i64>,
    index: int,
) -> Seq<u8> {
    match replay_result(version_replay(state.cache, patches, document_uuid, candidates[index])) {
        Ok(base) => base,
        Err(_) => Seq::empty(),
    }
}

/// One step of the search: the candidate at `index` is reconstructed and
/// encoded against. Its delta is kept where it is the first or shorter than
/// the best so far. A candidate that cannot be reconstructed stops the search.
pub open spec fn search_step(
    state: Selection,
    patches: Seq<PatchView>,
    document_uuid: Seq<char>,
    candidates: Seq<i64>,
    content: Seq<u8>,
    compress: bool,
    index: int,
) -> Selection {
    let version = version_replay(state.cache, patches, document_uuid, candidates[index]);
    if !version.ok {
        Selection { cache: version.cache, ok: false, ..state }
    } else {
        let delta = codec_encode(
            index as nat,
            candidate_base(state, patches, document_uuid, candidates, index),
            content,
            compress,
        );
        if index == 0 || delta.len() < state.delta.len() {
            Selection { cache: version.cache, tag: index as nat, delta, ok: true }
        } else {
            Selection { cache: version.cache, ..state }
        }
    }
}

/// The search over the first `count` candidates, from a given cache.
pub open spec fn search(
    cache: CacheView,
    patches: Seq<PatchView>,
    document_uuid: Seq<char>,
    candidates: Seq<i64>,
    content: Seq<u8>,
    compress: bool,
    count: nat,
) -> Selection
    decreases count,
{
    if count == 0 {
        Selection { cache, tag: 0, delta: Seq::empty(), ok: true }
    } else {
        let before = search(
            cache,
            patches,
            document_uuid,
            candidates,
            content,
            compress,
            (count - 1) as nat,
        );
        if before.ok {
            search_step(before, patches, document_uuid, candidates, content, compress, count - 1)
        } else {
            before
        }
    }
}

/// The base chosen for new content of a document at a time: with no
/// earlier version, the delta against the empty content under tag 0; else
/// the outcome of the search over up to `window` most recent versions.
pub open spec fn select_base(
    cache: CacheView,
    patches: Seq<PatchView>,
    document_uuid: Seq<char>,
    timestamp: i64,
    content: Seq<u8>,
    window: nat,
    compress: bool,
) -> Selection {
    let candidates = recent_timestamps(patches, document_uuid, timestamp, window);
    if candidates.len() == 0 {
        Selection {
            cache,
            tag: 0,
            delta: codec_encode(0, Seq::empty(), content, compress),
            ok: true,
        }
    } else {
        search(cache, patches, document_uuid, candidates, content, compress, candidates.len())
    }
}

/// The content that the candidate at `index` had when the search came to it.
pub open spec fn searched_base(
    cache: CacheView,
    patches: Seq<PatchView>,
    document_uuid: Seq<char>,
    candidates: Seq<i64>,
    content: Seq<u8>,
    compress: bool,
    index: int,
) -> Seq<u8> {
    candidate_base(
        search(cache, patches, document_uuid, candidates, content, compress, index as nat),
        patches,
        document_uuid,
        candidates,
        index,
    )
}

/// The content that the chosen delta was encoded against.
pub open spec fn selected_base(
    cache: CacheView,
    patches: Seq<PatchView>,
    document_uuid: Seq<char>,
    timestamp: i64,
    content: Seq<u8>,
    window: nat,
    compress: bool,
) -> Seq<u8> {
    let candidates = recent_timestamps(patches, document_uuid, timestamp, window);
    if candidates.len() == 0 {
        Seq::empty()
    } else {
        searched_base(
            cache,
            patches,
            document_uuid,
            candidates,
            content,
            compress,
            select_base(cache, patches, document_uuid, timestamp, content, window, compress).tag as int,
        )
    }
}

/// No candidate within the window, encoded against under its own tag, gives
/// a delta shorter than `delta`; the latest version, tag 0, is among them.
pub open spec fn no_candidate_shorter(
    cache: CacheView,
    patches: Seq<PatchView>,
    document_uuid: Seq<char>,
    timestamp: i64,
    content: Seq<u8>,
    window: nat,
    compress: bool,
    delta: Seq<u8>,
) -> bool {
    let candidates = recent_timestamps(patches, document_uuid, timestamp, window);
    forall|k: int|
        0 <= k < candidates.len() ==> delta.len() <= (#[trigger] codec_encode(
            k as nat,
            searched_base(cache, patches, document_uuid, candidates, content, compress, k),
            content,
            compress,
        )).len()
}

/// What holds of the best delta after `count` candidates: it is the
/// encoder's, for the candidate it names, and no candidate so far gave a
/// shorter one.
pub open spec fn best_so_far(
    cache: CacheView,
    patches: Seq<PatchView>,
    document_uuid: Seq<char>,
    candidates: Seq<i64>,
    content: Seq<u8>,
    compress: bool,
    count: nat,
) -> bool {
    let state = search(cache, patches, document_uuid, candidates, content, compress, count);
    count > 0 && state.ok ==> {
        &&& state.tag < count
        &&& state.delta == codec_encode(
            state.tag,
            searched_base(
                cache,
                patches,
                document_uuid,
                candidates,
                content,
                compress,
                state.tag as int,
            ),
            content,
            compress,
        )
        &&& forall|k: int|
            0 <= k < count ==> state.delta.len() <= (#[trigger] codec_encode(
                k as nat,
                searched_base(cache, patches, document_uuid, candidates, content, compress, k),
                content,
                compress,
            )).len()
    }
}

/// A search that has stopped stays as it is.
pub proof fn lemma_search_stopped(
    cache: CacheView,
    patches: Seq<PatchView>,
    document_uuid: Seq<char>,
    candidates: Seq<i64>,
    content: Seq<u8>,
    compress: bool,
    stopped: nat,
    count: nat,
)
    requires
        stopped <= count,
        !search(cache, patches, document_uuid, candidates, content, compress, stopped).ok,
    ensures
        search(cache, patches, document_uuid, candidates, content, compress, count) == search(
            cache,
            patches,
            document_uuid,
            candidates,
            content,
            compress,
            stopped,
        ),
    decreases count,
{
    if count > stopped {
        lemma_search_stopped(
            cache,
            patches,
            document_uuid,
            candidates,
            content,
            compress,
            stopped,
            (count - 1) as nat,
        );
    }
}

/// The best delta of a search is the encoder's for the candidate it names,
/// and no candidate gave a shorter one.
pub proof fn lemma_search_best(
    cache: CacheView,
    patches: Seq<PatchView>,
    document_uuid: Seq<char>,
    candidates: Seq<i64>,
    content: Seq<u8>,
    compress: bool,
    count: nat,
)
    ensures
        best_so_far(cache, patches, document_uuid, candidates, content, compress, count),
    decreases count,
{
    let state = search(cache, patches, document_uuid, candidates, content, compress, count);
    if count > 0 && state.ok {
        let before = search(
            cache,
            patches,
            document_uuid,
            candidates,
            content,
            compress,
            (count - 1) as nat,
        );
        lemma_search_best(
            cache,
            patches,
            document_uuid,
            candidates,
            content,
            compress,
            (count - 1) as nat,
        );
        assert(before.ok);
        let last = codec_encode(
            (count - 1) as nat,
            searched_base(cache, patches, document_uuid, candidates, content, compress, count - 1),
            content,
            compress,
        );
        assert forall|k: int| 0 <= k < count implies state.delta.len() <= (#[trigger] codec_encode(
            k as nat,
            searched_base(cache, patches, document_uuid, candidates, content, compress, k),
            content,
            compress,
        )).len() by {
            if k == count - 1 {
                assert(state.delta.len() <= last.len());
            }
        }
    }
}

/// Whether the delta of the candidate at `index` is kept over the best so
/// far: the first always, a later one where it is shorter.
pub fn prefers(index: usize, candidate: &[u8], best: &[u8]) -> (kept: bool)
    ensures
        kept == (index == 0 || candidate@.len() < best@.len()),
{
    index == 0 || candidate.len() < best.len()
}

/// Finds the base that gives the smallest delta for new content of a
/// document at a time, among up to `max_depth` most recent versions before it.
///
/// Returns the tag of the chosen version and the delta. With no earlier
/// version the content is encoded against the empty content under tag 0.
/// Every candidate is reconstructed through the cache; one that cannot be
/// reconstructed ends the call with `DecodeError`.
pub fn find_optimal_base(
    store: &PatchStore,
    cache: &mut VersionCache,
    document_uuid: &str,
    current_timestamp: i64,
    new_content: &[u8],
    max_depth: usize,
    enable_zstd: bool,
) -> (result: Result<(usize, Vec<u8>), VersionError>)
    requires
        store.wf(),
    ensures
        final(cache)@ == select_base(
            old(cache)@,
            store@.patches,
            document_uuid@,
            current_timestamp,
            new_content@,
            max_depth as nat,
            enable_zstd,
        ).cache,
        match result {
            Ok((tag, delta)) => {
                let chosen = select_base(
                    old(cache)@,
                    store@.patches,
                    document_uuid@,
                    current_timestamp,
                    new_content@,
                    max_depth as nat,
                    enable_zstd,
                );
                let base = selected_base(
                    old(cache)@,
                    store@.patches,
                    document_uuid@,
                    current_timestamp,
                    new_content@,
                    max_depth as nat,
                    enable_zstd,
                );
                &&& chosen.ok
                &&& tag == chosen.tag
                &&& delta@ == chosen.delta
                &&& delta@ == codec_encode(tag as nat, base, new_content@, enable_zstd)
                &&& codec_decode(base, delta@) == Some(new_content@)
                &&& codec_tag(delta@) == Some(tag as nat)
                &&& no_candidate_shorter(
                    old(cache)@,
                    store@.patches,
                    document_uuid@,
                    current_timestamp,
                    new_content@,
                    max_depth as nat,
                    enable_zstd,
                    delta@,
                )
            },
            Err(error) => error == VersionError::DecodeError && !select_base(
                old(cache)@,
                store@.patches,
                document_uuid@,
                current_timestamp,
                new_content@,
                max_depth as nat,
                enable_zstd,
            ).ok,
        },
{
    let candidates = store.query_recent_patch_timestamps(
        document_uuid,
        current_timestamp,
        max_depth,
    );
    if candidates.len() == 0 {
        let empty: Vec<u8> = Vec::new();
        let delta = encode_delta(0, empty.as_slice(), new_content, enable_zstd);
        assert(empty@ =~= Seq::<u8>::empty());
        return Ok((0, delta));
    }
    let ghost start = cache@;
    let ghost patches = store@.patches;
    let ghost document = document_uuid@;
    let ghost content = new_content@;
    let mut best_tag: usize = 0;
    let mut best_delta: Vec<u8> = Vec::new();
    let mut index: usize = 0;
    while index < candidates.len()
        invariant
            index <= candidates.len(),
            store.wf(),
            start == old(cache)@,
            patches == store@.patches,
            document == document_uuid@,
            content == new_content@,
            candidates@ == recent_timestamps(
                patches,
                document,
                current_timestamp,
                max_depth as nat,
            ),
            candidates.len() > 0,
            search(start, patches, document, candidates@, content, enable_zstd, index as nat).ok,
            cache@ == search(
                start,
                patches,
                document,
                candidates@,
                content,
                enable_zstd,
                index as nat,
            ).cache,
            best_tag == search(
                start,
                patches,
                document,
                candidates@,
                content,
                enable_zstd,
                index as nat,
            ).tag,
            best_delta@ == search(
                start,
                patches,
                document,
                candidates@,
                content,
                enable_zstd,
                index as nat,
            ).delta,
            index > 0 ==> {
                let base = searched_base(
                    start,
                    patches,
                    document,
                    candidates@,
                    content,
                    enable_zstd,
                    best_tag as int,
                );
                &&& best_tag < index
                &&& best_delta@ == codec_encode(best_tag as nat, base, content, enable_zstd)
                &&& codec_decode(base, best_delta@) == Some(content)
                &&& codec_tag(best_delta@) == Some(best_tag as nat)
            },
        decreases candidates.len() - index,
    {
        let history = store.query_patches_upto(document_uuid, candidates[index]);
        let base = match reconstruct(cache, document_uuid, &history) {
            Ok(base) => base,
            Err(error) => {
                proof {
                    assert(!search(
                        start,
                        patches,
                        document,
                        candidates@,
                        content,
                        enable_zstd,
                        (index + 1) as nat,
                    ).ok);
                    lemma_search_stopped(
                        start,
                        patches,
                        document,
                        candidates@,
                        content,
                        enable_zstd,
                        (index + 1) as nat,
                        candidates.len() as nat,
                    );
                }
                return Err(VersionError::DecodeError);
            },
        };
        let delta = encode_delta(index, base.as_slice(), new_content, enable_zstd);
        assert(base@ == searched_base(
            start,
            patches,
            document,
            candidates@,
            content,
            enable_zstd,
            index as int,
        ));
        if prefers(index, delta.as_slice(), best_delta.as_slice()) {
            best_tag = index;
            best_delta = delta;
        }
        index = index + 1;
    }
    proof {
        lemma_search_best(
            start,
            patches,
            document,
            candidates@,
            content,
            enable_zstd,
            candidates.len() as nat,
        );
    }
    Ok((best_tag, best_delta))
}

} // verus!

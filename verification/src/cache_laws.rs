//! The laws of the cache.
//!
//! Reading twice answers twice the same, whatever the cache holds. A cache
//! that remembers nothing false of a document is never seen in reads of
//! it: they return what the store alone determines. And no reading makes a
//! cache false of any document of which it was true.

use vstd::prelude::*;
use crate::cache::CacheView;
use crate::chain::{ascending, replay, replay_result};
use crate::history_laws::{history, lemma_filter_distinct, lemma_upto_prefix};
use crate::model::{PatchView, VersionError};
use crate::replay_laws::{
    coherent,
    lemma_coherent_elsewhere,
    lemma_pure_cache,
    lemma_replay_again,
    lemma_replay_frame,
    lemma_replay_grows,
    lemma_replay_prefix,
    lemma_replays_agree,
    true_contents,
};
use crate::select::{search, select_base, version_replay};
use crate::store::{distinct_ids, of_document, of_document_upto, recent_timestamps};

verus! {

/// The cache remembers nothing false of one document of the store: what
/// it holds for a patch of the document is the content that the patch
/// resolves to.
pub open spec fn coherent_for(
    cache: CacheView,
    patches: Seq<PatchView>,
    document_uuid: Seq<char>,
) -> bool {
    coherent(cache, document_uuid, history(patches, document_uuid))
}

/// From one cache to another, over the same patches, nothing true is lost:
/// of whatever document the first remembered nothing false, the second
/// remembers nothing false.
pub open spec fn keeps_coherent(before: CacheView, after: CacheView, patches: Seq<PatchView>) -> bool {
    forall|document_uuid: Seq<char>|
        coherent_for(before, patches, document_uuid) ==> #[trigger] coherent_for(
            after,
            patches,
            document_uuid,
        )
}

/// The content of a document as of a time, as the store alone determines
/// it: reconstructed with nothing remembered.
pub open spec fn content_at(patches: Seq<PatchView>, document_uuid: Seq<char>, timestamp: i64) -> Result<
    Seq<u8>,
    VersionError,
> {
    replay_result(version_replay(Map::empty(), patches, document_uuid, timestamp))
}

/// Repeatability. Whatever the cache holds, reconstructing a document as
/// of a time a second time, from the cache that the first time left,
/// yields what the first time yielded and leaves the cache as it is.
pub proof fn law_repeatable(
    cache: CacheView,
    patches: Seq<PatchView>,
    document_uuid: Seq<char>,
    timestamp: i64,
)
    ensures
        version_replay(
            version_replay(cache, patches, document_uuid, timestamp).cache,
            patches,
            document_uuid,
            timestamp,
        ) == version_replay(cache, patches, document_uuid, timestamp),
{
    let upto = patches.filter(of_document_upto(document_uuid, timestamp));
    lemma_replay_again(cache, document_uuid, upto, upto.len(), upto.len());
}

/// Determinism. With a cache that remembers nothing false of a document,
/// reconstructing the document as of a time yields what the store alone
/// determines, and leaves a cache that remembers nothing false of it: so
/// does every later call, with the cache kept or cleared.
pub proof fn law_determinism(
    cache: CacheView,
    patches: Seq<PatchView>,
    document_uuid: Seq<char>,
    timestamp: i64,
)
    requires
        ascending(patches),
        distinct_ids(patches),
        coherent_for(cache, patches, document_uuid),
    ensures
        replay_result(version_replay(cache, patches, document_uuid, timestamp)) == content_at(
            patches,
            document_uuid,
            timestamp,
        ),
        coherent_for(
            version_replay(cache, patches, document_uuid, timestamp).cache,
            patches,
            document_uuid,
        ),
{
    let upto = patches.filter(of_document_upto(document_uuid, timestamp));
    let all = history(patches, document_uuid);
    let count = upto.len();
    lemma_upto_prefix(patches, document_uuid, timestamp);
    lemma_filter_distinct(patches, of_document(document_uuid));
    lemma_replay_prefix(cache, document_uuid, upto, all, count);
    lemma_replay_prefix(Map::empty(), document_uuid, upto, all, count);
    lemma_replays_agree(cache, document_uuid, all, count);
    lemma_pure_cache(document_uuid, all, count);
    lemma_replay_grows(Map::empty(), document_uuid, all, count, all.len());
    let warm = replay(cache, document_uuid, all, count);
    let pure = replay(Map::empty(), document_uuid, all, count);
    assert(warm == version_replay(cache, patches, document_uuid, timestamp));
    assert forall|i: int|
        0 <= i < all.len() && warm.cache.contains_key(
            (document_uuid, (#[trigger] all[i]).uuid),
        ) implies i < true_contents(document_uuid, all).len() && warm.cache[(
        document_uuid,
        all[i].uuid,
    )] == true_contents(document_uuid, all)[i] by {
        let key = (document_uuid, all[i].uuid);
        if pure.cache.contains_key(key) {
            let j = choose|j: int|
                0 <= j < pure.contents.len() && (#[trigger] all[j]).uuid == key.1;
            if j < i {
                assert(all[j].uuid != all[i].uuid);
            } else if i < j {
                assert(all[i].uuid != all[j].uuid);
            }
            assert(pure.cache[(document_uuid, all[i].uuid)] == pure.contents[i]);
        } else {
            assert(cache.contains_key(key));
        }
    }
}

/// No reading makes a cache false: reconstructing any document leaves the
/// cache true of every document of which it was true.
pub proof fn lemma_read_keeps_coherent(
    cache: CacheView,
    patches: Seq<PatchView>,
    document_uuid: Seq<char>,
    timestamp: i64,
)
    requires
        ascending(patches),
        distinct_ids(patches),
    ensures
        keeps_coherent(
            cache,
            version_replay(cache, patches, document_uuid, timestamp).cache,
            patches,
        ),
{
    let upto = patches.filter(of_document_upto(document_uuid, timestamp));
    let after = version_replay(cache, patches, document_uuid, timestamp).cache;
    lemma_replay_frame(cache, document_uuid, upto, upto.len());
    assert forall|other: Seq<char>| coherent_for(cache, patches, other) implies #[trigger]
        coherent_for(after, patches, other) by {
        if other == document_uuid {
            law_determinism(cache, patches, document_uuid, timestamp);
        } else {
            lemma_coherent_elsewhere(cache, after, document_uuid, other, history(patches, other));
        }
    }
}

/// Nor does the search for a base, which reads its candidates through the
/// cache.
pub proof fn lemma_search_keeps_coherent(
    cache: CacheView,
    patches: Seq<PatchView>,
    document_uuid: Seq<char>,
    candidates: Seq<i64>,
    content: Seq<u8>,
    compress: bool,
    count: nat,
)
    requires
        ascending(patches),
        distinct_ids(patches),
    ensures
        keeps_coherent(
            cache,
            search(cache, patches, document_uuid, candidates, content, compress, count).cache,
            patches,
        ),
    decreases count,
{
    if count > 0 {
        lemma_search_keeps_coherent(
            cache,
            patches,
            document_uuid,
            candidates,
            content,
            compress,
            (count - 1) as nat,
        );
        let before = search(
            cache,
            patches,
            document_uuid,
            candidates,
            content,
            compress,
            (count - 1) as nat,
        );
        let after = search(cache, patches, document_uuid, candidates, content, compress, count);
        lemma_read_keeps_coherent(before.cache, patches, document_uuid, candidates[count - 1]);
        assert forall|other: Seq<char>| coherent_for(cache, patches, other) implies #[trigger]
            coherent_for(after.cache, patches, other) by {
            assert(coherent_for(before.cache, patches, other));
        }
    }
}

/// Nor does the choice of a base.
pub proof fn lemma_select_keeps_coherent(
    cache: CacheView,
    patches: Seq<PatchView>,
    document_uuid: Seq<char>,
    timestamp: i64,
    content: Seq<u8>,
    window: nat,
    compress: bool,
)
    requires
        ascending(patches),
        distinct_ids(patches),
    ensures
        keeps_coherent(
            cache,
            select_base(cache, patches, document_uuid, timestamp, content, window, compress).cache,
            patches,
        ),
{
    let candidates = recent_timestamps(patches, document_uuid, timestamp, window);
    lemma_search_keeps_coherent(
        cache,
        patches,
        document_uuid,
        candidates,
        content,
        compress,
        candidates.len(),
    );
}

/// The answers to a sequence of reads, and the cache after them.
pub struct Reads {
    pub cache: CacheView,
    pub answers: Seq<Result<Seq<u8>, VersionError>>,
}

/// The first `count` of a sequence of reads, each of a document as of a
/// time, made one after the other from a given cache.
pub open spec fn read_all(
    cache: CacheView,
    patches: Seq<PatchView>,
    requests: Seq<(Seq<char>, i64)>,
    count: nat,
) -> Reads
    decreases count,
{
    if count == 0 {
        Reads { cache, answers: Seq::empty() }
    } else {
        let before = read_all(cache, patches, requests, (count - 1) as nat);
        let request = requests[count - 1];
        let version = version_replay(before.cache, patches, request.0, request.1);
        Reads { cache: version.cache, answers: before.answers.push(replay_result(version)) }
    }
}

/// The cache remembers nothing false of any document that is read.
pub open spec fn coherent_for_reads(
    cache: CacheView,
    patches: Seq<PatchView>,
    requests: Seq<(Seq<char>, i64)>,
) -> bool {
    forall|i: int|
        0 <= i < requests.len() ==> coherent_for(cache, patches, (#[trigger] requests[i]).0)
}

/// Reads of documents of which the cache remembers nothing false answer
/// as the store alone determines.
pub proof fn lemma_reads_answer(
    cache: CacheView,
    patches: Seq<PatchView>,
    requests: Seq<(Seq<char>, i64)>,
    count: nat,
)
    requires
        ascending(patches),
        distinct_ids(patches),
        coherent_for_reads(cache, patches, requests),
        count <= requests.len(),
    ensures
        keeps_coherent(cache, read_all(cache, patches, requests, count).cache, patches),
        read_all(cache, patches, requests, count).answers.len() == count,
        forall|i: int|
            0 <= i < count ==> #[trigger] read_all(cache, patches, requests, count).answers[i]
                == content_at(patches, requests[i].0, requests[i].1),
    decreases count,
{
    if count > 0 {
        lemma_reads_answer(cache, patches, requests, (count - 1) as nat);
        let before = read_all(cache, patches, requests, (count - 1) as nat);
        let after = read_all(cache, patches, requests, count);
        let request = requests[count - 1];
        assert(coherent_for(cache, patches, requests[count - 1].0));
        assert(coherent_for(before.cache, patches, request.0));
        law_determinism(before.cache, patches, request.0, request.1);
        lemma_read_keeps_coherent(before.cache, patches, request.0, request.1);
        assert forall|other: Seq<char>| coherent_for(cache, patches, other) implies #[trigger]
            coherent_for(after.cache, patches, other) by {
            assert(coherent_for(before.cache, patches, other));
        }
    }
}

/// Cache transparency. Any sequence of reads answers the same from a cache
/// that remembers nothing false of the documents read as from a cleared one.
pub proof fn law_cache_transparency(
    cache: CacheView,
    patches: Seq<PatchView>,
    requests: Seq<(Seq<char>, i64)>,
)
    requires
        ascending(patches),
        distinct_ids(patches),
        coherent_for_reads(cache, patches, requests),
    ensures
        read_all(cache, patches, requests, requests.len()).answers == read_all(
            Map::empty(),
            patches,
            requests,
            requests.len(),
        ).answers,
{
    let cleared = Map::<(Seq<char>, Seq<char>), Seq<u8>>::empty();
    assert(coherent_for_reads(cleared, patches, requests));
    lemma_reads_answer(cache, patches, requests, requests.len());
    lemma_reads_answer(cleared, patches, requests, requests.len());
    assert(read_all(cache, patches, requests, requests.len()).answers =~= read_all(
        cleared,
        patches,
        requests,
        requests.len(),
    ).answers);
}

} // verus!

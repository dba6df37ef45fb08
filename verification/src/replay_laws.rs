//! What holds of a replay whatever the cache remembers, as long as it
//! remembers nothing false.

use vstd::prelude::*;
use crate::cache::CacheView;
use crate::chain::{
    base_content,
    lemma_replay_len,
    lemma_replay_stopped,
    patch_tag,
    replay,
    run_start,
    slot_at,
    Replay,
};
use crate::model::PatchView;
use crate::store::distinct_ids;

verus! {

/// The contents that a history resolves to when nothing is remembered: one
/// for each patch up to the first whose delta does not decode.
pub open spec fn true_contents(document_uuid: Seq<char>, history: Seq<PatchView>) -> Seq<Seq<u8>> {
    replay(Map::empty(), document_uuid, history, history.len()).contents
}

/// The cache remembers nothing false of a history: what it holds for a
/// patch of it is the content that the patch resolves to.
pub open spec fn coherent(cache: CacheView, document_uuid: Seq<char>, history: Seq<PatchView>) -> bool {
    forall|i: int|
        0 <= i < history.len() && cache.contains_key((document_uuid, (#[trigger] history[i]).uuid))
            ==> i < true_contents(document_uuid, history).len() && cache[(
            document_uuid,
            history[i].uuid,
        )] == true_contents(document_uuid, history)[i]
}

/// Some patch among the first `count` has this id.
pub open spec fn id_among(history: Seq<PatchView>, uuid: Seq<char>, count: int) -> bool {
    exists|i: int| 0 <= i < count && (#[trigger] history[i]).uuid == uuid
}

/// The slot for a timestamp depends only on the patches before `upto`.
pub proof fn lemma_slot_prefix(first: Seq<PatchView>, second: Seq<PatchView>, from: int, upto: int)
    requires
        0 <= from < upto,
        upto <= first.len(),
        upto <= second.len(),
        forall|i: int| 0 <= i < upto ==> first[i] == second[i],
    ensures
        slot_at(first, from, upto) == slot_at(second, from, upto),
        from <= slot_at(first, from, upto) < upto,
    decreases upto - from,
{
    if from + 1 < upto && first[from + 1].timestamp == first[from].timestamp {
        lemma_slot_prefix(first, second, from + 1, upto);
    }
}

/// The position of a patch depends only on the patches up to it.
pub proof fn lemma_run_prefix(first: Seq<PatchView>, second: Seq<PatchView>, index: int)
    requires
        0 <= index < first.len(),
        index < second.len(),
        forall|i: int| 0 <= i <= index ==> first[i] == second[i],
    ensures
        run_start(first, index) == run_start(second, index),
        0 <= run_start(first, index) <= index,
    decreases index,
{
    if index > 0 && first[index - 1].timestamp == first[index].timestamp {
        lemma_run_prefix(first, second, index - 1);
    }
}

/// The replay of the first `count` patches depends only on those patches.
pub proof fn lemma_replay_prefix(
    cache: CacheView,
    document_uuid: Seq<char>,
    first: Seq<PatchView>,
    second: Seq<PatchView>,
    count: nat,
)
    requires
        count <= first.len(),
        count <= second.len(),
        forall|i: int| 0 <= i < count ==> first[i] == second[i],
    ensures
        replay(cache, document_uuid, first, count) == replay(cache, document_uuid, second, count),
    decreases count,
{
    if count > 0 {
        lemma_replay_prefix(cache, document_uuid, first, second, (count - 1) as nat);
        let before = replay(cache, document_uuid, first, (count - 1) as nat);
        let index = count - 1;
        assert(first[index] == second[index]);
        lemma_run_prefix(first, second, index);
        let back = run_start(first, index) - patch_tag(first[index]) - 1;
        if back >= 0 {
            lemma_slot_prefix(first, second, back, index);
        }
        assert(base_content(first, before.contents, index) == base_content(
            second,
            before.contents,
            index,
        ));
    }
}

/// A longer replay keeps what a shorter one resolved, and has not stopped
/// unless the shorter one had.
pub proof fn lemma_replay_grows(
    cache: CacheView,
    document_uuid: Seq<char>,
    history: Seq<PatchView>,
    shorter: nat,
    longer: nat,
)
    requires
        shorter <= longer,
    ensures
        replay(cache, document_uuid, history, longer).ok ==> replay(
            cache,
            document_uuid,
            history,
            shorter,
        ).ok,
        replay(cache, document_uuid, history, shorter).contents.len() <= replay(
            cache,
            document_uuid,
            history,
            longer,
        ).contents.len(),
        forall|i: int|
            0 <= i < replay(cache, document_uuid, history, shorter).contents.len() ==> replay(
                cache,
                document_uuid,
                history,
                longer,
            ).contents[i] == replay(cache, document_uuid, history, shorter).contents[i],
        replay(cache, document_uuid, history, shorter).contents.len() <= shorter,
        replay(cache, document_uuid, history, shorter).ok ==> replay(
            cache,
            document_uuid,
            history,
            shorter,
        ).contents.len() == shorter,
        !replay(cache, document_uuid, history, shorter).ok ==> replay(
            cache,
            document_uuid,
            history,
            longer,
        ) == replay(cache, document_uuid, history, shorter),
    decreases longer,
{
    lemma_replay_len(cache, document_uuid, history, shorter);
    if longer > shorter {
        lemma_replay_grows(cache, document_uuid, history, shorter, (longer - 1) as nat);
        lemma_replay_len(cache, document_uuid, history, (longer - 1) as nat);
    }
}

/// What the replay from an empty cache remembers: exactly the contents it
/// resolved, each under the id of its patch.
pub proof fn lemma_pure_cache(document_uuid: Seq<char>, history: Seq<PatchView>, count: nat)
    requires
        count <= history.len(),
        distinct_ids(history),
    ensures
        ({
            let pure = replay(Map::empty(), document_uuid, history, count);
            &&& forall|i: int|
                0 <= i < pure.contents.len() ==> pure.cache.contains_key(
                    (document_uuid, (#[trigger] history[i]).uuid),
                ) && pure.cache[(document_uuid, history[i].uuid)] == pure.contents[i]
            &&& forall|key: (Seq<char>, Seq<char>)| #[trigger]
                pure.cache.contains_key(key) ==> key.0 == document_uuid && id_among(
                    history,
                    key.1,
                    pure.contents.len() as int,
                )
        }),
    decreases count,
{
    if count > 0 {
        let before = replay(Map::empty(), document_uuid, history, (count - 1) as nat);
        let pure = replay(Map::empty(), document_uuid, history, count);
        lemma_pure_cache(document_uuid, history, (count - 1) as nat);
        lemma_replay_len(Map::empty(), document_uuid, history, (count - 1) as nat);
        if before.ok {
            let index = count - 1;
            let key = (document_uuid, history[index].uuid);
            if before.cache.contains_key(key) {
                let j = choose|j: int| 0 <= j < index && (#[trigger] history[j]).uuid == key.1;
                assert(history[j].uuid != history[index].uuid);
            }
            if pure.ok {
                assert forall|i: int| 0 <= i < pure.contents.len() implies pure.cache.contains_key(
                    (document_uuid, (#[trigger] history[i]).uuid),
                ) && pure.cache[(document_uuid, history[i].uuid)] == pure.contents[i] by {
                    if i < index {
                        assert(history[i].uuid != history[index].uuid);
                    }
                }
                assert forall|other: (Seq<char>, Seq<char>)| #[trigger]
                    pure.cache.contains_key(other) implies other.0 == document_uuid && id_among(
                    history,
                    other.1,
                    pure.contents.len() as int,
                ) by {
                    if other == key {
                        assert(history[index].uuid == other.1);
                    } else {
                        assert(before.cache.contains_key(other));
                        let j = choose|j: int|
                            0 <= j < before.contents.len() && (#[trigger] history[j]).uuid
                                == other.1;
                        assert(history[j].uuid == other.1);
                    }
                }
            }
        }
    }
}

/// How a replay from a coherent cache relates to the replay from an empty
/// one: the same contents, stopped or not alike, and a cache that holds
/// what either held.
pub open spec fn replays_agree(cache: CacheView, warm: Replay, pure: Replay) -> bool {
    &&& warm.ok == pure.ok
    &&& warm.contents == pure.contents
    &&& forall|key: (Seq<char>, Seq<char>)| #[trigger]
        warm.cache.contains_key(key) <==> cache.contains_key(key) || pure.cache.contains_key(key)
    &&& forall|key: (Seq<char>, Seq<char>)| #[trigger]
        pure.cache.contains_key(key) ==> warm.cache[key] == pure.cache[key]
    &&& forall|key: (Seq<char>, Seq<char>)|
        cache.contains_key(key) && !(#[trigger] pure.cache.contains_key(key)) ==> warm.cache[key]
            == cache[key]
}

/// A replay from a coherent cache agrees with the replay from an empty one.
pub proof fn lemma_replays_agree(
    cache: CacheView,
    document_uuid: Seq<char>,
    history: Seq<PatchView>,
    count: nat,
)
    requires
        count <= history.len(),
        distinct_ids(history),
        coherent(cache, document_uuid, history),
    ensures
        replays_agree(
            cache,
            replay(cache, document_uuid, history, count),
            replay(Map::empty(), document_uuid, history, count),
        ),
    decreases count,
{
    let warm = replay(cache, document_uuid, history, count);
    let pure = replay(Map::empty(), document_uuid, history, count);
    if count > 0 {
        let index = count - 1;
        let warm_before = replay(cache, document_uuid, history, index as nat);
        let pure_before = replay(Map::empty(), document_uuid, history, index as nat);
        lemma_replays_agree(cache, document_uuid, history, index as nat);
        lemma_pure_cache(document_uuid, history, index as nat);
        lemma_replay_len(Map::empty(), document_uuid, history, index as nat);
        if warm_before.ok {
            let key = (document_uuid, history[index].uuid);
            assert(!pure_before.cache.contains_key(key)) by {
                if pure_before.cache.contains_key(key) {
                    let j = choose|j: int| 0 <= j < index && (#[trigger] history[j]).uuid == key.1;
                    assert(history[j].uuid != history[index].uuid);
                }
            }
            if warm_before.cache.contains_key(key) {
                assert(cache.contains_key(key));
                assert(warm_before.cache[key] == cache[key]);
                let whole = replay(Map::empty(), document_uuid, history, history.len());
                assert(index < whole.contents.len() && cache[key] == whole.contents[index]);
                lemma_replay_grows(Map::empty(), document_uuid, history, count, history.len());
                assert(pure.ok);
                assert(pure.contents[index] == whole.contents[index]);
                assert(pure.contents =~= pure_before.contents.push(cache[key]));
                assert(warm.contents =~= pure.contents);
                assert(pure.cache == pure_before.cache.insert(key, cache[key]));
                assert(replays_agree(cache, warm, pure));
            } else {
                assert(!cache.contains_key(key));
                assert(replays_agree(cache, warm, pure));
            }
        }
    } else {
        assert(replays_agree(cache, warm, pure));
    }
}

/// Two caches hold the same for every document but one.
pub open spec fn same_elsewhere(before: CacheView, after: CacheView, document_uuid: Seq<char>) -> bool {
    forall|key: (Seq<char>, Seq<char>)|
        key.0 != document_uuid ==> (#[trigger] after.contains_key(key)) == before.contains_key(key)
            && (before.contains_key(key) ==> after[key] == before[key])
}

/// A replay touches only what the cache holds for its own document.
pub proof fn lemma_replay_frame(
    cache: CacheView,
    document_uuid: Seq<char>,
    history: Seq<PatchView>,
    count: nat,
)
    ensures
        same_elsewhere(cache, replay(cache, document_uuid, history, count).cache, document_uuid),
    decreases count,
{
    if count > 0 {
        lemma_replay_frame(cache, document_uuid, history, (count - 1) as nat);
        let before = replay(cache, document_uuid, history, (count - 1) as nat).cache;
        let after = replay(cache, document_uuid, history, count).cache;
        assert forall|key: (Seq<char>, Seq<char>)| key.0 != document_uuid implies (
        #[trigger] after.contains_key(key)) == cache.contains_key(key) && (cache.contains_key(key)
            ==> after[key] == cache[key]) by {
            assert(before.contains_key(key) == cache.contains_key(key));
        }
    }
}

/// A cache that is true of a history stays so where only other documents'
/// entries change.
pub proof fn lemma_coherent_elsewhere(
    before: CacheView,
    after: CacheView,
    touched: Seq<char>,
    document_uuid: Seq<char>,
    history: Seq<PatchView>,
)
    requires
        same_elsewhere(before, after, touched),
        document_uuid != touched,
        coherent(before, document_uuid, history),
    ensures
        coherent(after, document_uuid, history),
{
    assert forall|i: int|
        0 <= i < history.len() && after.contains_key(
            (document_uuid, (#[trigger] history[i]).uuid),
        ) implies i < true_contents(document_uuid, history).len() && after[(
        document_uuid,
        history[i].uuid,
    )] == true_contents(document_uuid, history)[i] by {
        let key = (document_uuid, history[i].uuid);
        assert(after.contains_key(key) == before.contains_key(key));
    }
}

/// What a replay remembers it keeps: later steps add entries, none
/// replaces one.
pub proof fn lemma_replay_keeps(
    cache: CacheView,
    document_uuid: Seq<char>,
    history: Seq<PatchView>,
    shorter: nat,
    longer: nat,
)
    requires
        shorter <= longer,
    ensures
        forall|key: (Seq<char>, Seq<char>)| #[trigger]
            replay(cache, document_uuid, history, shorter).cache.contains_key(key) ==> replay(
                cache,
                document_uuid,
                history,
                longer,
            ).cache.contains_key(key) && replay(cache, document_uuid, history, longer).cache[key]
                == replay(cache, document_uuid, history, shorter).cache[key],
    decreases longer,
{
    if longer > shorter {
        lemma_replay_keeps(cache, document_uuid, history, shorter, (longer - 1) as nat);
    }
}

/// Every content that a replay resolved stands in its cache, under the id
/// of its patch.
pub proof fn lemma_replay_remembers(
    cache: CacheView,
    document_uuid: Seq<char>,
    history: Seq<PatchView>,
    count: nat,
)
    ensures
        forall|i: int|
            0 <= i < replay(cache, document_uuid, history, count).contents.len() ==> replay(
                cache,
                document_uuid,
                history,
                count,
            ).cache.contains_key((document_uuid, (#[trigger] history[i]).uuid)) && replay(
                cache,
                document_uuid,
                history,
                count,
            ).cache[(document_uuid, history[i].uuid)] == replay(
                cache,
                document_uuid,
                history,
                count,
            ).contents[i],
    decreases count,
{
    if count > 0 {
        lemma_replay_remembers(cache, document_uuid, history, (count - 1) as nat);
        lemma_replay_len(cache, document_uuid, history, (count - 1) as nat);
    }
}

/// The replay of the first `upto` patches from the cache that a replay of
/// the first `count` left: the same contents, stopped or not alike, and the
/// cache as it was left.
pub proof fn lemma_replay_again(
    cache: CacheView,
    document_uuid: Seq<char>,
    history: Seq<PatchView>,
    count: nat,
    upto: nat,
)
    requires
        upto <= count,
    ensures
        replay(
            replay(cache, document_uuid, history, count).cache,
            document_uuid,
            history,
            upto,
        ) == (Replay {
            cache: replay(cache, document_uuid, history, count).cache,
            ..replay(cache, document_uuid, history, upto)
        }),
    decreases upto,
{
    let left = replay(cache, document_uuid, history, count).cache;
    if upto > 0 {
        let index = upto - 1;
        lemma_replay_again(cache, document_uuid, history, count, index as nat);
        let first_before = replay(cache, document_uuid, history, index as nat);
        let first = replay(cache, document_uuid, history, upto);
        let key = (document_uuid, history[index].uuid);
        if first_before.ok {
            lemma_replay_len(cache, document_uuid, history, index as nat);
            if first.ok {
                lemma_replay_len(cache, document_uuid, history, upto);
                lemma_replay_remembers(cache, document_uuid, history, upto);
                lemma_replay_keeps(cache, document_uuid, history, upto, count);
                assert(first.cache.contains_key((document_uuid, history[index].uuid)));
                assert(left.contains_key(key) && left[key] == first.contents[index]);
                assert(first.contents =~= first_before.contents.push(first.contents[index]));
            } else {
                lemma_replay_stopped(cache, document_uuid, history, upto, count);
                assert(!left.contains_key(key));
            }
        }
    }
}

} // verus!

//! Commits in order of time read back as committed.

use vstd::prelude::*;
use crate::cache::CacheView;
use crate::chain::{
    ascending,
    base_content,
    patch_tag,
    replay,
    replay_result,
    run_start,
    slot_at,
};
use crate::cache_laws::{
    coherent_for,
    content_at,
    keeps_coherent,
    law_determinism,
    lemma_read_keeps_coherent,
    lemma_select_keeps_coherent,
};
use crate::history_laws::{
    all_before,
    history,
    lemma_filter_distinct,
    lemma_history_insert,
    lemma_history_insert_others,
    lemma_recent_of_strict,
    lemma_upto_count,
    lemma_whole_history,
    strictly_ascending,
};
use crate::model::{PatchView, VersionError};
use crate::replay_laws::{
    lemma_coherent_elsewhere,
    lemma_pure_cache,
    lemma_replay_grows,
    lemma_replay_prefix,
    true_contents,
};
use crate::select::{
    lemma_search_best,
    search,
    searched_base,
    select_base,
    selected_base,
    version_replay,
};
use crate::store::{
    distinct_ids,
    has_patch,
    lemma_insert_distinct,
    lemma_patch_slot,
    of_document,
    of_document_upto,
    patch_slot,
    recent_timestamps,
};
use crate::versions::{
    commit,
    committed_patch,
    committed_step,
    sound_choice,
    VersionsView,
    BASE_WINDOW,
};

verus! {

/// The state that commits in order of time leave a document in: the
/// timestamps of its history grow, every patch of it resolves, and the
/// cache remembers nothing false of it.
#[verifier::opaque]
pub open spec fn in_order(view: VersionsView, document_uuid: Seq<char>) -> bool {
    let own = history(view.store.patches, document_uuid);
    &&& ascending(view.store.patches)
    &&& distinct_ids(view.store.patches)
    &&& coherent_for(view.cache, view.store.patches, document_uuid)
    &&& strictly_ascending(own)
    &&& replay(Map::empty(), document_uuid, own, own.len()).ok
}

/// Nothing true is lost from `before` to `after`: of whatever document the
/// cache remembered nothing false it still does, and every document that
/// was in order still is.
pub open spec fn stays_true(before: VersionsView, after: VersionsView) -> bool {
    &&& forall|document_uuid: Seq<char>|
        coherent_for(before.cache, before.store.patches, document_uuid) ==> #[trigger] coherent_for(
            after.cache,
            after.store.patches,
            document_uuid,
        )
    &&& forall|document_uuid: Seq<char>|
        in_order(before, document_uuid) ==> #[trigger] in_order(after, document_uuid)
}

/// From `before` to `after` a document was left alone: its history is the
/// same, and if it was in order it still is.
pub open spec fn left_alone(
    before: VersionsView,
    after: VersionsView,
    document_uuid: Seq<char>,
) -> bool {
    &&& history(after.store.patches, document_uuid) == history(
        before.store.patches,
        document_uuid,
    )
    &&& coherent_for(before.cache, before.store.patches, document_uuid) ==> coherent_for(
        after.cache,
        after.store.patches,
        document_uuid,
    )
    &&& in_order(before, document_uuid) ==> in_order(after, document_uuid)
}

/// From `before` to `after` every document but one was left alone.
pub open spec fn others_left_alone(
    before: VersionsView,
    after: VersionsView,
    document_uuid: Seq<char>,
) -> bool {
    forall|other: Seq<char>|
        other != document_uuid ==> #[trigger] left_alone(before, after, other)
}

/// Nothing true is lost where the patches stay and the cache stays true.
pub proof fn lemma_stays_true(before: VersionsView, after: VersionsView)
    requires
        after.store.patches == before.store.patches,
        keeps_coherent(before.cache, after.cache, before.store.patches),
    ensures
        stays_true(before, after),
        forall|document_uuid: Seq<char>| #[trigger] left_alone(before, after, document_uuid),
{
    reveal(in_order);
    assert forall|document_uuid: Seq<char>|
        in_order(before, document_uuid) implies #[trigger] in_order(after, document_uuid) by {
        assert(coherent_for(after.cache, before.store.patches, document_uuid));
    }
    assert forall|document_uuid: Seq<char>| #[trigger]
        left_alone(before, after, document_uuid) by {
        if coherent_for(before.cache, before.store.patches, document_uuid) {
            assert(coherent_for(after.cache, before.store.patches, document_uuid));
        }
    }
}

/// A document without patches is in order, whatever the cache holds.
pub proof fn lemma_in_order_without_patches(view: VersionsView, document_uuid: Seq<char>)
    requires
        ascending(view.store.patches),
        distinct_ids(view.store.patches),
        history(view.store.patches, document_uuid).len() == 0,
    ensures
        in_order(view, document_uuid),
        coherent_for(view.cache, view.store.patches, document_uuid),
{
    reveal(in_order);
}

/// A commit that succeeds leaves every document but its own alone, whatever
/// the time of the commit.
pub proof fn lemma_commit_others(
    before: VersionsView,
    document_uuid: Seq<char>,
    content: Seq<u8>,
    timestamp: i64,
    patch_uuid: Seq<char>,
)
    requires
        ascending(before.store.patches),
        distinct_ids(before.store.patches),
        commit(before, document_uuid, content, timestamp, patch_uuid).result is Ok,
    ensures
        others_left_alone(
            before,
            commit(before, document_uuid, content, timestamp, patch_uuid).after,
            document_uuid,
        ),
{
    reveal(in_order);
    let patches = before.store.patches;
    let after = commit(before, document_uuid, content, timestamp, patch_uuid).after;
    let current = version_replay(before.cache, patches, document_uuid, timestamp);
    let chosen = select_base(
        current.cache,
        patches,
        document_uuid,
        timestamp,
        content,
        BASE_WINDOW as nat,
        true,
    );
    let patch = committed_patch(patch_uuid, document_uuid, timestamp, chosen.delta);
    let slot = patch_slot(patches, timestamp);
    assert(after.store.patches == patches.insert(slot, patch));
    assert(after.cache == chosen.cache.insert((document_uuid, patch_uuid), content));
    lemma_read_keeps_coherent(before.cache, patches, document_uuid, timestamp);
    lemma_select_keeps_coherent(
        current.cache,
        patches,
        document_uuid,
        timestamp,
        content,
        BASE_WINDOW as nat,
        true,
    );
    lemma_patch_slot(patches, patch);
    lemma_insert_distinct(patches, slot, patch);
    lemma_history_insert_others(patches, slot, patch);
    assert forall|other: Seq<char>| other != document_uuid implies #[trigger] left_alone(
        before,
        after,
        other,
    ) by {
        assert(history(after.store.patches, other) == history(patches, other));
        if coherent_for(before.cache, patches, other) {
            assert(coherent_for(current.cache, patches, other));
            assert(coherent_for(chosen.cache, patches, other));
            lemma_coherent_elsewhere(
                chosen.cache,
                after.cache,
                document_uuid,
                other,
                history(patches, other),
            );
        }
    }
}

/// A search from a cache that remembers nothing false, over candidates that
/// resolve, does not stop, finds each candidate as the store alone
/// determines it, and leaves a cache that remembers nothing false.
pub proof fn lemma_search_coherent(
    cache: CacheView,
    patches: Seq<PatchView>,
    document_uuid: Seq<char>,
    candidates: Seq<i64>,
    content: Seq<u8>,
    compress: bool,
    count: nat,
)
    requires
        ascending(patches),
        distinct_ids(patches),
        coherent_for(cache, patches, document_uuid),
        count <= candidates.len(),
        forall|k: int|
            0 <= k < count ==> (#[trigger] content_at(patches, document_uuid, candidates[k])) is Ok,
    ensures
        search(cache, patches, document_uuid, candidates, content, compress, count).ok,
        coherent_for(
            search(cache, patches, document_uuid, candidates, content, compress, count).cache,
            patches,
            document_uuid,
        ),
        forall|k: int|
            0 <= k < count ==> Ok::<Seq<u8>, VersionError>(
                #[trigger] searched_base(
                    cache,
                    patches,
                    document_uuid,
                    candidates,
                    content,
                    compress,
                    k,
                ),
            ) == content_at(patches, document_uuid, candidates[k]),
    decreases count,
{
    if count > 0 {
        lemma_search_coherent(
            cache,
            patches,
            document_uuid,
            candidates,
            content,
            compress,
            (count - 1) as nat,
        );
        let before = search(
            cache,
            patches,
            document_uuid,
            candidates,
            content,
            compress,
            (count - 1) as nat,
        );
        law_determinism(before.cache, patches, document_uuid, candidates[count - 1]);
        assert(content_at(patches, document_uuid, candidates[count - 1]) is Ok);
    }
}

/// In a history whose timestamps grow and whose patches all resolve, the
/// document as of the time of a patch is what that patch resolves to.
pub proof fn lemma_content_at_patch(
    patches: Seq<PatchView>,
    document_uuid: Seq<char>,
    index: int,
    timestamp: i64,
)
    requires
        ascending(patches),
        strictly_ascending(history(patches, document_uuid)),
        replay(
            Map::empty(),
            document_uuid,
            history(patches, document_uuid),
            history(patches, document_uuid).len(),
        ).ok,
        0 <= index < history(patches, document_uuid).len(),
        history(patches, document_uuid)[index].timestamp <= timestamp,
        index + 1 < history(patches, document_uuid).len() ==> timestamp < history(
            patches,
            document_uuid,
        )[index + 1].timestamp,
    ensures
        content_at(patches, document_uuid, timestamp) == Ok::<Seq<u8>, VersionError>(
            true_contents(document_uuid, history(patches, document_uuid))[index],
        ),
        true_contents(document_uuid, history(patches, document_uuid)).len() == history(
            patches,
            document_uuid,
        ).len(),
{
    let own = history(patches, document_uuid);
    let count = index + 1;
    assert forall|i: int| 0 <= i < count implies (#[trigger] own[i]).timestamp <= timestamp by {
        if i < index {
            assert(own[i].timestamp < own[index].timestamp);
        }
    }
    assert forall|i: int| count <= i < own.len() implies (#[trigger] own[i]).timestamp
        > timestamp by {
        if i > index + 1 {
            assert(own[index + 1].timestamp < own[i].timestamp);
        }
    }
    lemma_upto_count(patches, document_uuid, timestamp, count);
    let upto = patches.filter(of_document_upto(document_uuid, timestamp));
    lemma_replay_prefix(Map::empty(), document_uuid, upto, own, count as nat);
    lemma_replay_grows(Map::empty(), document_uuid, own, count as nat, own.len());
    lemma_replay_grows(Map::empty(), document_uuid, own, own.len(), own.len());
}

/// What an in-order commit leaves behind.
pub open spec fn committed_in_order(
    before: VersionsView,
    after: VersionsView,
    document_uuid: Seq<char>,
    content: Seq<u8>,
    timestamp: i64,
) -> bool {
    let own = history(before.store.patches, document_uuid);
    let grown = history(after.store.patches, document_uuid);
    &&& in_order(after, document_uuid)
    &&& grown.len() == own.len() + 1
    &&& grown.drop_last() == own
    &&& grown.last().timestamp == timestamp
    &&& true_contents(document_uuid, grown) == true_contents(document_uuid, own).push(content)
    &&& forall|other: Seq<char>|
        other != document_uuid ==> #[trigger] history(after.store.patches, other) == history(
            before.store.patches,
            other,
        )
    &&& forall|other: Seq<char>, earlier: i64|
        other != document_uuid || earlier < timestamp ==> #[trigger] content_at(
            after.store.patches,
            other,
            earlier,
        ) == content_at(before.store.patches, other, earlier)
    &&& others_left_alone(before, after, document_uuid)
    &&& stays_true(before, after)
}

/// The step of the round trip. A commit that succeeds on a document in
/// order, at a time after all of its history, leaves the document in order
/// with the committed content as its last version; what was readable
/// before reads the same.
pub proof fn law_commit_in_order(
    before: VersionsView,
    document_uuid: Seq<char>,
    content: Seq<u8>,
    timestamp: i64,
    patch_uuid: Seq<char>,
)
    requires
        in_order(before, document_uuid),
        all_before(history(before.store.patches, document_uuid), timestamp),
        commit(before, document_uuid, content, timestamp, patch_uuid).result is Ok,
        sound_choice(before, document_uuid, content, timestamp),
    ensures
        committed_in_order(
            before,
            commit(before, document_uuid, content, timestamp, patch_uuid).after,
            document_uuid,
            content,
            timestamp,
        ),
{
    reveal(in_order);
    let patches = before.store.patches;
    let own = history(patches, document_uuid);
    let count = own.len();
    let truth = true_contents(document_uuid, own);
    let window = BASE_WINDOW as nat;
    let outcome = commit(before, document_uuid, content, timestamp, patch_uuid);
    let after = outcome.after;
    let current = version_replay(before.cache, patches, document_uuid, timestamp);
    let chosen = select_base(
        current.cache,
        patches,
        document_uuid,
        timestamp,
        content,
        window,
        true,
    );
    let candidates = recent_timestamps(patches, document_uuid, timestamp, window);
    let patch = committed_patch(patch_uuid, document_uuid, timestamp, chosen.delta);
    let slot = patch_slot(patches, timestamp);
    let grown_store = patches.insert(slot, patch);
    let grown = history(grown_store, document_uuid);

    // The commit went through every stage.
    assert(current.ok && chosen.ok);
    assert(!has_patch(patches, patch_uuid));
    assert(after.store.patches == grown_store);
    assert(after.cache == chosen.cache.insert((document_uuid, patch_uuid), content));

    // The cache stays true through the reconstruction and the search.
    lemma_whole_history(patches, document_uuid, timestamp);
    law_determinism(before.cache, patches, document_uuid, timestamp);
    lemma_recent_of_strict(patches, document_uuid, timestamp, window);
    lemma_replay_grows(Map::empty(), document_uuid, own, count, count);
    assert forall|k: int| 0 <= k < candidates.len() implies #[trigger] content_at(
        patches,
        document_uuid,
        candidates[k],
    ) == Ok::<Seq<u8>, VersionError>(truth[count - 1 - k]) by {
        lemma_content_at_patch(patches, document_uuid, count - 1 - k, candidates[k]);
    }
    if candidates.len() > 0 {
        lemma_search_coherent(
            current.cache,
            patches,
            document_uuid,
            candidates,
            content,
            true,
            candidates.len(),
        );
        lemma_search_best(
            current.cache,
            patches,
            document_uuid,
            candidates,
            content,
            true,
            candidates.len(),
        );
        assert(chosen.tag < candidates.len());
        assert(Ok::<Seq<u8>, VersionError>(
            searched_base(
                current.cache,
                patches,
                document_uuid,
                candidates,
                content,
                true,
                chosen.tag as int,
            ),
        ) == content_at(patches, document_uuid, candidates[chosen.tag as int]));
    }
    assert(coherent_for(chosen.cache, patches, document_uuid));
    let base = selected_base(
        current.cache,
        patches,
        document_uuid,
        timestamp,
        content,
        window,
        true,
    );
    assert(base == if count == 0 {
        Seq::<u8>::empty()
    } else {
        truth[count - 1 - chosen.tag]
    });

    // The store after the insertion.
    lemma_patch_slot(patches, patch);
    lemma_insert_distinct(patches, slot, patch);
    lemma_history_insert(patches, patch);
    assert(grown == own.push(patch));
    assert(grown.drop_last() =~= own);
    assert(strictly_ascending(grown)) by {
        assert forall|i: int, j: int| 0 <= i < j < grown.len() implies (
        #[trigger] grown[i]).timestamp < (#[trigger] grown[j]).timestamp by {
            if j < count {
                assert(grown[i] == own[i] && grown[j] == own[j]);
            } else {
                assert(grown[i] == own[i]);
            }
        }
    }

    // The new patch resolves to the committed content.
    lemma_filter_distinct(patches, of_document(document_uuid));
    lemma_replay_prefix(Map::empty(), document_uuid, grown, own, count);
    lemma_pure_cache(document_uuid, own, count);
    let resolved = replay(Map::empty(), document_uuid, own, count);
    let key = (document_uuid, patch_uuid);
    assert(!resolved.cache.contains_key(key)) by {
        if resolved.cache.contains_key(key) {
            let j = choose|j: int| 0 <= j < count && (#[trigger] own[j]).uuid == patch_uuid;
            assert(own.contains(own[j]));
            patches.lemma_filter_contains_rev(of_document(document_uuid), own[j]);
            let k = choose|k: int| 0 <= k < patches.len() && patches[k] == own[j];
            assert(patches[k].uuid == patch_uuid);
        }
    }
    assert(grown[count as int] == patch);
    assert(patch_tag(patch) == chosen.tag);
    assert(run_start(grown, count as int) == count) by {
        if count > 0 {
            assert(grown[count - 1].timestamp < grown[count as int].timestamp);
        }
    }
    let back = count - chosen.tag - 1;
    if back >= 0 {
        assert(slot_at(grown, back, count as int) == back) by {
            if back + 1 < count {
                assert(grown[back].timestamp < grown[back + 1].timestamp);
            }
        }
    }
    assert(base_content(grown, truth, count as int) == base);
    let finished = replay(Map::empty(), document_uuid, grown, (count + 1) as nat);
    assert(finished.ok && finished.contents == truth.push(content));
    assert(true_contents(document_uuid, grown) == truth.push(content));

    // What was readable before reads the same.
    assert forall|other: Seq<char>, earlier: i64|
        other != document_uuid || earlier < timestamp implies #[trigger] content_at(
        grown_store,
        other,
        earlier,
    ) == content_at(patches, other, earlier) by {
        assert(grown_store.filter(of_document_upto(other, earlier)) == patches.filter(
            of_document_upto(other, earlier),
        ));
    }

    // The cache remembers nothing false of the document as it now stands.
    assert forall|i: int|
        0 <= i < grown.len() && after.cache.contains_key(
            (document_uuid, (#[trigger] grown[i]).uuid),
        ) implies i < true_contents(document_uuid, grown).len() && after.cache[(
        document_uuid,
        grown[i].uuid,
    )] == true_contents(document_uuid, grown)[i] by {
        if i < count {
            assert(grown[i] == own[i]);
            if own[i].uuid == patch_uuid {
                assert(own.contains(own[i]));
                patches.lemma_filter_contains_rev(of_document(document_uuid), own[i]);
                let k = choose|k: int| 0 <= k < patches.len() && patches[k] == own[i];
                assert(patches[k].uuid == patch_uuid);
            }
            assert(chosen.cache.contains_key((document_uuid, own[i].uuid)));
        }
    }
    assert(coherent_for(after.cache, grown_store, document_uuid));
    assert(in_order(after, document_uuid));

    // The other documents are left alone.
    lemma_commit_others(before, document_uuid, content, timestamp, patch_uuid);
    assert forall|other: Seq<char>|
        coherent_for(before.cache, patches, other) implies #[trigger] coherent_for(
        after.cache,
        grown_store,
        other,
    ) by {
        if other != document_uuid {
            assert(left_alone(before, after, other));
        }
    }
    assert forall|other: Seq<char>| in_order(before, other) implies #[trigger] in_order(
        after,
        other,
    ) by {
        if other != document_uuid {
            assert(left_alone(before, after, other));
        }
    }
}

/// A run of commits to one document, each at a later time than the one
/// before and than all the document held at the start. `befores` holds
/// the version store before each commit and `afters` the version store
/// after it; from one commit to the next anything may have happened that
/// left the document alone: reads, a cleared cache, commits to others.
pub open spec fn commits_in_order(
    befores: Seq<VersionsView>,
    afters: Seq<VersionsView>,
    document_uuid: Seq<char>,
    times: Seq<i64>,
    contents: Seq<Seq<u8>>,
) -> bool {
    &&& befores.len() == times.len()
    &&& afters.len() == times.len()
    &&& contents.len() == times.len()
    &&& times.len() > 0
    &&& in_order(befores[0], document_uuid)
    &&& forall|k: int|
        0 <= k < times.len() ==> all_before(
            history(befores[0].store.patches, document_uuid),
            #[trigger] times[k],
        )
    &&& forall|j: int, k: int| 0 <= j < k < times.len() ==> #[trigger] times[j] < #[trigger] times[k]
    &&& forall|k: int|
        0 <= k < times.len() ==> committed_step(
            #[trigger] befores[k],
            afters[k],
            document_uuid,
            contents[k],
            times[k],
        )
    &&& forall|k: int|
        0 <= k < times.len() - 1 ==> left_alone(#[trigger] afters[k], befores[k + 1], document_uuid)
}

/// A document after the first `done` commits of a run: in order, its
/// history what it was at the start followed by one patch for each commit,
/// at the time of the commit and resolving to its content.
pub open spec fn traced(
    view: VersionsView,
    start: Seq<PatchView>,
    document_uuid: Seq<char>,
    times: Seq<i64>,
    contents: Seq<Seq<u8>>,
    done: int,
) -> bool {
    let own = history(view.store.patches, document_uuid);
    let truth = true_contents(document_uuid, own);
    &&& in_order(view, document_uuid)
    &&& own.len() == start.len() + done
    &&& truth.len() == own.len()
    &&& forall|i: int| 0 <= i < start.len() ==> #[trigger] own[i] == start[i]
    &&& forall|j: int| 0 <= j < done ==> (#[trigger] own[start.len() + j]).timestamp == times[j]
    &&& forall|j: int| 0 <= j < done ==> #[trigger] truth[start.len() + j] == contents[j]
}

/// A successful commit at a time after all of a document's history, on a
/// document in order, is an in-order commit.
pub proof fn lemma_step_in_order(
    before: VersionsView,
    after: VersionsView,
    document_uuid: Seq<char>,
    content: Seq<u8>,
    timestamp: i64,
)
    requires
        in_order(before, document_uuid),
        all_before(history(before.store.patches, document_uuid), timestamp),
        committed_step(before, after, document_uuid, content, timestamp),
    ensures
        committed_in_order(before, after, document_uuid, content, timestamp),
{
    reveal(committed_step);
    let patch_uuid = choose|patch_uuid: Seq<char>|
        (#[trigger] commit(before, document_uuid, content, timestamp, patch_uuid)).result == Ok::<
            Seq<char>,
            VersionError,
        >(patch_uuid) && commit(before, document_uuid, content, timestamp, patch_uuid).after
            == after;
    law_commit_in_order(before, document_uuid, content, timestamp, patch_uuid);
}

/// The next commit of a run takes a traced document one step on.
pub proof fn lemma_trace_step(
    before: VersionsView,
    after: VersionsView,
    start: Seq<PatchView>,
    document_uuid: Seq<char>,
    times: Seq<i64>,
    contents: Seq<Seq<u8>>,
    done: int,
)
    requires
        0 <= done < times.len(),
        contents.len() == times.len(),
        traced(before, start, document_uuid, times, contents, done),
        all_before(start, times[done]),
        forall|j: int, k: int| 0 <= j < k < times.len() ==> #[trigger] times[j] < #[trigger] times[k],
        committed_step(before, after, document_uuid, contents[done], times[done]),
    ensures
        traced(after, start, document_uuid, times, contents, done + 1),
{
    let own = history(before.store.patches, document_uuid);
    let grown = history(after.store.patches, document_uuid);
    assert(all_before(own, times[done])) by {
        assert forall|i: int| 0 <= i < own.len() implies (#[trigger] own[i]).timestamp
            < times[done] by {
            if i < start.len() {
                assert(own[i] == start[i]);
            } else {
                let j = i - start.len();
                assert(own[start.len() + j].timestamp == times[j]);
                assert(times[j] < times[done]);
            }
        }
    }
    lemma_step_in_order(before, after, document_uuid, contents[done], times[done]);
    let truth = true_contents(document_uuid, own);
    let grown_truth = true_contents(document_uuid, grown);
    assert forall|i: int| 0 <= i < start.len() implies #[trigger] grown[i] == start[i] by {
        assert(grown.drop_last()[i] == own[i]);
    }
    assert forall|j: int| 0 <= j < done + 1 implies (#[trigger] grown[start.len() + j]).timestamp
        == times[j] by {
        if j < done {
            assert(grown.drop_last()[start.len() + j] == own[start.len() + j]);
        }
    }
    assert forall|j: int| 0 <= j < done + 1 implies #[trigger] grown_truth[start.len() + j]
        == contents[j] by {
        if j < done {
            assert(truth[start.len() + j] == contents[j]);
        }
    }
}

/// Before commit number `done` of a run, the document is as the first
/// `done` commits left it.
pub proof fn lemma_commits_trace(
    befores: Seq<VersionsView>,
    afters: Seq<VersionsView>,
    document_uuid: Seq<char>,
    times: Seq<i64>,
    contents: Seq<Seq<u8>>,
    done: int,
)
    requires
        commits_in_order(befores, afters, document_uuid, times, contents),
        0 <= done < times.len(),
    ensures
        traced(
            befores[done],
            history(befores[0].store.patches, document_uuid),
            document_uuid,
            times,
            contents,
            done,
        ),
    decreases done,
{
    let start = history(befores[0].store.patches, document_uuid);
    if done == 0 {
        assert(true_contents(document_uuid, start).len() == start.len()) by {
            reveal(in_order);
            lemma_replay_grows(Map::empty(), document_uuid, start, start.len(), start.len());
        }
    } else {
        let last = done - 1;
        lemma_commits_trace(befores, afters, document_uuid, times, contents, last);
        assert(committed_step(
            befores[last],
            afters[last],
            document_uuid,
            contents[last],
            times[last],
        ));
        assert(all_before(start, times[last]));
        lemma_trace_step(
            befores[last],
            afters[last],
            start,
            document_uuid,
            times,
            contents,
            last,
        );
        assert(left_alone(afters[last], befores[last + 1], document_uuid));
    }
}

/// The round trip. After a run of commits to a document at growing times,
/// and whatever has since left the document alone, the document as of the
/// time of any of the commits, or of any time from then up to the next, is
/// the content then committed: as the store alone determines it, and as
/// read through the cache.
pub proof fn law_round_trip(
    befores: Seq<VersionsView>,
    afters: Seq<VersionsView>,
    end: VersionsView,
    document_uuid: Seq<char>,
    times: Seq<i64>,
    contents: Seq<Seq<u8>>,
    k: int,
    timestamp: i64,
)
    requires
        commits_in_order(befores, afters, document_uuid, times, contents),
        left_alone(afters.last(), end, document_uuid),
        0 <= k < times.len(),
        times[k] <= timestamp,
        k + 1 < times.len() ==> timestamp < times[k + 1],
    ensures
        content_at(end.store.patches, document_uuid, timestamp) == Ok::<Seq<u8>, VersionError>(
            contents[k],
        ),
        replay_result(version_replay(end.cache, end.store.patches, document_uuid, timestamp))
            == Ok::<Seq<u8>, VersionError>(contents[k]),
{
    let last = times.len() - 1;
    let start = history(befores[0].store.patches, document_uuid);
    lemma_commits_trace(befores, afters, document_uuid, times, contents, last);
    assert(committed_step(befores[last], afters[last], document_uuid, contents[last], times[last]));
    assert(all_before(start, times[last]));
    lemma_trace_step(befores[last], afters[last], start, document_uuid, times, contents, last);
    assert(traced(end, start, document_uuid, times, contents, last + 1));
    let own = history(end.store.patches, document_uuid);
    let index = start.len() + k;
    assert(own[start.len() + k].timestamp == times[k]);
    if k + 1 < times.len() {
        assert(own[start.len() + (k + 1)].timestamp == times[k + 1]);
    }
    reveal(in_order);
    lemma_content_at_patch(end.store.patches, document_uuid, index, timestamp);
    assert(true_contents(document_uuid, own)[start.len() + k] == contents[k]);
    law_determinism(end.cache, end.store.patches, document_uuid, timestamp);
}

} // verus!

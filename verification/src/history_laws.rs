//! What holds of the history of one document within the store: how the
//! queries cut it, and what an insertion does to it.

use vstd::prelude::*;
use crate::chain::ascending;
use crate::model::PatchView;
use crate::store::{
    at_most,
    distinct,
    distinct_ids,
    lemma_patch_slot,
    of_document,
    of_document_before,
    of_document_upto,
    patch_slot,
    recent_timestamps,
    timestamps,
};

verus! {

/// The patches of one document, in the order of the store.
pub open spec fn history(patches: Seq<PatchView>, document_uuid: Seq<char>) -> Seq<PatchView> {
    patches.filter(of_document(document_uuid))
}

/// Timestamps grow along the sequence: no two patches share one.
pub open spec fn strictly_ascending(patches: Seq<PatchView>) -> bool {
    forall|i: int, j: int|
        0 <= i < j < patches.len() ==> (#[trigger] patches[i]).timestamp < (
        #[trigger] patches[j]).timestamp
}

/// Every patch of the sequence is earlier than `timestamp`.
pub open spec fn all_before(patches: Seq<PatchView>, timestamp: i64) -> bool {
    forall|i: int| 0 <= i < patches.len() ==> (#[trigger] patches[i]).timestamp < timestamp
}

/// A selection of patches with distinct ids has distinct ids.
pub proof fn lemma_filter_distinct(patches: Seq<PatchView>, pred: spec_fn(PatchView) -> bool)
    requires
        distinct_ids(patches),
    ensures
        distinct_ids(patches.filter(pred)),
    decreases patches.len(),
{
    reveal(Seq::filter);
    if patches.len() > 0 {
        let front = patches.drop_last();
        let kept = front.filter(pred);
        assert(distinct_ids(front)) by {
            assert forall|i: int, j: int| 0 <= i < j < front.len() implies (
            #[trigger] front[i]).uuid != (#[trigger] front[j]).uuid by {
                assert(front[i] == patches[i] && front[j] == patches[j]);
            }
        }
        lemma_filter_distinct(front, pred);
        if pred(patches.last()) {
            let all = kept.push(patches.last());
            assert forall|i: int, j: int| 0 <= i < j < all.len() implies (#[trigger] all[i]).uuid
                != (#[trigger] all[j]).uuid by {
                if j < kept.len() {
                    assert(all[i] == kept[i] && all[j] == kept[j]);
                } else {
                    assert(all[i] == kept[i]);
                    assert(kept.contains(kept[i]));
                    front.lemma_filter_contains_rev(pred, kept[i]);
                    let k = choose|k: int| 0 <= k < front.len() && front[k] == kept[i];
                    assert(front[k] == patches[k]);
                    assert(patches[k].uuid != patches[patches.len() - 1].uuid);
                }
            }
        }
    }
}

/// The patches of a document up to a time are the first of its history;
/// those that follow are later.
pub proof fn lemma_upto_prefix(patches: Seq<PatchView>, document_uuid: Seq<char>, timestamp: i64)
    requires
        ascending(patches),
    ensures
        ({
            let upto = patches.filter(of_document_upto(document_uuid, timestamp));
            let all = history(patches, document_uuid);
            &&& upto.len() <= all.len()
            &&& forall|i: int| 0 <= i < upto.len() ==> #[trigger] upto[i] == all[i]
            &&& forall|i: int| 0 <= i < upto.len() ==> (#[trigger] all[i]).timestamp <= timestamp
            &&& forall|i: int|
                upto.len() <= i < all.len() ==> (#[trigger] all[i]).timestamp > timestamp
        }),
    decreases patches.len(),
{
    reveal(Seq::filter);
    if patches.len() > 0 {
        let front = patches.drop_last();
        let last = patches.last();
        assert(ascending(front)) by {
            assert forall|i: int, j: int| 0 <= i <= j < front.len() implies (
            #[trigger] front[i]).timestamp <= (#[trigger] front[j]).timestamp by {
                assert(front[i] == patches[i] && front[j] == patches[j]);
            }
        }
        lemma_upto_prefix(front, document_uuid, timestamp);
        let upto_front = front.filter(of_document_upto(document_uuid, timestamp));
        let all_front = history(front, document_uuid);
        let upto = patches.filter(of_document_upto(document_uuid, timestamp));
        let all = history(patches, document_uuid);
        if last.document_uuid == document_uuid {
            assert(all == all_front.push(last));
            assert forall|i: int| 0 <= i < all_front.len() implies (
            #[trigger] all_front[i]).timestamp <= last.timestamp by {
                assert(all_front.contains(all_front[i]));
                front.lemma_filter_contains_rev(of_document(document_uuid), all_front[i]);
                let k = choose|k: int| 0 <= k < front.len() && front[k] == all_front[i];
                assert(front[k] == patches[k]);
                assert(patches[k].timestamp <= patches[patches.len() - 1].timestamp);
            }
            if last.timestamp <= timestamp {
                assert(upto == upto_front.push(last));
                if upto_front.len() < all_front.len() {
                    assert(all_front[upto_front.len() as int].timestamp > timestamp);
                }
                assert forall|i: int| 0 <= i < upto.len() implies #[trigger] upto[i] == all[i] by {
                    if i < upto_front.len() {
                        assert(upto_front[i] == all_front[i]);
                    }
                }
                assert forall|i: int| 0 <= i < upto.len() implies (#[trigger] all[i]).timestamp
                    <= timestamp by {
                    if i < upto_front.len() {
                        assert(all_front[i].timestamp <= timestamp);
                    }
                }
            } else {
                assert(upto == upto_front);
                assert forall|i: int| 0 <= i < upto.len() implies #[trigger] upto[i] == all[i] by {
                    assert(upto_front[i] == all_front[i]);
                }
                assert forall|i: int| 0 <= i < upto.len() implies (#[trigger] all[i]).timestamp
                    <= timestamp by {
                    assert(all_front[i].timestamp <= timestamp);
                }
                assert forall|i: int| upto.len() <= i < all.len() implies (
                #[trigger] all[i]).timestamp > timestamp by {
                    if i < all_front.len() {
                        assert(all_front[i].timestamp > timestamp);
                    }
                }
            }
        } else {
            assert(all == all_front);
            assert(upto == upto_front);
        }
    }
}

/// Two predicates that agree on a sequence select the same from it.
pub proof fn lemma_filter_same<A>(s: Seq<A>, first: spec_fn(A) -> bool, second: spec_fn(A) -> bool)
    requires
        forall|i: int| 0 <= i < s.len() ==> first(#[trigger] s[i]) == second(s[i]),
    ensures
        s.filter(first) == s.filter(second),
    decreases s.len(),
{
    reveal(Seq::filter);
    if s.len() > 0 {
        let front = s.drop_last();
        assert forall|i: int| 0 <= i < front.len() implies first(#[trigger] front[i]) == second(
            front[i],
        ) by {
            assert(front[i] == s[i]);
        }
        lemma_filter_same(front, first, second);
        assert(first(s[s.len() - 1]) == second(s[s.len() - 1]));
    }
}

/// A predicate that holds nowhere selects nothing.
pub proof fn lemma_filter_none<A>(s: Seq<A>, pred: spec_fn(A) -> bool)
    requires
        forall|i: int| 0 <= i < s.len() ==> !pred(#[trigger] s[i]),
    ensures
        s.filter(pred) == Seq::<A>::empty(),
    decreases s.len(),
{
    reveal(Seq::filter);
    if s.len() > 0 {
        let front = s.drop_last();
        assert forall|i: int| 0 <= i < front.len() implies !pred(#[trigger] front[i]) by {
            assert(front[i] == s[i]);
        }
        lemma_filter_none(front, pred);
        assert(!pred(s[s.len() - 1]));
    }
}

/// The selection from a sequence with an element inserted.
pub proof fn lemma_filter_insert<A>(s: Seq<A>, slot: int, element: A, pred: spec_fn(A) -> bool)
    requires
        0 <= slot <= s.len(),
    ensures
        s.filter(pred) == s.take(slot).filter(pred) + s.skip(slot).filter(pred),
        !pred(element) ==> s.insert(slot, element).filter(pred) == s.filter(pred),
        pred(element) ==> s.insert(slot, element).filter(pred) == s.take(slot).filter(pred).push(
            element,
        ) + s.skip(slot).filter(pred),
{
    reveal(Seq::filter);
    let front = s.take(slot);
    let back = s.skip(slot);
    assert(s =~= front + back);
    assert(s.insert(slot, element) =~= front.push(element) + back);
    Seq::filter_distributes_over_add(front, back, pred);
    Seq::filter_distributes_over_add(front.push(element), back, pred);
    assert(front.push(element).drop_last() =~= front);
}

/// What a bound on the history says of the store: every patch of the
/// document is earlier than the bound.
pub proof fn lemma_history_bound(patches: Seq<PatchView>, document_uuid: Seq<char>, timestamp: i64)
    requires
        all_before(history(patches, document_uuid), timestamp),
    ensures
        forall|i: int|
            0 <= i < patches.len() && (#[trigger] patches[i]).document_uuid == document_uuid
                ==> patches[i].timestamp < timestamp,
{
    let own = history(patches, document_uuid);
    assert forall|i: int|
        0 <= i < patches.len() && (#[trigger] patches[i]).document_uuid
            == document_uuid implies patches[i].timestamp < timestamp by {
        patches.lemma_filter_contains(of_document(document_uuid), i);
        let k = choose|k: int| 0 <= k < own.len() && own[k] == patches[i];
        assert(own[k].timestamp < timestamp);
    }
}

/// With every patch of the document earlier than a time, the patches up to
/// that time, and those before it, are its whole history.
pub proof fn lemma_whole_history(patches: Seq<PatchView>, document_uuid: Seq<char>, timestamp: i64)
    requires
        all_before(history(patches, document_uuid), timestamp),
    ensures
        patches.filter(of_document_upto(document_uuid, timestamp)) == history(
            patches,
            document_uuid,
        ),
        patches.filter(of_document_before(document_uuid, timestamp)) == history(
            patches,
            document_uuid,
        ),
{
    lemma_history_bound(patches, document_uuid, timestamp);
    lemma_filter_same(
        patches,
        of_document_upto(document_uuid, timestamp),
        of_document(document_uuid),
    );
    lemma_filter_same(
        patches,
        of_document_before(document_uuid, timestamp),
        of_document(document_uuid),
    );
}

/// The patches up to a time are the first `count` of the history, where
/// those are the ones not later than the time.
pub proof fn lemma_upto_count(
    patches: Seq<PatchView>,
    document_uuid: Seq<char>,
    timestamp: i64,
    count: int,
)
    requires
        ascending(patches),
        0 <= count <= history(patches, document_uuid).len(),
        forall|i: int|
            0 <= i < count ==> (#[trigger] history(patches, document_uuid)[i]).timestamp
                <= timestamp,
        forall|i: int|
            count <= i < history(patches, document_uuid).len() ==> (#[trigger] history(
                patches,
                document_uuid,
            )[i]).timestamp > timestamp,
    ensures
        patches.filter(of_document_upto(document_uuid, timestamp)) == history(
            patches,
            document_uuid,
        ).take(count),
{
    let upto = patches.filter(of_document_upto(document_uuid, timestamp));
    let all = history(patches, document_uuid);
    lemma_upto_prefix(patches, document_uuid, timestamp);
    if upto.len() < count {
        assert(all[upto.len() as int].timestamp > timestamp);
    }
    if upto.len() > count {
        assert(all[count].timestamp <= timestamp);
    }
    assert(upto =~= all.take(count));
}

/// Timestamps that grow are distinct as they stand.
pub proof fn lemma_distinct_of_strict(patches: Seq<PatchView>)
    requires
        strictly_ascending(patches),
    ensures
        distinct(timestamps(patches)) == timestamps(patches),
    decreases patches.len(),
{
    let stamps = timestamps(patches);
    if patches.len() > 0 {
        let front = patches.drop_last();
        assert(strictly_ascending(front)) by {
            assert forall|i: int, j: int| 0 <= i < j < front.len() implies (
            #[trigger] front[i]).timestamp < (#[trigger] front[j]).timestamp by {
                assert(front[i] == patches[i] && front[j] == patches[j]);
            }
        }
        lemma_distinct_of_strict(front);
        assert(stamps.drop_last() =~= timestamps(front));
        if front.len() > 0 {
            assert(front[front.len() - 1] == patches[front.len() - 1]);
            assert(patches[front.len() - 1].timestamp < patches[patches.len() - 1].timestamp);
        }
        assert(distinct(stamps) =~= stamps);
    } else {
        assert(distinct(stamps) =~= stamps);
    }
}

/// With a history whose timestamps grow and lie before a time, the recent
/// timestamps before that time are those of its last patches, the latest
/// first.
pub proof fn lemma_recent_of_strict(
    patches: Seq<PatchView>,
    document_uuid: Seq<char>,
    timestamp: i64,
    limit: nat,
)
    requires
        strictly_ascending(history(patches, document_uuid)),
        all_before(history(patches, document_uuid), timestamp),
    ensures
        ({
            let own = history(patches, document_uuid);
            let recent = recent_timestamps(patches, document_uuid, timestamp, limit);
            &&& recent.len() == if limit < own.len() {
                limit
            } else {
                own.len()
            }
            &&& forall|k: int|
                0 <= k < recent.len() ==> #[trigger] recent[k] == own[own.len() - 1 - k].timestamp
        }),
{
    let own = history(patches, document_uuid);
    lemma_whole_history(patches, document_uuid, timestamp);
    lemma_distinct_of_strict(own);
    let newest_first = timestamps(own).reverse();
    let recent = at_most(newest_first, limit);
    assert(recent == recent_timestamps(patches, document_uuid, timestamp, limit));
    assert forall|k: int| 0 <= k < recent.len() implies #[trigger] recent[k] == own[own.len() - 1
        - k].timestamp by {
        assert(recent[k] == newest_first[k]);
    }
}

/// What the insertion of a patch does to the histories: the patch comes
/// last in the history of its document, where all of that was earlier, and
/// the other histories stay as they are.
pub proof fn lemma_history_insert(patches: Seq<PatchView>, patch: PatchView)
    requires
        ascending(patches),
        all_before(history(patches, patch.document_uuid), patch.timestamp),
    ensures
        history(
            patches.insert(patch_slot(patches, patch.timestamp), patch),
            patch.document_uuid,
        ) == history(patches, patch.document_uuid).push(patch),
        forall|other: Seq<char>|
            other != patch.document_uuid ==> #[trigger] history(
                patches.insert(patch_slot(patches, patch.timestamp), patch),
                other,
            ) == history(patches, other),
        forall|other: Seq<char>, timestamp: i64|
            other != patch.document_uuid || timestamp < patch.timestamp ==> patches.insert(
                patch_slot(patches, patch.timestamp),
                patch,
            ).filter(#[trigger] of_document_upto(other, timestamp)) == patches.filter(
                of_document_upto(other, timestamp),
            ),
{
    let slot = patch_slot(patches, patch.timestamp);
    let after = patches.insert(slot, patch);
    let own = of_document(patch.document_uuid);
    lemma_patch_slot(patches, patch);
    lemma_history_bound(patches, patch.document_uuid, patch.timestamp);
    lemma_filter_insert(patches, slot, patch, own);
    let back = patches.skip(slot);
    assert forall|i: int| 0 <= i < back.len() implies !own(#[trigger] back[i]) by {
        assert(back[i] == patches[slot + i]);
        assert(patches[slot + i].timestamp > patch.timestamp);
    }
    lemma_filter_none(back, own);
    assert(patches.take(slot).filter(own) + Seq::<PatchView>::empty() =~= patches.take(
        slot,
    ).filter(own));
    assert(patches.take(slot).filter(own).push(patch) + Seq::<PatchView>::empty()
        =~= patches.take(slot).filter(own).push(patch));
    assert forall|other: Seq<char>| other != patch.document_uuid implies #[trigger] history(
        after,
        other,
    ) == history(patches, other) by {
        lemma_filter_insert(patches, slot, patch, of_document(other));
    }
    assert forall|other: Seq<char>, timestamp: i64|
        other != patch.document_uuid || timestamp < patch.timestamp implies after.filter(
        #[trigger] of_document_upto(other, timestamp),
    ) == patches.filter(of_document_upto(other, timestamp)) by {
        lemma_filter_insert(patches, slot, patch, of_document_upto(other, timestamp));
    }
}

/// The insertion of a patch leaves the histories of the other documents as
/// they are.
pub proof fn lemma_history_insert_others(patches: Seq<PatchView>, slot: int, patch: PatchView)
    requires
        0 <= slot <= patches.len(),
    ensures
        forall|other: Seq<char>|
            other != patch.document_uuid ==> #[trigger] history(
                patches.insert(slot, patch),
                other,
            ) == history(patches, other),
{
    assert forall|other: Seq<char>| other != patch.document_uuid implies #[trigger] history(
        patches.insert(slot, patch),
        other,
    ) == history(patches, other) by {
        lemma_filter_insert(patches, slot, patch, of_document(other));
    }
}

} // verus!

//! The patch store: the documents and their patches, held in memory.
//!
//! Patches stand in ascending order of time, documents newest first, so that
//! every listing comes out in its order without sorting. Within one
//! timestamp, and within one creation time, what was inserted first stays
//! first.

use vstd::prelude::*;
use crate::chain::ascending;
use crate::model::{
    clone_document,
    clone_patch,
    document_views,
    patch_views,
    Document,
    DocumentView,
    Patch,
    PatchView,
    VersionError,
};

verus! {

/// The documents and patches of a store, as mathematical values.
pub struct StoreView {
    pub documents: Seq<DocumentView>,
    pub patches: Seq<PatchView>,
}

/// The store.
pub struct PatchStore {
    documents: Vec<Document>,
    patches: Vec<Patch>,
}

/// Creation times never increase along the sequence.
pub open spec fn newest_first(documents: Seq<DocumentView>) -> bool {
    forall|i: int, j: int|
        0 <= i <= j < documents.len() ==> (#[trigger] documents[i]).created_at >= (
        #[trigger] documents[j]).created_at
}

/// No two patches of the sequence share an id.
pub open spec fn distinct_ids(patches: Seq<PatchView>) -> bool {
    forall|i: int, j: int|
        0 <= i < j < patches.len() ==> (#[trigger] patches[i]).uuid != (#[trigger] patches[j]).uuid
}

/// What holds of every store: its orders, and that no two patches share an id.
pub open spec fn store_wf(store: StoreView) -> bool {
    &&& newest_first(store.documents)
    &&& ascending(store.patches)
    &&& distinct_ids(store.patches)
}

/// Some document of the sequence has this id.
pub open spec fn has_document(documents: Seq<DocumentView>, uuid: Seq<char>) -> bool {
    exists|i: int| 0 <= i < documents.len() && (#[trigger] documents[i]).uuid == uuid
}

/// Some patch of the sequence has this id.
pub open spec fn has_patch(patches: Seq<PatchView>, uuid: Seq<char>) -> bool {
    exists|i: int| 0 <= i < patches.len() && (#[trigger] patches[i]).uuid == uuid
}

/// Where a document created at `created_at` goes: behind the last document
/// that is as new or newer.
pub open spec fn document_slot(documents: Seq<DocumentView>, created_at: i64) -> int
    decreases documents.len(),
{
    if documents.len() == 0 {
        0
    } else if documents.last().created_at >= created_at {
        documents.len() as int
    } else {
        document_slot(documents.drop_last(), created_at)
    }
}

/// Where a patch of time `timestamp` goes: behind the last patch that is as
/// old or older.
pub open spec fn patch_slot(patches: Seq<PatchView>, timestamp: i64) -> int
    decreases patches.len(),
{
    if patches.len() == 0 {
        0
    } else if patches.last().timestamp <= timestamp {
        patches.len() as int
    } else {
        patch_slot(patches.drop_last(), timestamp)
    }
}

/// The patches of one document.
pub open spec fn of_document(document_uuid: Seq<char>) -> spec_fn(PatchView) -> bool {
    |p: PatchView| p.document_uuid == document_uuid
}

/// The patches of one document up to and including a time.
pub open spec fn of_document_upto(document_uuid: Seq<char>, timestamp: i64) -> spec_fn(
    PatchView,
) -> bool {
    |p: PatchView| p.document_uuid == document_uuid && p.timestamp <= timestamp
}

/// The patches of one document strictly before a time.
pub open spec fn of_document_before(document_uuid: Seq<char>, timestamp: i64) -> spec_fn(
    PatchView,
) -> bool {
    |p: PatchView| p.document_uuid == document_uuid && p.timestamp < timestamp
}

/// The timestamps of a sequence of patches, in the same order.
pub open spec fn timestamps(patches: Seq<PatchView>) -> Seq<i64> {
    patches.map_values(|p: PatchView| p.timestamp)
}

/// The sequence without the entries that repeat the one before them.
pub open spec fn distinct(values: Seq<i64>) -> Seq<i64>
    decreases values.len(),
{
    if values.len() == 0 {
        values
    } else {
        let front = distinct(values.drop_last());
        if front.len() > 0 && front.last() == values.last() {
            front
        } else {
            front.push(values.last())
        }
    }
}

/// The first `limit` entries of a sequence, or all of it where it has fewer.
pub open spec fn at_most(values: Seq<i64>, limit: nat) -> Seq<i64> {
    if limit < values.len() {
        values.take(limit as int)
    } else {
        values
    }
}

/// Up to `limit` distinct timestamps of a document's patches strictly before
/// a time, the most recent first.
pub open spec fn recent_timestamps(
    patches: Seq<PatchView>,
    document_uuid: Seq<char>,
    before: i64,
    limit: nat,
) -> Seq<i64> {
    at_most(
        distinct(timestamps(patches.filter(of_document_before(document_uuid, before)))).reverse(),
        limit,
    )
}

/// The length of the delta of a patch, 0 where it has none.
pub open spec fn delta_len(patch: PatchView) -> nat {
    match patch.delta {
        Some(delta) => delta.len(),
        None => 0,
    }
}

/// The summed delta lengths of a sequence of patches.
pub open spec fn delta_total(patches: Seq<PatchView>) -> nat
    decreases patches.len(),
{
    if patches.len() == 0 {
        0
    } else {
        delta_total(patches.drop_last()) + delta_len(patches.last())
    }
}

/// Filtering one element further either appends it or changes nothing.
pub proof fn lemma_filter_step<A>(s: Seq<A>, pred: spec_fn(A) -> bool, i: int)
    requires
        0 <= i < s.len(),
    ensures
        s.take(i + 1).filter(pred) == if pred(s[i]) {
            s.take(i).filter(pred).push(s[i])
        } else {
            s.take(i).filter(pred)
        },
{
    reveal(Seq::filter);
    assert(s.take(i + 1).drop_last() =~= s.take(i));
}

/// Nothing is selected from nothing, and the whole is its own longest prefix.
pub proof fn lemma_filter_ends<A>(s: Seq<A>, pred: spec_fn(A) -> bool)
    ensures
        s.take(0).filter(pred) == Seq::<A>::empty(),
        s.take(s.len() as int) == s,
{
    reveal(Seq::filter);
    assert(s.take(s.len() as int) =~= s);
}

/// A selection of patches in ascending order is in ascending order.
pub proof fn lemma_filter_ascending(patches: Seq<PatchView>, pred: spec_fn(PatchView) -> bool)
    requires
        ascending(patches),
    ensures
        ascending(patches.filter(pred)),
    decreases patches.len(),
{
    reveal(Seq::filter);
    if patches.len() > 0 {
        let front = patches.drop_last();
        let kept = front.filter(pred);
        assert(ascending(front)) by {
            assert forall|i: int, j: int| 0 <= i <= j < front.len() implies (
            #[trigger] front[i]).timestamp <= (#[trigger] front[j]).timestamp by {
                assert(front[i] == patches[i] && front[j] == patches[j]);
            }
        }
        lemma_filter_ascending(front, pred);
        if pred(patches.last()) {
            let all = kept.push(patches.last());
            assert forall|i: int, j: int| 0 <= i <= j < all.len() implies (
            #[trigger] all[i]).timestamp <= (#[trigger] all[j]).timestamp by {
                if j < kept.len() {
                    assert(all[i] == kept[i] && all[j] == kept[j]);
                } else if i < kept.len() {
                    assert(all[i] == kept[i]);
                    assert(kept.contains(kept[i]));
                    front.lemma_filter_contains_rev(pred, kept[i]);
                    let k = choose|k: int| 0 <= k < front.len() && front[k] == kept[i];
                    assert(front[k] == patches[k]);
                    assert(patches[k].timestamp <= patches[patches.len() - 1].timestamp);
                }
            }
        }
    }
}

/// Inserting a patch under a new id keeps the ids distinct.
pub proof fn lemma_insert_distinct(patches: Seq<PatchView>, slot: int, patch: PatchView)
    requires
        0 <= slot <= patches.len(),
        distinct_ids(patches),
        !has_patch(patches, patch.uuid),
    ensures
        distinct_ids(patches.insert(slot, patch)),
{
    let after = patches.insert(slot, patch);
    assert forall|i: int, j: int| 0 <= i < j < after.len() implies (#[trigger] after[i]).uuid != (
    #[trigger] after[j]).uuid by {
        let a = if i < slot { i } else { i - 1 };
        let b = if j < slot { j } else { j - 1 };
        if i != slot && j != slot {
            assert(after[i] == patches[a] && after[j] == patches[b]);
        } else if i == slot {
            assert(after[j] == patches[b]);
        } else {
            assert(after[i] == patches[a]);
        }
    }
}

/// The models of a sequence with a patch inserted.
proof fn lemma_patch_views_insert(patches: Seq<Patch>, slot: int, patch: Patch)
    requires
        0 <= slot <= patches.len(),
    ensures
        patch_views(patches.insert(slot, patch)) == patch_views(patches).insert(slot, patch@),
{
    assert(patch_views(patches.insert(slot, patch)) =~= patch_views(patches).insert(
        slot,
        patch@,
    ));
}

/// The models of a sequence with a document inserted.
proof fn lemma_document_views_insert(documents: Seq<Document>, slot: int, document: Document)
    requires
        0 <= slot <= documents.len(),
    ensures
        document_views(documents.insert(slot, document)) == document_views(documents).insert(
            slot,
            document@,
        ),
{
    assert(document_views(documents.insert(slot, document)) =~= document_views(documents).insert(
        slot,
        document@,
    ));
}

/// What stands before the slot of a patch is as old or older, what stands
/// from there on is newer; so the insertion keeps the order.
pub proof fn lemma_patch_slot(patches: Seq<PatchView>, patch: PatchView)
    requires
        ascending(patches),
    ensures
        0 <= patch_slot(patches, patch.timestamp) <= patches.len(),
        forall|i: int|
            0 <= i < patch_slot(patches, patch.timestamp) ==> (#[trigger] patches[i]).timestamp
                <= patch.timestamp,
        forall|i: int|
            patch_slot(patches, patch.timestamp) <= i < patches.len() ==> (
            #[trigger] patches[i]).timestamp > patch.timestamp,
        ascending(patches.insert(patch_slot(patches, patch.timestamp), patch)),
    decreases patches.len(),
{
    let slot = patch_slot(patches, patch.timestamp);
    if patches.len() > 0 {
        let front = patches.drop_last();
        assert forall|i: int| 0 <= i < front.len() implies #[trigger] front[i] == patches[i] by {}
        assert(ascending(front)) by {
            assert forall|i: int, j: int| 0 <= i <= j < front.len() implies (
            #[trigger] front[i]).timestamp <= (#[trigger] front[j]).timestamp by {
                assert(patches[i].timestamp <= patches[j].timestamp);
            }
        }
        lemma_patch_slot(front, patch);
        assert forall|i: int| 0 <= i < slot implies (#[trigger] patches[i]).timestamp
            <= patch.timestamp by {
            if patches.last().timestamp <= patch.timestamp {
                assert(patches[i].timestamp <= patches[patches.len() - 1].timestamp);
            } else {
                assert(front[i] == patches[i]);
            }
        }
        assert forall|i: int| slot <= i < patches.len() implies (#[trigger] patches[i]).timestamp
            > patch.timestamp by {
            if i < patches.len() - 1 {
                assert(front[i] == patches[i]);
            }
        }
    }
    let after = patches.insert(slot, patch);
    assert forall|i: int, j: int| 0 <= i <= j < after.len() implies (
    #[trigger] after[i]).timestamp <= (#[trigger] after[j]).timestamp by {
        let a = if i < slot { i } else { i - 1 };
        let b = if j < slot { j } else { j - 1 };
        if i != slot && j != slot {
            assert(after[i] == patches[a] && after[j] == patches[b]);
            assert(patches[a].timestamp <= patches[b].timestamp);
        } else if i == slot && j != slot {
            assert(after[j] == patches[b]);
        } else if j == slot && i != slot {
            assert(after[i] == patches[a]);
        }
    }
}

/// The same for a document and its creation time.
pub proof fn lemma_document_slot(documents: Seq<DocumentView>, document: DocumentView)
    requires
        newest_first(documents),
    ensures
        0 <= document_slot(documents, document.created_at) <= documents.len(),
        forall|i: int|
            0 <= i < document_slot(documents, document.created_at) ==> (
            #[trigger] documents[i]).created_at >= document.created_at,
        forall|i: int|
            document_slot(documents, document.created_at) <= i < documents.len() ==> (
            #[trigger] documents[i]).created_at < document.created_at,
        newest_first(documents.insert(document_slot(documents, document.created_at), document)),
    decreases documents.len(),
{
    let slot = document_slot(documents, document.created_at);
    if documents.len() > 0 {
        let front = documents.drop_last();
        assert forall|i: int| 0 <= i < front.len() implies #[trigger] front[i] == documents[i] by {}
        assert(newest_first(front)) by {
            assert forall|i: int, j: int| 0 <= i <= j < front.len() implies (
            #[trigger] front[i]).created_at >= (#[trigger] front[j]).created_at by {
                assert(documents[i].created_at >= documents[j].created_at);
            }
        }
        lemma_document_slot(front, document);
        assert forall|i: int| 0 <= i < slot implies (#[trigger] documents[i]).created_at
            >= document.created_at by {
            if documents.last().created_at >= document.created_at {
                assert(documents[i].created_at >= documents[documents.len() - 1].created_at);
            } else {
                assert(front[i] == documents[i]);
            }
        }
        assert forall|i: int| slot <= i < documents.len() implies (
        #[trigger] documents[i]).created_at < document.created_at by {
            if i < documents.len() - 1 {
                assert(front[i] == documents[i]);
            }
        }
    }
    let after = documents.insert(slot, document);
    assert forall|i: int, j: int| 0 <= i <= j < after.len() implies (
    #[trigger] after[i]).created_at >= (#[trigger] after[j]).created_at by {
        let a = if i < slot { i } else { i - 1 };
        let b = if j < slot { j } else { j - 1 };
        if i != slot && j != slot {
            assert(after[i] == documents[a] && after[j] == documents[b]);
            assert(documents[a].created_at >= documents[b].created_at);
        } else if i == slot && j != slot {
            assert(after[j] == documents[b]);
        } else if j == slot && i != slot {
            assert(after[i] == documents[a]);
        }
    }
}

/// The summed delta lengths only grow along a sequence.
pub proof fn lemma_delta_total_grows(patches: Seq<PatchView>, count: int)
    requires
        0 <= count <= patches.len(),
    ensures
        delta_total(patches.take(count)) <= delta_total(patches),
    decreases patches.len() - count,
{
    if count < patches.len() {
        lemma_delta_total_grows(patches, count + 1);
        assert(patches.take(count + 1).drop_last() =~= patches.take(count));
    } else {
        assert(patches.take(count) =~= patches);
    }
}

impl View for PatchStore {
    type V = StoreView;

    closed spec fn view(&self) -> StoreView {
        StoreView {
            documents: document_views(self.documents@),
            patches: patch_views(self.patches@),
        }
    }
}

impl PatchStore {
    /// What holds of every store that this module hands out.
    pub open spec fn wf(&self) -> bool {
        store_wf(self@)
    }

    /// A store without documents or patches.
    pub fn new() -> (store: PatchStore)
        ensures
            store.wf(),
            store@.documents == Seq::<DocumentView>::empty(),
            store@.patches == Seq::<PatchView>::empty(),
    {
        let store = PatchStore { documents: Vec::new(), patches: Vec::new() };
        assert(store@.documents =~= Seq::<DocumentView>::empty());
        assert(store@.patches =~= Seq::<PatchView>::empty());
        store
    }

    /// Whether the store holds a document of this id.
    pub fn contains_document(&self, document_uuid: &str) -> (found: bool)
        ensures
            found == has_document(self@.documents, document_uuid@),
    {
        let wanted: String = document_uuid.to_owned();
        let mut i: usize = 0;
        while i < self.documents.len()
            invariant
                i <= self.documents.len(),
                wanted@ == document_uuid@,
                forall|j: int| 0 <= j < i ==> (#[trigger] self@.documents[j]).uuid != wanted@,
            decreases self.documents.len() - i,
        {
            if self.documents[i].uuid == wanted {
                assert(self@.documents[i as int].uuid == wanted@);
                return true;
            }
            i = i + 1;
        }
        false
    }

    /// Whether the store holds a patch of this id.
    pub fn contains_patch(&self, patch_uuid: &str) -> (found: bool)
        ensures
            found == has_patch(self@.patches, patch_uuid@),
    {
        let wanted: String = patch_uuid.to_owned();
        let mut i: usize = 0;
        while i < self.patches.len()
            invariant
                i <= self.patches.len(),
                wanted@ == patch_uuid@,
                forall|j: int| 0 <= j < i ==> (#[trigger] self@.patches[j]).uuid != wanted@,
            decreases self.patches.len() - i,
        {
            if self.patches[i].uuid == wanted {
                assert(self@.patches[i as int].uuid == wanted@);
                return true;
            }
            i = i + 1;
        }
        false
    }

    /// The patch of this id, if the store holds one.
    pub fn find_patch(&self, patch_uuid: &str) -> (found: Option<Patch>)
        ensures
            found is Some <==> has_patch(self@.patches, patch_uuid@),
            found matches Some(patch) ==> patch@.uuid == patch_uuid@ && self@.patches.contains(
                patch@,
            ),
    {
        let wanted: String = patch_uuid.to_owned();
        let mut i: usize = 0;
        while i < self.patches.len()
            invariant
                i <= self.patches.len(),
                wanted@ == patch_uuid@,
                forall|j: int| 0 <= j < i ==> (#[trigger] self@.patches[j]).uuid != wanted@,
            decreases self.patches.len() - i,
        {
            if self.patches[i].uuid == wanted {
                assert(self@.patches[i as int].uuid == wanted@);
                return Some(clone_patch(&self.patches[i]));
            }
            i = i + 1;
        }
        None
    }

    /// Adds a document. An id that the store already holds is refused with
    /// `StoreError`, and the store stays as it is.
    pub fn insert_document(&mut self, document: Document) -> (result: Result<(), VersionError>)
        requires
            old(self).wf(),
        ensures
            final(self).wf(),
            has_document(old(self)@.documents, document@.uuid) ==> result == Err::<
                (),
                VersionError,
            >(VersionError::StoreError) && final(self)@ == old(self)@,
            !has_document(old(self)@.documents, document@.uuid) ==> result == Ok::<
                (),
                VersionError,
            >(()) && final(self)@ == (StoreView {
                documents: old(self)@.documents.insert(
                    document_slot(old(self)@.documents, document.created_at),
                    document@,
                ),
                ..old(self)@
            }),
    {
        if self.contains_document(document.uuid.as_str()) {
            return Err(VersionError::StoreError);
        }
        let ghost before = self@.documents;
        let mut slot: usize = self.documents.len();
        assert(before.take(slot as int) =~= before);
        while slot > 0 && self.documents[slot - 1].created_at < document.created_at
            invariant
                slot <= self.documents.len(),
                before == self@.documents,
                document_slot(before, document.created_at) == document_slot(
                    before.take(slot as int),
                    document.created_at,
                ),
            decreases slot,
        {
            assert(before.take(slot as int).drop_last() =~= before.take(slot as int - 1));
            slot = slot - 1;
        }
        proof {
            lemma_document_slot(before, document@);
        }
        proof {
            lemma_document_views_insert(self.documents@, slot as int, document);
        }
        self.documents.insert(slot, document);
        Ok(())
    }

    /// Adds a patch. An id that the store already holds is refused with
    /// `StoreError`, a document that it does not hold with `NotFound`; either
    /// way the store stays as it is.
    pub fn insert_patch(&mut self, patch: Patch) -> (result: Result<(), VersionError>)
        requires
            old(self).wf(),
        ensures
            final(self).wf(),
            has_patch(old(self)@.patches, patch@.uuid) ==> result == Err::<(), VersionError>(
                VersionError::StoreError,
            ) && final(self)@ == old(self)@,
            !has_patch(old(self)@.patches, patch@.uuid) && !has_document(
                old(self)@.documents,
                patch@.document_uuid,
            ) ==> result == Err::<(), VersionError>(VersionError::NotFound) && final(self)@
                == old(self)@,
            !has_patch(old(self)@.patches, patch@.uuid) && has_document(
                old(self)@.documents,
                patch@.document_uuid,
            ) ==> result == Ok::<(), VersionError>(()) && final(self)@ == (StoreView {
                patches: old(self)@.patches.insert(
                    patch_slot(old(self)@.patches, patch.timestamp),
                    patch@,
                ),
                ..old(self)@
            }),
    {
        if self.contains_patch(patch.uuid.as_str()) {
            return Err(VersionError::StoreError);
        }
        if !self.contains_document(patch.document_uuid.as_str()) {
            return Err(VersionError::NotFound);
        }
        let ghost before = self@.patches;
        let mut slot: usize = self.patches.len();
        assert(before.take(slot as int) =~= before);
        while slot > 0 && self.patches[slot - 1].timestamp > patch.timestamp
            invariant
                slot <= self.patches.len(),
                before == self@.patches,
                patch_slot(before, patch.timestamp) == patch_slot(
                    before.take(slot as int),
                    patch.timestamp,
                ),
            decreases slot,
        {
            assert(before.take(slot as int).drop_last() =~= before.take(slot as int - 1));
            slot = slot - 1;
        }
        proof {
            lemma_patch_slot(before, patch@);
        }
        proof {
            lemma_patch_views_insert(self.patches@, slot as int, patch);
            lemma_insert_distinct(before, slot as int, patch@);
        }
        self.patches.insert(slot, patch);
        Ok(())
    }

    /// The documents, newest first.
    pub fn list_documents(&self) -> (documents: Vec<Document>)
        ensures
            document_views(documents@) == self@.documents,
    {
        let mut documents: Vec<Document> = Vec::new();
        let mut i: usize = 0;
        while i < self.documents.len()
            invariant
                i <= self.documents.len(),
                document_views(documents@) == self@.documents.take(i as int),
            decreases self.documents.len() - i,
        {
            let ghost so_far = document_views(documents@);
            documents.push(clone_document(&self.documents[i]));
            assert(self@.documents[i as int] == self.documents@[i as int]@);
            assert(document_views(documents@) =~= so_far.push(self@.documents[i as int]));
            assert(document_views(documents@) =~= self@.documents.take(i as int + 1));
            i = i + 1;
        }
        assert(self@.documents.take(i as int) =~= self@.documents);
        documents
    }

    /// The timestamps of a document's patches, in ascending order.
    pub fn list_patch_timestamps(&self, document_uuid: &str) -> (found: Vec<i64>)
        ensures
            found@ == timestamps(self@.patches.filter(of_document(document_uuid@))),
    {
        let wanted: String = document_uuid.to_owned();
        let ghost pred = of_document(document_uuid@);
        let ghost all = self@.patches;
        let mut found: Vec<i64> = Vec::new();
        let mut i: usize = 0;
        proof {
            lemma_filter_ends(all, pred);
        }
        while i < self.patches.len()
            invariant
                i <= self.patches.len(),
                wanted@ == document_uuid@,
                pred == of_document(document_uuid@),
                all == self@.patches,
                found@ == timestamps(all.take(i as int).filter(pred)),
            decreases self.patches.len() - i,
        {
            proof {
                lemma_filter_step(all, pred, i as int);
            }
            if self.patches[i].document_uuid == wanted {
                found.push(self.patches[i].timestamp);
                assert(found@ =~= timestamps(all.take(i as int + 1).filter(pred)));
            }
            i = i + 1;
        }
        assert(all.take(all.len() as int) =~= all);
        found
    }

    /// The patches of a document up to and including a time, in ascending order.
    pub fn query_patches_upto(&self, document_uuid: &str, timestamp: i64) -> (found: Vec<Patch>)
        requires
            self.wf(),
        ensures
            patch_views(found@) == self@.patches.filter(
                of_document_upto(document_uuid@, timestamp),
            ),
            ascending(patch_views(found@)),
    {
        let wanted: String = document_uuid.to_owned();
        let ghost pred = of_document_upto(document_uuid@, timestamp);
        let ghost all = self@.patches;
        let mut found: Vec<Patch> = Vec::new();
        let mut i: usize = 0;
        proof {
            lemma_filter_ends(all, pred);
            assert(patch_views(found@) =~= all.take(0).filter(pred));
        }
        while i < self.patches.len()
            invariant
                i <= self.patches.len(),
                wanted@ == document_uuid@,
                pred == of_document_upto(document_uuid@, timestamp),
                all == self@.patches,
                patch_views(found@) == all.take(i as int).filter(pred),
            decreases self.patches.len() - i,
        {
            proof {
                lemma_filter_step(all, pred, i as int);
            }
            if self.patches[i].document_uuid == wanted && self.patches[i].timestamp <= timestamp {
                found.push(clone_patch(&self.patches[i]));
                assert(patch_views(found@) =~= all.take(i as int + 1).filter(pred));
            }
            i = i + 1;
        }
        proof {
            assert(all.take(all.len() as int) =~= all);
            lemma_filter_ascending(all, pred);
        }
        found
    }

    /// Up to `limit` distinct timestamps of a document's patches strictly
    /// before a time, the most recent first.
    pub fn query_recent_patch_timestamps(
        &self,
        document_uuid: &str,
        before: i64,
        limit: usize,
    ) -> (found: Vec<i64>)
        ensures
            found@ == recent_timestamps(self@.patches, document_uuid@, before, limit as nat),
    {
        let wanted: String = document_uuid.to_owned();
        let ghost pred = of_document_before(document_uuid@, before);
        let ghost all = self@.patches;
        let mut earlier: Vec<i64> = Vec::new();
        let mut i: usize = 0;
        proof {
            lemma_filter_ends(all, pred);
            assert(earlier@ =~= distinct(timestamps(all.take(0).filter(pred))));
        }
        while i < self.patches.len()
            invariant
                i <= self.patches.len(),
                wanted@ == document_uuid@,
                pred == of_document_before(document_uuid@, before),
                all == self@.patches,
                earlier@ == distinct(timestamps(all.take(i as int).filter(pred))),
            decreases self.patches.len() - i,
        {
            proof {
                lemma_filter_step(all, pred, i as int);
            }
            if self.patches[i].document_uuid == wanted && self.patches[i].timestamp < before {
                let ghost kept = all.take(i as int).filter(pred);
                assert(timestamps(kept.push(all[i as int])).drop_last() =~= timestamps(kept));
                if earlier.len() == 0 || earlier[earlier.len() - 1] != self.patches[i].timestamp {
                    earlier.push(self.patches[i].timestamp);
                }
            }
            i = i + 1;
        }
        assert(all.take(all.len() as int) =~= all);
        let ghost newest_first = earlier@.reverse();
        let mut found: Vec<i64> = Vec::new();
        let mut left: usize = earlier.len();
        while left > 0 && found.len() < limit
            invariant
                left <= earlier.len(),
                found.len() + left == earlier.len(),
                found.len() <= limit,
                newest_first == earlier@.reverse(),
                found@ == newest_first.take(found.len() as int),
            decreases left,
        {
            left = left - 1;
            found.push(earlier[left]);
            assert(found@ =~= newest_first.take(found.len() as int));
        }
        assert(found@ =~= at_most(newest_first, limit as nat));
        found
    }

    /// The number of a document's patches and the summed lengths of their
    /// deltas. A total beyond `i64::MAX` is reported as `StoreError`.
    pub fn aggregate_patch_stats(&self, document_uuid: &str) -> (result: Result<
        (i64, i64),
        VersionError,
    >)
        ensures
            ({
                let own = self@.patches.filter(of_document(document_uuid@));
                if own.len() <= i64::MAX && delta_total(own) <= i64::MAX {
                    result == Ok::<(i64, i64), VersionError>(
                        (own.len() as i64, delta_total(own) as i64),
                    )
                } else {
                    result == Err::<(i64, i64), VersionError>(VersionError::StoreError)
                }
            }),
    {
        let wanted: String = document_uuid.to_owned();
        let ghost pred = of_document(document_uuid@);
        let ghost all = self@.patches;
        let ghost own = all.filter(pred);
        let mut count: u64 = 0;
        let mut bytes: u64 = 0;
        let mut i: usize = 0;
        proof {
            lemma_filter_ends(all, pred);
        }
        while i < self.patches.len()
            invariant
                i <= self.patches.len(),
                wanted@ == document_uuid@,
                pred == of_document(document_uuid@),
                all == self@.patches,
                own == all.filter(pred),
                count == all.take(i as int).filter(pred).len(),
                bytes == delta_total(all.take(i as int).filter(pred)),
                count <= i,
                bytes <= i64::MAX,
            decreases self.patches.len() - i,
        {
            proof {
                lemma_filter_step(all, pred, i as int);
            }
            if self.patches[i].document_uuid == wanted {
                let ghost kept = all.take(i as int).filter(pred);
                assert(kept.push(all[i as int]).drop_last() =~= kept);
                let size: u64 = match &self.patches[i].delta {
                    Some(delta) => delta.as_bytes().len() as u64,
                    None => 0,
                };
                assert(size == delta_len(all[i as int]));
                if size > 0x7fff_ffff_ffff_ffff - bytes {
                    proof {
                        lemma_own_prefix(all, pred, i as int + 1);
                        lemma_delta_total_grows(own, kept.len() as int + 1);
                    }
                    return Err(VersionError::StoreError);
                }
                bytes = bytes + size;
                count = count + 1;
            }
            i = i + 1;
        }
        assert(all.take(all.len() as int) =~= all);
        if count > 0x7fff_ffff_ffff_ffff {
            return Err(VersionError::StoreError);
        }
        Ok((count as i64, bytes as i64))
    }
}

/// The selection from a prefix is a prefix of the selection.
pub proof fn lemma_own_prefix<A>(s: Seq<A>, pred: spec_fn(A) -> bool, count: int)
    requires
        0 <= count <= s.len(),
    ensures
        s.take(count).filter(pred).len() <= s.filter(pred).len(),
        s.take(count).filter(pred) == s.filter(pred).take(s.take(count).filter(pred).len() as int),
    decreases s.len() - count,
{
    if count < s.len() {
        lemma_own_prefix(s, pred, count + 1);
        lemma_filter_step(s, pred, count);
        let longer = s.take(count + 1).filter(pred);
        let shorter = s.take(count).filter(pred);
        assert(shorter =~= longer.take(shorter.len() as int));
        assert(shorter =~= s.filter(pred).take(shorter.len() as int));
    } else {
        assert(s.take(count) =~= s);
        assert(s.filter(pred) =~= s.filter(pred).take(s.filter(pred).len() as int));
    }
}

} // verus!

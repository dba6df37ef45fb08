//! The version store: documents, their patches and the cache, with the
//! operations that create documents, commit versions and read them back.

use vstd::prelude::*;
use vstd::utf8::{decode_utf8, valid_utf8};
use crate::cache::{CacheView, VersionCache};
use crate::cache_laws::{
    coherent_for,
    content_at,
    law_determinism,
    law_repeatable,
    lemma_read_keeps_coherent,
    lemma_select_keeps_coherent,
};
use crate::chain::{reconstruct, replay_result};
use crate::codec::{codec_decode, codec_tag, Delta};
use crate::commit_laws::{
    committed_in_order,
    in_order,
    law_commit_in_order,
    lemma_commit_others,
    lemma_in_order_without_patches,
    lemma_stays_true,
    others_left_alone,
    stays_true,
};
use crate::history_laws::{all_before, history};
use crate::model::{
    bytes_equal,
    document_views,
    Document,
    DocumentStats,
    DocumentView,
    Patch,
    PatchView,
    VersionError,
};
use crate::outside::{fresh_uuid, now_millis, text_from_bytes};
use crate::select::{
    find_optimal_base,
    no_candidate_shorter,
    select_base,
    selected_base,
    version_replay,
};
use crate::store::{
    delta_total,
    document_slot,
    has_document,
    has_patch,
    of_document,
    patch_slot,
    store_wf,
    timestamps,
    PatchStore,
    StoreView,
};

verus! {

/// How many of the most recent versions are tried as the base of a new one.
pub const BASE_WINDOW: usize = 16;

/// The store and the cache of a version store, as mathematical values.
pub struct VersionsView {
    pub store: StoreView,
    pub cache: CacheView,
}

/// The version store.
pub struct VersionStore {
    store: PatchStore,
    cache: VersionCache,
}

/// What the addition of a document comes to: its result, and the version
/// store after it.
pub struct Addition {
    pub result: Result<Seq<char>, VersionError>,
    pub after: VersionsView,
}

/// The addition of a document under a given id and creation time. An id
/// that the store already holds is refused with `StoreError` and nothing
/// changes; otherwise the document takes its place among the documents,
/// newest first, and its id is returned.
pub open spec fn addition(
    before: VersionsView,
    uuid: Seq<char>,
    name: Seq<char>,
    created_at: i64,
) -> Addition {
    if has_document(before.store.documents, uuid) {
        Addition { result: Err(VersionError::StoreError), after: before }
    } else {
        Addition {
            result: Ok(uuid),
            after: VersionsView {
                store: StoreView {
                    documents: before.store.documents.insert(
                        document_slot(before.store.documents, created_at),
                        DocumentView { uuid, name, created_at },
                    ),
                    ..before.store
                },
                ..before
            },
        }
    }
}

/// What a commit comes to: its result, and the version store after it.
pub struct Commit {
    pub result: Result<Seq<char>, VersionError>,
    pub after: VersionsView,
}

/// The patch that a commit stores.
pub open spec fn committed_patch(
    patch_uuid: Seq<char>,
    document_uuid: Seq<char>,
    timestamp: i64,
    delta: Seq<u8>,
) -> PatchView {
    PatchView { uuid: patch_uuid, document_uuid, timestamp, delta: Some(delta) }
}

/// The commit of new content for a document at a time, under a given id for
/// the new patch.
///
/// The document is first reconstructed as of that time. Content equal to it
/// is refused with `NoChange`. Otherwise the base is chosen, the patch is
/// stored and the content is remembered for it. The store changes only where
/// the commit succeeds; the cache keeps whatever the reconstructions added.
pub open spec fn commit(
    before: VersionsView,
    document_uuid: Seq<char>,
    content: Seq<u8>,
    timestamp: i64,
    patch_uuid: Seq<char>,
) -> Commit {
    let current = version_replay(before.cache, before.store.patches, document_uuid, timestamp);
    let chosen = select_base(
        current.cache,
        before.store.patches,
        document_uuid,
        timestamp,
        content,
        BASE_WINDOW as nat,
        true,
    );
    if !current.ok {
        Commit {
            result: Err(VersionError::DecodeError),
            after: VersionsView { cache: current.cache, ..before },
        }
    } else if replay_result(current) == Ok::<Seq<u8>, VersionError>(content) {
        Commit {
            result: Err(VersionError::NoChange),
            after: VersionsView { cache: current.cache, ..before },
        }
    } else if !chosen.ok {
        Commit {
            result: Err(VersionError::DecodeError),
            after: VersionsView { cache: chosen.cache, ..before },
        }
    } else if has_patch(before.store.patches, patch_uuid) {
        Commit {
            result: Err(VersionError::StoreError),
            after: VersionsView { cache: chosen.cache, ..before },
        }
    } else if !has_document(before.store.documents, document_uuid) {
        Commit {
            result: Err(VersionError::NotFound),
            after: VersionsView { cache: chosen.cache, ..before },
        }
    } else {
        Commit {
            result: Ok(patch_uuid),
            after: VersionsView {
                store: StoreView {
                    patches: before.store.patches.insert(
                        patch_slot(before.store.patches, timestamp),
                        committed_patch(patch_uuid, document_uuid, timestamp, chosen.delta),
                    ),
                    ..before.store
                },
                cache: chosen.cache.insert((document_uuid, patch_uuid), content),
            },
        }
    }
}

/// The delta chosen for a commit decodes, over the base it was encoded
/// against, to the committed content, and carries the tag of that base.
pub open spec fn sound_choice(
    before: VersionsView,
    document_uuid: Seq<char>,
    content: Seq<u8>,
    timestamp: i64,
) -> bool {
    let current = version_replay(before.cache, before.store.patches, document_uuid, timestamp);
    let chosen = select_base(
        current.cache,
        before.store.patches,
        document_uuid,
        timestamp,
        content,
        BASE_WINDOW as nat,
        true,
    );
    let base = selected_base(
        current.cache,
        before.store.patches,
        document_uuid,
        timestamp,
        content,
        BASE_WINDOW as nat,
        true,
    );
    &&& codec_decode(base, chosen.delta) == Some(content)
    &&& codec_tag(chosen.delta) == Some(chosen.tag)
}

/// What a successful commit makes of a version store: `after` is the
/// outcome of the commit under some id for the new patch, and the stored
/// delta is sound.
#[verifier::opaque]
pub open spec fn committed_step(
    before: VersionsView,
    after: VersionsView,
    document_uuid: Seq<char>,
    content: Seq<u8>,
    timestamp: i64,
) -> bool {
    &&& sound_choice(before, document_uuid, content, timestamp)
    &&& exists|patch_uuid: Seq<char>|
        (#[trigger] commit(before, document_uuid, content, timestamp, patch_uuid)).result == Ok::<
            Seq<char>,
            VersionError,
        >(patch_uuid) && commit(before, document_uuid, content, timestamp, patch_uuid).after
            == after
}

/// The state of a count of uncompressed bytes: the cache as it then
/// stands, the bytes counted so far, and whether every version so far could
/// be reconstructed.
pub struct Tally {
    pub cache: CacheView,
    pub total: nat,
    pub ok: bool,
}

/// One step of the count: the document is reconstructed as of the time at
/// `index` and its length is added.
pub open spec fn tally_step(
    state: Tally,
    patches: Seq<PatchView>,
    document_uuid: Seq<char>,
    stamps: Seq<i64>,
    index: int,
) -> Tally {
    let version = version_replay(state.cache, patches, document_uuid, stamps[index]);
    match replay_result(version) {
        Ok(content) => Tally {
            cache: version.cache,
            total: state.total + content.len(),
            ok: true,
        },
        Err(_) => Tally { cache: version.cache, ok: false, ..state },
    }
}

/// The count over the first `count` times, from a given cache.
pub open spec fn tally(
    cache: CacheView,
    patches: Seq<PatchView>,
    document_uuid: Seq<char>,
    stamps: Seq<i64>,
    count: nat,
) -> Tally
    decreases count,
{
    if count == 0 {
        Tally { cache, total: 0, ok: true }
    } else {
        let before = tally(cache, patches, document_uuid, stamps, (count - 1) as nat);
        if before.ok {
            tally_step(before, patches, document_uuid, stamps, count - 1)
        } else {
            before
        }
    }
}

/// A count that has stopped stays as it is.
pub proof fn lemma_tally_stopped(
    cache: CacheView,
    patches: Seq<PatchView>,
    document_uuid: Seq<char>,
    stamps: Seq<i64>,
    stopped: nat,
    count: nat,
)
    requires
        stopped <= count,
        !tally(cache, patches, document_uuid, stamps, stopped).ok,
    ensures
        tally(cache, patches, document_uuid, stamps, count) == tally(
            cache,
            patches,
            document_uuid,
            stamps,
            stopped,
        ),
    decreases count,
{
    if count > stopped {
        lemma_tally_stopped(cache, patches, document_uuid, stamps, stopped, (count - 1) as nat);
    }
}

/// What the statistics of a document come to: the result, and the cache
/// after it.
pub struct Survey {
    pub result: Result<DocumentStats, VersionError>,
    pub cache: CacheView,
}

/// The statistics of a document: the number of its patches, the summed
/// lengths of their deltas, and the summed lengths of the document as of
/// the time of each patch. A total beyond `i64::MAX` is a `StoreError`; a
/// version that cannot be reconstructed is a `DecodeError`.
pub open spec fn survey(before: VersionsView, document_uuid: Seq<char>) -> Survey {
    let own = before.store.patches.filter(of_document(document_uuid));
    let counted = tally(
        before.cache,
        before.store.patches,
        document_uuid,
        timestamps(own),
        own.len(),
    );
    if own.len() > i64::MAX || delta_total(own) > i64::MAX {
        Survey { result: Err(VersionError::StoreError), cache: before.cache }
    } else if !counted.ok {
        Survey { result: Err(VersionError::DecodeError), cache: counted.cache }
    } else if counted.total > i64::MAX {
        Survey { result: Err(VersionError::StoreError), cache: counted.cache }
    } else {
        Survey {
            result: Ok(
                DocumentStats {
                    total_patches: own.len() as i64,
                    total_delta_bytes: delta_total(own) as i64,
                    total_uncompressed_bytes: counted.total as i64,
                },
            ),
            cache: counted.cache,
        }
    }
}

/// The result of an operation that returns text, as mathematical values.
pub open spec fn text_view(result: Result<String, VersionError>) -> Result<Seq<char>, VersionError> {
    match result {
        Ok(text) => Ok(text@),
        Err(error) => Err(error),
    }
}

/// The result of an operation that returns bytes, as mathematical values.
pub open spec fn bytes_view(result: Result<Vec<u8>, VersionError>) -> Result<Seq<u8>, VersionError> {
    match result {
        Ok(bytes) => Ok(bytes@),
        Err(error) => Err(error),
    }
}

/// The text of reconstructed bytes, or `EncodingError` where they are not
/// valid UTF-8.
pub open spec fn as_text(content: Result<Seq<u8>, VersionError>) -> Result<Seq<char>, VersionError> {
    match content {
        Ok(bytes) => if valid_utf8(bytes) {
            Ok(decode_utf8(bytes))
        } else {
            Err(VersionError::EncodingError)
        },
        Err(error) => Err(error),
    }
}

impl View for VersionStore {
    type V = VersionsView;

    closed spec fn view(&self) -> VersionsView {
        VersionsView { store: self.store@, cache: self.cache@ }
    }
}

impl VersionStore {
    /// What holds of every version store that this module hands out.
    pub open spec fn wf(&self) -> bool {
        store_wf(self@.store)
    }

    /// The cache remembers nothing false of a document.
    pub open spec fn coherent_for(&self, document_uuid: Seq<char>) -> bool {
        coherent_for(self@.cache, self@.store.patches, document_uuid)
    }

    /// A version store without documents, patches or remembered contents.
    /// Every document is in order in it.
    pub fn new() -> (versions: VersionStore)
        ensures
            versions.wf(),
            versions@.store.documents == Seq::<DocumentView>::empty(),
            versions@.store.patches == Seq::<PatchView>::empty(),
            versions@.cache == Map::<(Seq<char>, Seq<char>), Seq<u8>>::empty(),
            forall|document_uuid: Seq<char>| #[trigger] versions.coherent_for(document_uuid),
            forall|document_uuid: Seq<char>| #[trigger] in_order(versions@, document_uuid),
    {
        let versions = VersionStore { store: PatchStore::new(), cache: VersionCache::new() };
        proof {
            assert forall|document_uuid: Seq<char>|
                history(versions@.store.patches, document_uuid).len() == 0 by {
                reveal(Seq::filter);
            }
            assert forall|document_uuid: Seq<char>| #[trigger]
                in_order(versions@, document_uuid) by {
                lemma_in_order_without_patches(versions@, document_uuid);
            }
            assert forall|document_uuid: Seq<char>| #[trigger]
                versions.coherent_for(document_uuid) by {
                lemma_in_order_without_patches(versions@, document_uuid);
            }
        }
        versions
    }

    /// A version store over a given store and cache.
    pub fn from_parts(store: PatchStore, cache: VersionCache) -> (versions: VersionStore)
        requires
            store.wf(),
        ensures
            versions.wf(),
            versions@ == (VersionsView { store: store@, cache: cache@ }),
    {
        VersionStore { store, cache }
    }

    /// The store and the cache, given back.
    pub fn into_parts(self) -> (parts: (PatchStore, VersionCache))
        requires
            self.wf(),
        ensures
            parts.0.wf(),
            self@ == (VersionsView { store: parts.0@, cache: parts.1@ }),
    {
        (self.store, self.cache)
    }

    /// Stores a new document under a given id and creation time, and returns
    /// the id. An id that the store already holds is refused with
    /// `StoreError`, and nothing changes.
    pub fn add_document(&mut self, uuid: String, name: &str, created_at: i64) -> (result: Result<
        String,
        VersionError,
    >)
        requires
            old(self).wf(),
        ensures
            final(self).wf(),
            final(self)@.cache == old(self)@.cache,
            final(self)@.store.patches == old(self)@.store.patches,
            stays_true(old(self)@, final(self)@),
            text_view(result) == addition(old(self)@, uuid@, name@, created_at).result,
            final(self)@ == addition(old(self)@, uuid@, name@, created_at).after,
    {
        let document = Document { uuid: uuid.clone(), name: name.to_owned(), created_at };
        let inserted = self.store.insert_document(document);
        proof {
            lemma_stays_true(old(self)@, self@);
        }
        match inserted {
            Ok(()) => Ok(uuid),
            Err(error) => Err(error),
        }
    }

    /// Creates a document: a fresh id, the time of the call as its creation
    /// time, no content yet. Returns the id.
    ///
    /// The outcome is that of adding the document under the id and the time
    /// that were drawn: the call fails, with `StoreError`, only where the
    /// store already holds the id, and so never on a store without documents.
    pub fn create_document(&mut self, name: &str) -> (result: Result<String, VersionError>)
        requires
            old(self).wf(),
        ensures
            final(self).wf(),
            final(self)@.cache == old(self)@.cache,
            final(self)@.store.patches == old(self)@.store.patches,
            stays_true(old(self)@, final(self)@),
            exists|uuid: Seq<char>, created_at: i64|
                {
                    &&& text_view(result) == (#[trigger] addition(
                        old(self)@,
                        uuid,
                        name@,
                        created_at,
                    )).result
                    &&& final(self)@ == addition(old(self)@, uuid, name@, created_at).after
                },
    {
        let uuid = fresh_uuid();
        let created_at = now_millis();
        let ghost drawn = uuid@;
        let result = self.add_document(uuid, name, created_at);
        assert(text_view(result) == addition(old(self)@, drawn, name@, created_at).result);
        result
    }

    /// Commits new content for a document at a time, under a given id for the
    /// new patch, and returns the id.
    ///
    /// The commit fails with `DecodeError` where the document, or a candidate
    /// base, cannot be reconstructed; with `NoChange` where the content equals
    /// the document as of that time; with `StoreError` where the id is taken;
    /// with `NotFound` where the store holds no such document. A failed
    /// commit leaves the store as it is.
    pub fn commit_patch(
        &mut self,
        document_uuid: &str,
        new_content: &[u8],
        timestamp: i64,
        patch_uuid: String,
    ) -> (result: Result<String, VersionError>)
        requires
            old(self).wf(),
        ensures
            final(self).wf(),
            text_view(result) == commit(
                old(self)@,
                document_uuid@,
                new_content@,
                timestamp,
                patch_uuid@,
            ).result,
            final(self)@ == commit(
                old(self)@,
                document_uuid@,
                new_content@,
                timestamp,
                patch_uuid@,
            ).after,
            result is Ok ==> sound_choice(old(self)@, document_uuid@, new_content@, timestamp),
            result is Err ==> stays_true(old(self)@, final(self)@),
            result is Ok ==> others_left_alone(old(self)@, final(self)@, document_uuid@),
            result is Ok ==> no_candidate_shorter(
                version_replay(
                    old(self)@.cache,
                    old(self)@.store.patches,
                    document_uuid@,
                    timestamp,
                ).cache,
                old(self)@.store.patches,
                document_uuid@,
                timestamp,
                new_content@,
                BASE_WINDOW as nat,
                true,
                select_base(
                    version_replay(
                        old(self)@.cache,
                        old(self)@.store.patches,
                        document_uuid@,
                        timestamp,
                    ).cache,
                    old(self)@.store.patches,
                    document_uuid@,
                    timestamp,
                    new_content@,
                    BASE_WINDOW as nat,
                    true,
                ).delta,
            ),
    {
        proof {
            let patches = self@.store.patches;
            let current = version_replay(self@.cache, patches, document_uuid@, timestamp);
            lemma_read_keeps_coherent(self@.cache, patches, document_uuid@, timestamp);
            lemma_select_keeps_coherent(
                current.cache,
                patches,
                document_uuid@,
                timestamp,
                new_content@,
                BASE_WINDOW as nat,
                true,
            );
            let chosen = select_base(
                current.cache,
                patches,
                document_uuid@,
                timestamp,
                new_content@,
                BASE_WINDOW as nat,
                true,
            );
            assert forall|other: Seq<char>| coherent_for(self@.cache, patches, other) implies #[trigger]
                coherent_for(chosen.cache, patches, other) by {
                assert(coherent_for(current.cache, patches, other));
            }
        }
        let history = self.store.query_patches_upto(document_uuid, timestamp);
        let current = match reconstruct(&mut self.cache, document_uuid, &history) {
            Ok(current) => current,
            Err(error) => {
                proof {
                    lemma_stays_true(old(self)@, self@);
                }
                return Err(VersionError::DecodeError);
            },
        };
        if bytes_equal(current.as_slice(), new_content) {
            proof {
                lemma_stays_true(old(self)@, self@);
            }
            return Err(VersionError::NoChange);
        }
        let (_tag, delta) = match find_optimal_base(
            &self.store,
            &mut self.cache,
            document_uuid,
            timestamp,
            new_content,
            BASE_WINDOW,
            true,
        ) {
            Ok(chosen) => chosen,
            Err(error) => {
                proof {
                    lemma_stays_true(old(self)@, self@);
                }
                return Err(VersionError::DecodeError);
            },
        };
        let patch = Patch {
            uuid: patch_uuid.clone(),
            document_uuid: document_uuid.to_owned(),
            timestamp,
            delta: Some(Delta::from_stored(delta)),
        };
        assert(patch@ == committed_patch(patch_uuid@, document_uuid@, timestamp, delta@));
        match self.store.insert_patch(patch) {
            Ok(()) => {},
            Err(error) => {
                proof {
                    lemma_stays_true(old(self)@, self@);
                }
                return Err(error);
            },
        }
        let mut content: Vec<u8> = Vec::new();
        content.extend_from_slice(new_content);
        assert(content@ =~= new_content@);
        self.cache.put(document_uuid, patch_uuid.as_str(), content);
        proof {
            lemma_commit_others(old(self)@, document_uuid@, new_content@, timestamp, patch_uuid@);
        }
        Ok(patch_uuid)
    }

    /// Commits new content for a document at a time and returns the id of
    /// the new patch, which is fresh.
    ///
    /// Content equal to the document as of that time is refused with
    /// `NoChange`, and the store stays as it is. A commit on a document in
    /// order, at a time after all of its history, leaves it in order with
    /// the new content as its last version.
    pub fn create_patch(&mut self, document_uuid: &str, new_content: &[u8], timestamp: i64) -> (result:
        Result<String, VersionError>)
        requires
            old(self).wf(),
        ensures
            final(self).wf(),
            exists|patch_uuid: Seq<char>|
                {
                    &&& text_view(result) == (#[trigger] commit(
                        old(self)@,
                        document_uuid@,
                        new_content@,
                        timestamp,
                        patch_uuid,
                    )).result
                    &&& final(self)@ == commit(
                        old(self)@,
                        document_uuid@,
                        new_content@,
                        timestamp,
                        patch_uuid,
                    ).after
                },
            replay_result(
                version_replay(
                    old(self)@.cache,
                    old(self)@.store.patches,
                    document_uuid@,
                    timestamp,
                ),
            ) == Ok::<Seq<u8>, VersionError>(new_content@) ==> result == Err::<
                String,
                VersionError,
            >(VersionError::NoChange) && final(self)@.store == old(self)@.store,
            old(self).coherent_for(document_uuid@) && content_at(
                old(self)@.store.patches,
                document_uuid@,
                timestamp,
            ) == Ok::<Seq<u8>, VersionError>(new_content@) ==> result == Err::<
                String,
                VersionError,
            >(VersionError::NoChange),
            result is Err ==> final(self)@.store == old(self)@.store && stays_true(
                old(self)@,
                final(self)@,
            ),
            result is Ok ==> committed_step(
                old(self)@,
                final(self)@,
                document_uuid@,
                new_content@,
                timestamp,
            ),
            result is Ok ==> others_left_alone(old(self)@, final(self)@, document_uuid@),
            result is Ok && in_order(old(self)@, document_uuid@) && all_before(
                history(old(self)@.store.patches, document_uuid@),
                timestamp,
            ) ==> committed_in_order(
                old(self)@,
                final(self)@,
                document_uuid@,
                new_content@,
                timestamp,
            ),
    {
        proof {
            if self.coherent_for(document_uuid@) {
                law_determinism(self@.cache, self@.store.patches, document_uuid@, timestamp);
            }
        }
        let patch_uuid = fresh_uuid();
        let ghost id = patch_uuid@;
        let result = self.commit_patch(document_uuid, new_content, timestamp, patch_uuid);
        proof {
            reveal(committed_step);
            assert(text_view(result) == commit(
                old(self)@,
                document_uuid@,
                new_content@,
                timestamp,
                id,
            ).result);
            if result is Ok && in_order(old(self)@, document_uuid@) && all_before(
                history(old(self)@.store.patches, document_uuid@),
                timestamp,
            ) {
                law_commit_in_order(old(self)@, document_uuid@, new_content@, timestamp, id);
            }
        }
        result
    }

    /// The content of a document as of a time, as bytes: the latest version
    /// at or before it, or the empty content where there is none.
    ///
    /// Whatever the cache holds, the same read made again returns the same
    /// and leaves the cache as this one leaves it. Where the cache remembers
    /// nothing false of the document, the result is what the store alone
    /// determines.
    pub fn load(&mut self, document_uuid: &str, timestamp: i64) -> (result: Result<
        Vec<u8>,
        VersionError,
    >)
        requires
            old(self).wf(),
        ensures
            final(self).wf(),
            final(self)@.store == old(self)@.store,
            final(self)@.cache == version_replay(
                old(self)@.cache,
                old(self)@.store.patches,
                document_uuid@,
                timestamp,
            ).cache,
            bytes_view(result) == replay_result(
                version_replay(
                    old(self)@.cache,
                    old(self)@.store.patches,
                    document_uuid@,
                    timestamp,
                ),
            ),
            version_replay(
                final(self)@.cache,
                final(self)@.store.patches,
                document_uuid@,
                timestamp,
            ).cache == final(self)@.cache,
            replay_result(
                version_replay(
                    final(self)@.cache,
                    final(self)@.store.patches,
                    document_uuid@,
                    timestamp,
                ),
            ) == bytes_view(result),
            old(self).coherent_for(document_uuid@) ==> bytes_view(result) == content_at(
                old(self)@.store.patches,
                document_uuid@,
                timestamp,
            ),
            stays_true(old(self)@, final(self)@),
    {
        proof {
            law_repeatable(self@.cache, self@.store.patches, document_uuid@, timestamp);
            if old(self).coherent_for(document_uuid@) {
                law_determinism(self@.cache, self@.store.patches, document_uuid@, timestamp);
            }
            lemma_read_keeps_coherent(self@.cache, self@.store.patches, document_uuid@, timestamp);
        }
        let history = self.store.query_patches_upto(document_uuid, timestamp);
        let result = reconstruct(&mut self.cache, document_uuid, &history);
        proof {
            lemma_stays_true(old(self)@, self@);
        }
        result
    }

    /// The content of a document as of a time, as text. Bytes that are not
    /// valid UTF-8 are reported as `EncodingError`. The same read made again
    /// returns the same, whatever the cache holds.
    pub fn load_document_at_timestamp(&mut self, document_uuid: &str, timestamp: i64) -> (result:
        Result<String, VersionError>)
        requires
            old(self).wf(),
        ensures
            final(self).wf(),
            final(self)@.store == old(self)@.store,
            final(self)@.cache == version_replay(
                old(self)@.cache,
                old(self)@.store.patches,
                document_uuid@,
                timestamp,
            ).cache,
            text_view(result) == as_text(
                replay_result(
                    version_replay(
                        old(self)@.cache,
                        old(self)@.store.patches,
                        document_uuid@,
                        timestamp,
                    ),
                ),
            ),
            version_replay(
                final(self)@.cache,
                final(self)@.store.patches,
                document_uuid@,
                timestamp,
            ).cache == final(self)@.cache,
            as_text(
                replay_result(
                    version_replay(
                        final(self)@.cache,
                        final(self)@.store.patches,
                        document_uuid@,
                        timestamp,
                    ),
                ),
            ) == text_view(result),
            old(self).coherent_for(document_uuid@) ==> text_view(result) == as_text(
                content_at(old(self)@.store.patches, document_uuid@, timestamp),
            ),
            stays_true(old(self)@, final(self)@),
    {
        match self.load(document_uuid, timestamp) {
            Ok(bytes) => match text_from_bytes(bytes) {
                Some(text) => Ok(text),
                None => Err(VersionError::EncodingError),
            },
            Err(error) => Err(error),
        }
    }

    /// The documents, newest first.
    pub fn get_documents(&self) -> (documents: Vec<Document>)
        ensures
            document_views(documents@) == self@.store.documents,
    {
        self.store.list_documents()
    }

    /// The timestamps of a document's patches, in ascending order.
    pub fn get_patch_timestamps(&self, document_uuid: &str) -> (found: Vec<i64>)
        ensures
            found@ == timestamps(self@.store.patches.filter(of_document(document_uuid@))),
    {
        self.store.list_patch_timestamps(document_uuid)
    }

    /// The statistics of a document. Every version is reconstructed, through
    /// the cache.
    pub fn get_document_stats(&mut self, document_uuid: &str) -> (result: Result<
        DocumentStats,
        VersionError,
    >)
        requires
            old(self).wf(),
        ensures
            final(self).wf(),
            final(self)@.store == old(self)@.store,
            final(self)@.cache == survey(old(self)@, document_uuid@).cache,
            result == survey(old(self)@, document_uuid@).result,
            stays_true(old(self)@, final(self)@),
    {
        let (total_patches, total_delta_bytes) = match self.store.aggregate_patch_stats(
            document_uuid,
        ) {
            Ok(totals) => totals,
            Err(error) => {
                proof {
                    lemma_stays_true(old(self)@, self@);
                }
                return Err(VersionError::StoreError);
            },
        };
        let stamps = self.store.list_patch_timestamps(document_uuid);
        let ghost start = self@.cache;
        let ghost patches = self@.store.patches;
        let ghost document = document_uuid@;
        let mut total: u64 = 0;
        let mut fits: bool = true;
        let mut index: usize = 0;
        proof {
            lemma_stays_true(old(self)@, self@);
        }
        while index < stamps.len()
            invariant
                index <= stamps.len(),
                self.wf(),
                self@.store == old(self)@.store,
                stays_true(old(self)@, self@),
                start == old(self)@.cache,
                patches == self@.store.patches,
                document == document_uuid@,
                stamps@ == timestamps(patches.filter(of_document(document))),
                patches.filter(of_document(document)).len() <= i64::MAX,
                delta_total(patches.filter(of_document(document))) <= i64::MAX,
                tally(start, patches, document, stamps@, index as nat).ok,
                self@.cache == tally(start, patches, document, stamps@, index as nat).cache,
                fits ==> total == tally(start, patches, document, stamps@, index as nat).total,
                !fits ==> tally(start, patches, document, stamps@, index as nat).total > i64::MAX,
                total <= i64::MAX,
            decreases stamps.len() - index,
        {
            let content = match self.load(document_uuid, stamps[index]) {
                Ok(content) => content,
                Err(error) => {
                    proof {
                        assert(!tally(start, patches, document, stamps@, (index + 1) as nat).ok);
                        lemma_tally_stopped(
                            start,
                            patches,
                            document,
                            stamps@,
                            (index + 1) as nat,
                            stamps.len() as nat,
                        );
                    }
                    return Err(VersionError::DecodeError);
                },
            };
            let size: u64 = content.len() as u64;
            if fits && size <= 0x7fff_ffff_ffff_ffff - total {
                total = total + size;
            } else {
                fits = false;
            }
            index = index + 1;
        }
        if !fits {
            return Err(VersionError::StoreError);
        }
        Ok(
            DocumentStats {
                total_patches,
                total_delta_bytes,
                total_uncompressed_bytes: total as i64,
            },
        )
    }

    /// Forgets every remembered content. The store stays as it is.
    pub fn clear_cache(&mut self)
        ensures
            final(self)@.store == old(self)@.store,
            final(self)@.cache == Map::<(Seq<char>, Seq<char>), Seq<u8>>::empty(),
            forall|document_uuid: Seq<char>| #[trigger] final(self).coherent_for(document_uuid),
            stays_true(old(self)@, final(self)@),
    {
        self.cache.clear();
        proof {
            lemma_stays_true(old(self)@, self@);
        }
    }
}

} // verus!

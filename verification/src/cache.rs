//! Reconstructed contents, remembered per document and patch.

use vstd::prelude::*;

verus! {

/// One remembered content.
struct CacheEntry {
    document_uuid: String,
    patch_uuid: String,
    content: Vec<u8>,
}

/// The key of a remembered content: the document and the patch, by their ids.
pub type CacheKey = (Seq<char>, Seq<char>);

/// What a cache holds, as a map from keys to contents.
pub type CacheView = Map<(Seq<char>, Seq<char>), Seq<u8>>;

/// A memo of reconstructed contents. Nothing is ever evicted; `clear` empties it.
pub struct VersionCache {
    entries: Vec<CacheEntry>,
}

/// The index of the first of `entries` with the given key, or -1.
spec fn first_index(entries: Seq<CacheEntry>, key: CacheKey) -> int
    decreases entries.len(),
{
    if entries.len() == 0 {
        -1
    } else {
        let earlier = first_index(entries.drop_last(), key);
        if earlier >= 0 {
            earlier
        } else if entry_key(entries.last()) == key {
            entries.len() - 1
        } else {
            -1
        }
    }
}

spec fn entry_key(entry: CacheEntry) -> CacheKey {
    (entry.document_uuid@, entry.patch_uuid@)
}

proof fn lemma_first_index_bounds(entries: Seq<CacheEntry>, key: CacheKey)
    ensures
        -1 <= first_index(entries, key) < entries.len(),
        first_index(entries, key) >= 0 ==> entry_key(entries[first_index(entries, key)]) == key,
        first_index(entries, key) >= 0 ==> forall|j: int|
            0 <= j < first_index(entries, key) ==> entry_key(#[trigger] entries[j]) != key,
        first_index(entries, key) < 0 ==> forall|j: int|
            0 <= j < entries.len() ==> entry_key(#[trigger] entries[j]) != key,
    decreases entries.len(),
{
    if entries.len() > 0 {
        let front = entries.drop_last();
        lemma_first_index_bounds(front, key);
        assert forall|j: int| 0 <= j < front.len() implies #[trigger] entries[j] == front[j] by {}
    }
}

/// The first index is fixed by the keys in front of it.
proof fn lemma_first_index_is(entries: Seq<CacheEntry>, key: CacheKey, i: int)
    requires
        0 <= i < entries.len(),
        entry_key(entries[i]) == key,
        forall|j: int| 0 <= j < i ==> entry_key(#[trigger] entries[j]) != key,
    ensures
        first_index(entries, key) == i,
{
    lemma_first_index_bounds(entries, key);
}

impl View for VersionCache {
    type V = CacheView;

    closed spec fn view(&self) -> CacheView {
        Map::new(
            |key: CacheKey| first_index(self.entries@, key) >= 0,
            |key: CacheKey| self.entries@[first_index(self.entries@, key)].content@,
        )
    }
}

impl VersionCache {
    /// An empty cache.
    pub fn new() -> (cache: VersionCache)
        ensures
            cache@ == Map::<CacheKey, Seq<u8>>::empty(),
    {
        let cache = VersionCache { entries: Vec::new() };
        assert(cache@ =~= Map::<CacheKey, Seq<u8>>::empty());
        cache
    }

    /// The position of the entry for a key, if there is one.
    fn position(&self, document_uuid: &String, patch_uuid: &String) -> (found: Option<usize>)
        ensures
            found is Some <==> self@.contains_key((document_uuid@, patch_uuid@)),
            found matches Some(i) ==> i < self.entries@.len() && i == first_index(
                self.entries@,
                (document_uuid@, patch_uuid@),
            ),
    {
        let ghost key = (document_uuid@, patch_uuid@);
        let mut i: usize = 0;
        while i < self.entries.len()
            invariant
                i <= self.entries.len(),
                key == (document_uuid@, patch_uuid@),
                forall|j: int| 0 <= j < i ==> entry_key(#[trigger] self.entries@[j]) != key,
            decreases self.entries.len() - i,
        {
            if self.entries[i].document_uuid == *document_uuid && self.entries[i].patch_uuid
                == *patch_uuid {
                proof {
                    lemma_first_index_is(self.entries@, key, i as int);
                }
                return Some(i);
            }
            i = i + 1;
        }
        proof {
            lemma_first_index_bounds(self.entries@, key);
        }
        None
    }

    /// The content remembered for a patch of a document, if any.
    pub fn get(&self, document_uuid: &str, patch_uuid: &str) -> (content: Option<Vec<u8>>)
        ensures
            content is Some <==> self@.contains_key((document_uuid@, patch_uuid@)),
            content matches Some(bytes) ==> bytes@ == self@[(document_uuid@, patch_uuid@)],
    {
        let document: String = document_uuid.to_owned();
        let patch: String = patch_uuid.to_owned();
        match self.position(&document, &patch) {
            Some(i) => Some(self.entries[i].content.clone()),
            None => None,
        }
    }

    /// Remembers a content for a patch of a document, in place of any earlier one.
    pub fn put(&mut self, document_uuid: &str, patch_uuid: &str, content: Vec<u8>)
        ensures
            final(self)@ == old(self)@.insert((document_uuid@, patch_uuid@), content@),
    {
        let ghost key = (document_uuid@, patch_uuid@);
        let ghost before = self.entries@;
        let entry = CacheEntry {
            document_uuid: document_uuid.to_owned(),
            patch_uuid: patch_uuid.to_owned(),
            content,
        };
        assert(entry_key(entry) == key);
        match self.position(&entry.document_uuid, &entry.patch_uuid) {
            Some(i) => {
                self.entries.set(i, entry);
                proof {
                    let after = self.entries@;
                    lemma_first_index_bounds(before, key);
                    assert forall|j: int| 0 <= j < before.len() implies entry_key(
                        #[trigger] after[j],
                    ) == entry_key(before[j]) by {}
                    assert forall|other: CacheKey| #[trigger]
                        first_index(after, other) == first_index(before, other) by {
                        lemma_first_index_bounds(before, other);
                        if first_index(before, other) >= 0 {
                            lemma_first_index_is(after, other, first_index(before, other));
                        } else {
                            lemma_first_index_bounds(after, other);
                        }
                    }
                    assert(after[i as int].content@ == content@);
                    assert forall|other: CacheKey|
                        other != key && first_index(before, other) >= 0 implies after[first_index(
                            before,
                            other,
                        )] == before[first_index(before, other)] by {
                        lemma_first_index_bounds(before, other);
                    }
                    assert(self@ =~= old(self)@.insert(key, content@));
                }
            },
            None => {
                self.entries.push(entry);
                proof {
                    let after = self.entries@;
                    assert(after.drop_last() =~= before);
                    assert forall|other: CacheKey| #[trigger]
                        first_index(after, other) == (if first_index(before, other) >= 0 {
                            first_index(before, other)
                        } else if other == key {
                            before.len() as int
                        } else {
                            -1
                        }) by {
                        lemma_first_index_bounds(before, other);
                    }
                    assert forall|other: CacheKey|
                        first_index(before, other) >= 0 implies after[first_index(before, other)]
                        == before[first_index(before, other)] by {
                        lemma_first_index_bounds(before, other);
                    }
                    assert(self@ =~= old(self)@.insert(key, content@));
                }
            },
        }
    }

    /// Forgets everything.
    pub fn clear(&mut self)
        ensures
            final(self)@ == Map::<CacheKey, Seq<u8>>::empty(),
    {
        self.entries.clear();
        assert(self@ =~= Map::<CacheKey, Seq<u8>>::empty());
    }
}

} // verus!

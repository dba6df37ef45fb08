use doc_versions::cache::VersionCache;
use doc_versions::chain::{base_for, reconstruct};
use doc_versions::codec::Delta;
use doc_versions::model::{bytes_equal, clone_document, clone_patch, Document, DocumentStats, Patch, VersionError};
use doc_versions::select::{find_optimal_base, prefers};
use doc_versions::store::PatchStore;

fn patch(uuid: &str, document: &str, timestamp: i64, delta: Option<Vec<u8>>) -> Patch {
    Patch {
        uuid: uuid.to_string(),
        document_uuid: document.to_string(),
        timestamp,
        delta: delta.map(Delta::from_stored),
    }
}

fn document(uuid: &str, name: &str, created_at: i64) -> Document {
    Document { uuid: uuid.to_string(), name: name.to_string(), created_at }
}

#[test]
fn the_cache_gets_what_was_put_and_nothing_after_clear() {
    let mut cache = VersionCache::new();
    assert_eq!(cache.get("doc", "one"), None);
    cache.put("doc", "one", b"1".to_vec());
    cache.put("doc", "two", b"2".to_vec());
    cache.put("other", "one", b"3".to_vec());
    assert_eq!(cache.get("doc", "one"), Some(b"1".to_vec()));
    assert_eq!(cache.get("doc", "two"), Some(b"2".to_vec()));
    assert_eq!(cache.get("other", "one"), Some(b"3".to_vec()));
    assert_eq!(cache.get("one", "doc"), None);
    cache.put("doc", "one", b"4".to_vec());
    assert_eq!(cache.get("doc", "one"), Some(b"4".to_vec()));
    assert_eq!(cache.get("doc", "two"), Some(b"2".to_vec()));
    cache.clear();
    assert_eq!(cache.get("doc", "one"), None);
    assert_eq!(cache.get("other", "one"), None);
}

#[test]
fn no_patches_reconstruct_to_the_empty_content() {
    let mut cache = VersionCache::new();
    assert_eq!(reconstruct(&mut cache, "doc", &vec![]), Ok(vec![]));
}

#[test]
fn a_patch_without_a_delta_equals_its_base() {
    let mut cache = VersionCache::new();
    let hello = xpatch::encode(0, b"", b"hello", true);
    let patches = vec![
        patch("one", "doc", 1, None),
        patch("two", "doc", 2, Some(hello)),
        patch("three", "doc", 3, None),
    ];
    assert_eq!(reconstruct(&mut cache, "doc", &vec![clone_patch(&patches[0])]), Ok(vec![]));
    assert_eq!(reconstruct(&mut cache, "doc", &patches), Ok(b"hello".to_vec()));
    assert_eq!(cache.get("doc", "one"), Some(vec![]));
    assert_eq!(cache.get("doc", "two"), Some(b"hello".to_vec()));
    assert_eq!(cache.get("doc", "three"), Some(b"hello".to_vec()));
}

#[test]
fn a_tag_counts_versions_back_and_runs_out_into_the_empty_content() {
    let mut cache = VersionCache::new();
    let patches = vec![
        patch("one", "doc", 1, Some(xpatch::encode(0, b"", b"abc", false))),
        patch("two", "doc", 2, Some(xpatch::encode(0, b"abc", b"abcdef", false))),
        patch("three", "doc", 3, Some(xpatch::encode(1, b"abc", b"abcxyz", false))),
        patch("four", "doc", 4, Some(xpatch::encode(7, b"", b"fresh", false))),
        patch("five", "doc", 5, Some(xpatch::encode(20, b"", b"far back", false))),
    ];
    assert_eq!(reconstruct(&mut cache, "doc", &patches), Ok(b"far back".to_vec()));
    assert_eq!(cache.get("doc", "one"), Some(b"abc".to_vec()));
    assert_eq!(cache.get("doc", "two"), Some(b"abcdef".to_vec()));
    assert_eq!(cache.get("doc", "three"), Some(b"abcxyz".to_vec()));
    assert_eq!(cache.get("doc", "four"), Some(b"fresh".to_vec()));
}

#[test]
fn patches_of_one_timestamp_count_from_the_first_of_them() {
    let mut cache = VersionCache::new();
    let patches = vec![
        patch("one", "doc", 1, Some(xpatch::encode(0, b"", b"before", false))),
        patch("two", "doc", 2, Some(xpatch::encode(0, b"before", b"before, then", false))),
        patch("three", "doc", 2, Some(xpatch::encode(0, b"before", b"before, again", false))),
        patch("four", "doc", 2, Some(xpatch::encode(1, b"", b"from nothing", false))),
        patch("five", "doc", 3, Some(xpatch::encode(0, b"from nothing", b"from nothing, on", false))),
        patch("six", "doc", 4, Some(xpatch::encode(3, b"from nothing", b"from nothing, still", false))),
        patch("seven", "doc", 4, Some(xpatch::encode(4, b"before", b"before, at last", false))),
    ];
    assert_eq!(reconstruct(&mut cache, "doc", &patches), Ok(b"before, at last".to_vec()));
    assert_eq!(cache.get("doc", "two"), Some(b"before, then".to_vec()));
    assert_eq!(cache.get("doc", "three"), Some(b"before, again".to_vec()));
    assert_eq!(cache.get("doc", "four"), Some(b"from nothing".to_vec()));
    assert_eq!(cache.get("doc", "five"), Some(b"from nothing, on".to_vec()));
    assert_eq!(cache.get("doc", "six"), Some(b"from nothing, still".to_vec()));
}

#[test]
fn a_remembered_content_is_taken_as_it_is() {
    let mut cache = VersionCache::new();
    cache.put("doc", "one", b"remembered".to_vec());
    let patches = vec![
        patch("one", "doc", 1, Some(xpatch::encode(0, b"", b"stored", false))),
        patch("two", "doc", 2, Some(xpatch::encode(0, b"remembered", b"remembered!", false))),
    ];
    assert_eq!(reconstruct(&mut cache, "doc", &patches), Ok(b"remembered!".to_vec()));
    assert_eq!(cache.get("doc", "one"), Some(b"remembered".to_vec()));
}

#[test]
fn a_delta_that_does_not_fit_stops_the_replay_and_keeps_what_was_resolved() {
    let mut cache = VersionCache::new();
    let patches = vec![
        patch("one", "doc", 1, Some(xpatch::encode(0, b"", b"q", false))),
        patch("two", "doc", 2, Some(xpatch::encode(0, b"0123456789", b"01234", false))),
        patch("three", "doc", 3, Some(xpatch::encode(0, b"", b"never reached", false))),
    ];
    assert_eq!(reconstruct(&mut cache, "doc", &patches), Err(VersionError::DecodeError));
    assert_eq!(cache.get("doc", "one"), Some(b"q".to_vec()));
    assert_eq!(cache.get("doc", "two"), None);
    assert_eq!(cache.get("doc", "three"), None);
}

#[test]
fn the_store_lists_in_order() {
    let mut store = PatchStore::new();
    assert_eq!(store.insert_document(document("a", "A", 10)), Ok(()));
    assert_eq!(store.insert_document(document("b", "B", 30)), Ok(()));
    assert_eq!(store.insert_document(document("c", "C", 20)), Ok(()));
    assert_eq!(store.insert_document(document("a", "again", 40)), Err(VersionError::StoreError));
    let listed: Vec<String> = store.list_documents().into_iter().map(|d| d.uuid).collect();
    assert_eq!(listed, vec!["b", "c", "a"]);
    assert!(store.contains_document("c"));
    assert!(!store.contains_document("d"));

    assert_eq!(store.insert_patch(patch("late", "a", 30, None)), Ok(()));
    assert_eq!(store.insert_patch(patch("early", "a", 10, None)), Ok(()));
    assert_eq!(store.insert_patch(patch("elsewhere", "b", 20, None)), Ok(()));
    assert_eq!(store.insert_patch(patch("middle", "a", 20, None)), Ok(()));
    assert_eq!(store.insert_patch(patch("middle again", "a", 20, None)), Ok(()));
    assert_eq!(store.insert_patch(patch("middle", "a", 50, None)), Err(VersionError::StoreError));
    assert_eq!(store.insert_patch(patch("stray", "nobody", 50, None)), Err(VersionError::NotFound));
    assert!(store.contains_patch("middle again"));
    assert!(!store.contains_patch("stray"));
    assert_eq!(store.find_patch("late").unwrap().timestamp, 30);
    assert!(store.find_patch("stray").is_none());

    assert_eq!(store.list_patch_timestamps("a"), vec![10, 20, 20, 30]);
    assert_eq!(store.list_patch_timestamps("b"), vec![20]);
    assert_eq!(store.list_patch_timestamps("c"), Vec::<i64>::new());
    let upto: Vec<String> = store.query_patches_upto("a", 20).into_iter().map(|p| p.uuid).collect();
    assert_eq!(upto, vec!["early", "middle", "middle again"]);
    assert_eq!(store.query_patches_upto("a", 9).len(), 0);
}

#[test]
fn recent_timestamps_are_distinct_descending_and_limited() {
    let mut store = PatchStore::new();
    store.insert_document(document("a", "A", 1)).unwrap();
    store.insert_document(document("b", "B", 2)).unwrap();
    for (i, t) in [10, 20, 20, 30, 40, 50].iter().enumerate() {
        store.insert_patch(patch(&format!("a-{}", i), "a", *t, None)).unwrap();
    }
    store.insert_patch(patch("b-0", "b", 35, None)).unwrap();
    assert_eq!(store.query_recent_patch_timestamps("a", 50, 16), vec![40, 30, 20, 10]);
    assert_eq!(store.query_recent_patch_timestamps("a", 51, 2), vec![50, 40]);
    assert_eq!(store.query_recent_patch_timestamps("a", 21, 16), vec![20, 10]);
    assert_eq!(store.query_recent_patch_timestamps("a", 10, 16), Vec::<i64>::new());
    assert_eq!(store.query_recent_patch_timestamps("a", 50, 0), Vec::<i64>::new());
    assert_eq!(store.query_recent_patch_timestamps("b", 50, 16), vec![35]);
}

#[test]
fn aggregate_counts_patches_and_delta_bytes() {
    let mut store = PatchStore::new();
    store.insert_document(document("a", "A", 1)).unwrap();
    store.insert_document(document("b", "B", 2)).unwrap();
    let hello = xpatch::encode(0, b"", b"hello", true);
    let world = xpatch::encode(0, b"hello", b"hello world", true);
    let expected = (hello.len() + world.len()) as i64;
    store.insert_patch(patch("one", "a", 1, None)).unwrap();
    store.insert_patch(patch("two", "a", 2, Some(hello))).unwrap();
    store.insert_patch(patch("three", "a", 3, Some(world))).unwrap();
    store.insert_patch(patch("four", "b", 3, Some(xpatch::encode(0, b"", b"other", true)))).unwrap();
    assert_eq!(store.aggregate_patch_stats("a"), Ok((3, expected)));
    assert_eq!(store.aggregate_patch_stats("c"), Ok((0, 0)));
}

#[test]
fn the_first_version_is_encoded_against_the_empty_content() {
    let mut store = PatchStore::new();
    store.insert_document(document("a", "A", 1)).unwrap();
    let mut cache = VersionCache::new();
    let (tag, delta) = find_optimal_base(&store, &mut cache, "a", 10, b"hello", 16, true).unwrap();
    assert_eq!(tag, 0);
    assert_eq!(delta, xpatch::encode(0, b"", b"hello", true));
    assert_eq!(xpatch::decode(b"", &delta).unwrap(), b"hello".to_vec());
}

#[test]
fn the_chosen_delta_is_no_longer_than_the_one_against_the_latest_version() {
    let mut store = PatchStore::new();
    store.insert_document(document("a", "A", 1)).unwrap();
    let opening = b"a long opening version that a later one will extend by a little".to_vec();
    let detour = b"zz".to_vec();
    let mut sequel = opening.clone();
    sequel.extend_from_slice(b"!");
    store.insert_patch(patch("one", "a", 1, Some(xpatch::encode(0, b"", &opening, true)))).unwrap();
    store.insert_patch(patch("two", "a", 2, Some(xpatch::encode(0, &opening, &detour, true)))).unwrap();
    let mut cache = VersionCache::new();
    let (tag, delta) = find_optimal_base(&store, &mut cache, "a", 3, &sequel, 16, true).unwrap();
    let against_latest = xpatch::encode(0, &detour, &sequel, true);
    let against_opening = xpatch::encode(1, &opening, &sequel, true);
    assert!(delta.len() <= against_latest.len());
    assert!(delta.len() <= against_opening.len());
    assert_eq!(tag, 1);
    assert_eq!(delta, against_opening);
    assert_eq!(xpatch::get_tag(&delta), Ok(1));

    let (narrow_tag, narrow) = find_optimal_base(&store, &mut cache, "a", 3, &sequel, 1, true).unwrap();
    assert_eq!(narrow_tag, 0);
    assert_eq!(narrow, against_latest);
}

#[test]
fn among_equal_deltas_the_latest_version_wins() {
    let mut store = PatchStore::new();
    store.insert_document(document("a", "A", 1)).unwrap();
    store.insert_patch(patch("one", "a", 1, Some(xpatch::encode(0, b"", b"same", true)))).unwrap();
    store.insert_patch(patch("two", "a", 2, None)).unwrap();
    let mut cache = VersionCache::new();
    let (tag, delta) = find_optimal_base(&store, &mut cache, "a", 3, b"same!", 16, true).unwrap();
    assert_eq!(tag, 0);
    assert_eq!(delta, xpatch::encode(0, b"same", b"same!", true));
}

#[test]
fn a_candidate_that_cannot_be_reconstructed_ends_the_search() {
    let mut store = PatchStore::new();
    store.insert_document(document("a", "A", 1)).unwrap();
    store.insert_patch(patch("one", "a", 1, Some(xpatch::encode(0, b"", b"q", false)))).unwrap();
    store.insert_patch(patch("two", "a", 2, Some(xpatch::encode(0, b"0123456789", b"01234", false)))).unwrap();
    let mut cache = VersionCache::new();
    assert_eq!(
        find_optimal_base(&store, &mut cache, "a", 3, b"new", 16, true),
        Err(VersionError::DecodeError)
    );
    assert_eq!(
        find_optimal_base(&store, &mut cache, "a", 2, b"new", 16, true).map(|(tag, _)| tag),
        Ok(0)
    );
}

#[test]
fn bytes_compare_by_content() {
    assert!(bytes_equal(b"", b""));
    assert!(bytes_equal(b"abc", b"abc"));
    assert!(!bytes_equal(b"abc", b"abd"));
    assert!(!bytes_equal(b"abc", b"abcd"));
}

#[test]
fn the_ratio_is_uncompressed_over_stored_or_one() {
    let stats = DocumentStats { total_patches: 3, total_delta_bytes: 40, total_uncompressed_bytes: 100 };
    assert_eq!(stats.compression_ratio_terms(), (100, 40));
    let (n, d) = stats.compression_ratio_terms();
    assert_eq!(n as f64 / d as f64, 2.5);
    let nothing = DocumentStats { total_patches: 1, total_delta_bytes: 0, total_uncompressed_bytes: 0 };
    assert_eq!(nothing.compression_ratio_terms(), (1, 1));
}

#[test]
fn copies_hold_what_their_source_holds() {
    let bytes = xpatch::encode(3, b"base", b"base and more", true);
    let delta = Delta::from_stored(bytes.clone());
    assert_eq!(delta.as_bytes(), &bytes);
    assert_eq!(delta.duplicate().as_bytes(), &bytes);
    let copy = clone_patch(&patch("one", "doc", 7, Some(bytes.clone())));
    assert_eq!(copy.uuid, "one");
    assert_eq!(copy.document_uuid, "doc");
    assert_eq!(copy.timestamp, 7);
    assert_eq!(copy.delta.unwrap().as_bytes(), &bytes);
    let twin = clone_document(&document("a", "A", 9));
    assert_eq!((twin.uuid.as_str(), twin.name.as_str(), twin.created_at), ("a", "A", 9));
}

#[test]
fn the_base_of_a_patch_stands_tag_and_one_positions_back() {
    let patches = vec![
        patch("one", "doc", 10, None),
        patch("two", "doc", 20, None),
        patch("three", "doc", 20, None),
        patch("four", "doc", 30, None),
        patch("five", "doc", 30, None),
    ];
    let resolved: Vec<Vec<u8>> = vec![b"1".to_vec(), b"2".to_vec(), b"3".to_vec(), b"4".to_vec()];
    assert_eq!(base_for(&patches, &resolved[..3].to_vec(), 3, 0), b"3".to_vec());
    assert_eq!(base_for(&patches, &resolved[..3].to_vec(), 3, 1), b"3".to_vec());
    assert_eq!(base_for(&patches, &resolved[..3].to_vec(), 3, 2), b"1".to_vec());
    assert_eq!(base_for(&patches, &resolved[..3].to_vec(), 3, 3), Vec::<u8>::new());
    assert_eq!(base_for(&patches, &resolved, 4, 0), b"3".to_vec());
    assert_eq!(base_for(&patches, &resolved, 4, 2), b"1".to_vec());
    assert_eq!(base_for(&patches, &resolved[..2].to_vec(), 2, 0), b"1".to_vec());
    assert_eq!(base_for(&patches, &resolved[..1].to_vec(), 1, 0), b"1".to_vec());
    assert_eq!(base_for(&patches, &Vec::new(), 0, 0), Vec::<u8>::new());
    assert_eq!(base_for(&patches, &resolved, 4, usize::MAX), Vec::<u8>::new());
}

#[test]
fn the_first_delta_is_kept_and_later_ones_only_if_shorter() {
    assert!(prefers(0, b"a long delta", b""));
    assert!(prefers(1, b"ab", b"abc"));
    assert!(!prefers(1, b"abc", b"abc"));
    assert!(!prefers(2, b"abcd", b"abc"));
}

use doc_versions::model::VersionError;
use doc_versions::versions::VersionStore;

fn text(versions: &mut VersionStore, document: &str, timestamp: i64) -> String {
    versions.load_document_at_timestamp(document, timestamp).unwrap()
}

#[test]
fn two_commits_then_reads_stats_and_no_change() {
    let mut versions = VersionStore::new();
    let d = versions.create_document("A").unwrap();
    let first = versions.create_patch(&d, b"hello", 100).unwrap();
    let second = versions.create_patch(&d, b"hello world", 200).unwrap();
    assert_ne!(first, second);
    assert_eq!(text(&mut versions, &d, 150), "hello");
    assert_eq!(text(&mut versions, &d, 250), "hello world");
    assert_eq!(versions.get_document_stats(&d).unwrap().total_patches, 2);
    assert_eq!(
        versions.create_patch(&d, b"hello world", 300),
        Err(VersionError::NoChange)
    );
}

#[test]
fn reads_before_the_first_commit_are_empty() {
    let mut versions = VersionStore::new();
    let d = versions.create_document("A").unwrap();
    versions.create_patch(&d, b"hello", 100).unwrap();
    assert_eq!(text(&mut versions, &d, 99), "");
    assert_eq!(text(&mut versions, &d, 100), "hello");
    assert_eq!(text(&mut versions, "no such document", 100), "");
}

#[test]
fn repeated_reads_agree_with_and_without_the_cache() {
    let mut versions = VersionStore::new();
    let d = versions.create_document("A").unwrap();
    versions.create_patch(&d, b"one", 10).unwrap();
    versions.create_patch(&d, b"one two", 20).unwrap();
    versions.create_patch(&d, b"one two three", 30).unwrap();
    let warm = versions.load(&d, 25).unwrap();
    let again = versions.load(&d, 25).unwrap();
    versions.clear_cache();
    let cold = versions.load(&d, 25).unwrap();
    assert_eq!(warm, b"one two".to_vec());
    assert_eq!(again, warm);
    assert_eq!(cold, warm);
}

#[test]
fn clearing_the_cache_changes_no_read() {
    let mut kept = VersionStore::new();
    let mut cleared = VersionStore::new();
    let k = kept.create_document("A").unwrap();
    let c = cleared.create_document("A").unwrap();
    let contents: [&[u8]; 4] = [b"alpha", b"alpha beta", b"beta", b"beta gamma delta"];
    for (i, content) in contents.iter().enumerate() {
        kept.create_patch(&k, content, 10 * (i as i64 + 1)).unwrap();
        cleared.create_patch(&c, content, 10 * (i as i64 + 1)).unwrap();
    }
    cleared.clear_cache();
    for t in [5, 10, 15, 20, 25, 30, 35, 40, 45] {
        assert_eq!(kept.load(&k, t).unwrap(), cleared.load(&c, t).unwrap());
    }
}

#[test]
fn committing_the_current_content_is_refused_and_stores_nothing() {
    let mut versions = VersionStore::new();
    let d = versions.create_document("A").unwrap();
    versions.create_patch(&d, b"same", 100).unwrap();
    let before = versions.get_patch_timestamps(&d);
    assert_eq!(versions.create_patch(&d, b"same", 200), Err(VersionError::NoChange));
    assert_eq!(versions.create_patch(&d, b"same", 100), Err(VersionError::NoChange));
    assert_eq!(versions.get_patch_timestamps(&d), before);
    assert_eq!(versions.get_document_stats(&d).unwrap().total_patches, 1);
}

#[test]
fn committing_the_empty_content_first_is_refused() {
    let mut versions = VersionStore::new();
    let d = versions.create_document("A").unwrap();
    assert_eq!(versions.create_patch(&d, b"", 100), Err(VersionError::NoChange));
    assert_eq!(versions.get_patch_timestamps(&d), Vec::<i64>::new());
}

#[test]
fn every_commit_reads_back_at_and_after_its_time() {
    let mut versions = VersionStore::new();
    let d = versions.create_document("A").unwrap();
    let contents: Vec<Vec<u8>> = vec![
        b"The quick brown fox".to_vec(),
        b"The quick brown fox jumps".to_vec(),
        b"The quick fox jumps".to_vec(),
        b"A completely different line of text".to_vec(),
        b"The quick brown fox jumps over the lazy dog".to_vec(),
        b"".to_vec(),
        b"The quick brown fox jumps over the lazy dog!".to_vec(),
    ];
    for (k, content) in contents.iter().enumerate() {
        versions.create_patch(&d, content, 100 * (k as i64 + 1)).unwrap();
    }
    versions.clear_cache();
    for (k, content) in contents.iter().enumerate() {
        let t = 100 * (k as i64 + 1);
        assert_eq!(&versions.load(&d, t).unwrap(), content);
        assert_eq!(&versions.load(&d, t + 50).unwrap(), content);
    }
}

#[test]
fn a_base_further_back_is_found_again_by_its_tag() {
    let mut versions = VersionStore::new();
    let d = versions.create_document("A").unwrap();
    let long = b"a long opening version that the third one will extend by a little".to_vec();
    let mut third = long.clone();
    third.extend_from_slice(b"!");
    versions.create_patch(&d, &long, 1).unwrap();
    versions.create_patch(&d, b"zz", 2).unwrap();
    versions.create_patch(&d, &third, 3).unwrap();
    versions.clear_cache();
    assert_eq!(versions.load(&d, 3).unwrap(), third);
    assert_eq!(versions.load(&d, 2).unwrap(), b"zz".to_vec());
    assert_eq!(versions.load(&d, 1).unwrap(), long);
}

#[test]
fn documents_are_kept_apart() {
    let mut versions = VersionStore::new();
    let a = versions.create_document("A").unwrap();
    let b = versions.create_document("B").unwrap();
    assert_ne!(a, b);
    versions.create_patch(&a, b"in a", 10).unwrap();
    versions.create_patch(&b, b"in b", 10).unwrap();
    versions.create_patch(&a, b"in a, again", 20).unwrap();
    assert_eq!(text(&mut versions, &a, 20), "in a, again");
    assert_eq!(text(&mut versions, &b, 20), "in b");
    assert_eq!(versions.get_patch_timestamps(&a), vec![10, 20]);
    assert_eq!(versions.get_patch_timestamps(&b), vec![10]);
    let names: Vec<String> = versions.get_documents().into_iter().map(|d| d.name).collect();
    assert_eq!(names.len(), 2);
    assert!(names.contains(&"A".to_string()) && names.contains(&"B".to_string()));
}

#[test]
fn a_commit_for_an_unknown_document_is_not_found() {
    let mut versions = VersionStore::new();
    assert_eq!(
        versions.create_patch("no such document", b"text", 1),
        Err(VersionError::NotFound)
    );
    assert_eq!(versions.get_patch_timestamps("no such document"), Vec::<i64>::new());
}

#[test]
fn an_id_that_is_taken_is_a_store_error() {
    let mut versions = VersionStore::new();
    assert_eq!(versions.add_document("d".to_string(), "A", 5), Ok("d".to_string()));
    assert_eq!(
        versions.add_document("d".to_string(), "B", 6),
        Err(VersionError::StoreError)
    );
    assert_eq!(versions.get_documents().len(), 1);
    assert_eq!(
        versions.commit_patch("d", b"one", 10, "p".to_string()),
        Ok("p".to_string())
    );
    assert_eq!(
        versions.commit_patch("d", b"two", 20, "p".to_string()),
        Err(VersionError::StoreError)
    );
    assert_eq!(versions.get_patch_timestamps("d"), vec![10]);
}

#[test]
fn bytes_that_are_no_text_are_an_encoding_error() {
    let mut versions = VersionStore::new();
    let d = versions.create_document("A").unwrap();
    versions.create_patch(&d, &[0xff, 0xfe, 0x00], 10).unwrap();
    assert_eq!(versions.load(&d, 10).unwrap(), vec![0xff, 0xfe, 0x00]);
    assert_eq!(
        versions.load_document_at_timestamp(&d, 10),
        Err(VersionError::EncodingError)
    );
}

#[test]
fn a_commit_in_the_past_can_break_later_versions() {
    let mut versions = VersionStore::new();
    let d = versions.create_document("A").unwrap();
    versions.create_patch(&d, b"0123456789", 100).unwrap();
    versions.create_patch(&d, b"01234", 200).unwrap();
    versions.create_patch(&d, b"q", 150).unwrap();
    assert_eq!(versions.load(&d, 150).unwrap(), b"q".to_vec());
    versions.clear_cache();
    assert_eq!(versions.load(&d, 100).unwrap(), b"0123456789".to_vec());
    assert_eq!(versions.load(&d, 150).unwrap(), b"q".to_vec());
    assert_eq!(versions.load(&d, 200), Err(VersionError::DecodeError));
    assert_eq!(versions.get_document_stats(&d), Err(VersionError::DecodeError));
    assert_eq!(
        versions.create_patch(&d, b"anything", 300),
        Err(VersionError::DecodeError)
    );
}

#[test]
fn statistics_count_patches_deltas_and_contents() {
    let mut versions = VersionStore::new();
    let d = versions.create_document("A").unwrap();
    let empty = versions.get_document_stats(&d).unwrap();
    assert_eq!(
        (empty.total_patches, empty.total_delta_bytes, empty.total_uncompressed_bytes),
        (0, 0, 0)
    );
    assert_eq!(empty.compression_ratio_terms(), (1, 1));
    versions.create_patch(&d, b"hello", 100).unwrap();
    versions.create_patch(&d, b"hello world", 200).unwrap();
    let stats = versions.get_document_stats(&d).unwrap();
    assert_eq!(stats.total_patches, 2);
    assert_eq!(stats.total_uncompressed_bytes, 16);
    assert!(stats.total_delta_bytes > 0);
    assert_eq!(
        stats.compression_ratio_terms(),
        (16, stats.total_delta_bytes)
    );
    versions.clear_cache();
    assert_eq!(versions.get_document_stats(&d).unwrap(), stats);
}

#[test]
fn a_base_beyond_the_window_is_not_tried() {
    let mut versions = VersionStore::new();
    let d = versions.create_document("A").unwrap();
    let long = b"a long opening version that the last one will extend by a little".to_vec();
    let mut last = long.clone();
    last.extend_from_slice(b"!");
    versions.create_patch(&d, &long, 0).unwrap();
    for i in 0..16u8 {
        versions.create_patch(&d, &[b'a' + i], 1 + i as i64).unwrap();
    }
    let id = versions.create_patch(&d, &last, 100).unwrap();
    versions.clear_cache();
    assert_eq!(versions.load(&d, 100).unwrap(), last);
    let (store, _) = versions.into_parts();
    let stored = store.find_patch(&id).unwrap().delta.unwrap();
    let tag = xpatch::get_tag(stored.as_bytes()).unwrap();
    assert!(tag < 16);
    assert_eq!(store.query_recent_patch_timestamps(&d, 100, 16).len(), 16);
}

#[test]
fn a_base_within_the_window_is_found() {
    let mut versions = VersionStore::new();
    let d = versions.create_document("A").unwrap();
    let long = b"a long opening version that the last one will extend by a little".to_vec();
    let mut last = long.clone();
    last.extend_from_slice(b"!");
    versions.create_patch(&d, &long, 0).unwrap();
    for i in 0..15u8 {
        versions.create_patch(&d, &[b'a' + i], 1 + i as i64).unwrap();
    }
    let id = versions.create_patch(&d, &last, 100).unwrap();
    let (store, _) = versions.into_parts();
    let stored = store.find_patch(&id).unwrap().delta.unwrap();
    assert_eq!(xpatch::get_tag(stored.as_bytes()), Ok(15));
    assert_eq!(stored.as_bytes(), &xpatch::encode(15, &long, &last, true));
}

#[test]
fn a_new_document_gets_a_fresh_id_and_the_time_of_its_creation() {
    let mut versions = VersionStore::new();
    let a = versions.create_document("A").unwrap();
    let b = versions.create_document("B").unwrap();
    assert_ne!(a, b);
    assert_eq!(a.len(), 36);
    assert_eq!(a.matches('-').count(), 4);
    let documents = versions.get_documents();
    assert_eq!(documents.len(), 2);
    for document in &documents {
        assert!(document.created_at > 0);
        assert!(document.uuid == a || document.uuid == b);
        assert_eq!(document.name, if document.uuid == a { "A" } else { "B" });
    }
    assert!(documents[0].created_at >= documents[1].created_at);
}

#[test]
fn documents_are_listed_newest_first() {
    let mut versions = VersionStore::new();
    versions.add_document("old".to_string(), "Old", 10).unwrap();
    versions.add_document("new".to_string(), "New", 30).unwrap();
    versions.add_document("middle".to_string(), "Middle", 20).unwrap();
    let listed: Vec<String> = versions.get_documents().into_iter().map(|d| d.uuid).collect();
    assert_eq!(listed, vec!["new", "middle", "old"]);
}

#[test]
fn the_first_document_of_a_store_is_created_without_content() {
    let mut versions = VersionStore::new();
    let d = versions.create_document("A").unwrap();
    let documents = versions.get_documents();
    assert_eq!(documents.len(), 1);
    assert_eq!(documents[0].uuid, d);
    assert_eq!(documents[0].name, "A");
    assert_eq!(versions.get_patch_timestamps(&d), Vec::<i64>::new());
    assert_eq!(versions.load_document_at_timestamp(&d, 100), Ok(String::new()));
}

#[test]
fn a_read_made_again_returns_the_same_whatever_the_cache_holds() {
    let mut versions = VersionStore::new();
    let d = versions.create_document("A").unwrap();
    versions.create_patch(&d, b"0123456789", 100).unwrap();
    versions.create_patch(&d, b"01234", 200).unwrap();
    versions.create_patch(&d, b"q", 150).unwrap();
    for t in [50, 100, 150, 200, 250] {
        let once = versions.load_document_at_timestamp(&d, t);
        let again = versions.load_document_at_timestamp(&d, t);
        assert_eq!(once, again);
    }
    assert_eq!(text(&mut versions, &d, 200), "01234");
    versions.clear_cache();
    for t in [250, 200, 150, 100, 50] {
        let once = versions.load(&d, t);
        let again = versions.load(&d, t);
        assert_eq!(once, again);
    }
    assert_eq!(versions.load(&d, 200), Err(VersionError::DecodeError));
}

#[test]
fn a_commit_in_the_past_of_one_document_leaves_the_others_readable() {
    let mut versions = VersionStore::new();
    let a = versions.create_document("A").unwrap();
    let b = versions.create_document("B").unwrap();
    versions.create_patch(&b, b"steady", 10).unwrap();
    versions.create_patch(&a, b"0123456789", 100).unwrap();
    versions.create_patch(&b, b"steady on", 20).unwrap();
    versions.create_patch(&a, b"01234", 200).unwrap();
    versions.create_patch(&a, b"q", 150).unwrap();
    versions.create_patch(&b, b"steady on and on", 30).unwrap();
    let warm: Vec<Vec<u8>> = [10, 20, 30].iter().map(|t| versions.load(&b, *t).unwrap()).collect();
    versions.clear_cache();
    let cold: Vec<Vec<u8>> = [10, 20, 30].iter().map(|t| versions.load(&b, *t).unwrap()).collect();
    assert_eq!(warm, cold);
    assert_eq!(cold, vec![b"steady".to_vec(), b"steady on".to_vec(), b"steady on and on".to_vec()]);
}

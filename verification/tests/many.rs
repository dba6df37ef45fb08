use doc_versions::cache::VersionCache;
use doc_versions::chain::reconstruct;
use doc_versions::codec::Delta;
use doc_versions::model::{Patch, VersionError};
use doc_versions::versions::VersionStore;

/// A small generator of repeatable numbers.
struct Numbers(u64);

impl Numbers {
    fn next(&mut self) -> u64 {
        self.0 = self.0.wrapping_mul(6364136223846793005).wrapping_add(1442695040888963407);
        self.0 >> 33
    }

    fn below(&mut self, bound: usize) -> usize {
        (self.next() % bound as u64) as usize
    }
}

/// The next content: the last one with a stretch inserted, removed or
/// replaced, or something unrelated.
fn edit(numbers: &mut Numbers, last: &[u8]) -> Vec<u8> {
    let mut next = last.to_vec();
    match numbers.below(5) {
        0 => {
            let at = numbers.below(next.len() + 1);
            let stretch: Vec<u8> = (0..1 + numbers.below(40)).map(|_| b'a' + numbers.below(26) as u8).collect();
            next.splice(at..at, stretch);
        }
        1 if !next.is_empty() => {
            let from = numbers.below(next.len());
            let to = from + numbers.below(next.len() - from + 1);
            next.drain(from..to);
        }
        2 => {
            for _ in 0..1 + numbers.below(4) {
                if !next.is_empty() {
                    let at = numbers.below(next.len());
                    next[at] = numbers.below(256) as u8;
                }
            }
            next.push(numbers.below(256) as u8);
        }
        3 => {
            let word: Vec<u8> = (0..1 + numbers.below(6)).map(|_| b'a' + numbers.below(26) as u8).collect();
            for _ in 0..2 + numbers.below(30) {
                next.extend_from_slice(&word);
            }
        }
        _ => {
            next = (0..numbers.below(200)).map(|_| numbers.below(256) as u8).collect();
        }
    }
    next
}

#[test]
fn many_commits_in_order_read_back() {
    for seed in 1..=6u64 {
        let mut numbers = Numbers(seed);
        let mut versions = VersionStore::new();
        let d = versions.create_document("A").unwrap();
        let mut committed: Vec<(i64, Vec<u8>)> = Vec::new();
        let mut last: Vec<u8> = Vec::new();
        let mut time = 0i64;
        for _ in 0..40 {
            time += 1 + numbers.below(5) as i64;
            let next = edit(&mut numbers, &last);
            match versions.create_patch(&d, &next, time) {
                Ok(_) => {
                    committed.push((time, next.clone()));
                    last = next;
                }
                Err(error) => {
                    assert_eq!(error, VersionError::NoChange);
                    assert_eq!(next, last);
                }
            }
            if numbers.below(4) == 0 {
                versions.clear_cache();
            }
        }
        assert_eq!(versions.get_patch_timestamps(&d).len(), committed.len());
        let warm: Vec<Vec<u8>> = committed.iter().map(|(t, _)| versions.load(&d, *t).unwrap()).collect();
        versions.clear_cache();
        for (k, (t, content)) in committed.iter().enumerate() {
            assert_eq!(&versions.load(&d, *t).unwrap(), content);
            assert_eq!(&warm[k], content);
        }
        let total: usize = committed.iter().map(|(_, content)| content.len()).sum();
        assert_eq!(versions.get_document_stats(&d).unwrap().total_uncompressed_bytes, total as i64);
    }
}

#[test]
fn commits_at_any_time_end_in_a_result() {
    for seed in 11..=16u64 {
        let mut numbers = Numbers(seed);
        let mut versions = VersionStore::new();
        let d = versions.create_document("A").unwrap();
        let mut last: Vec<u8> = Vec::new();
        for _ in 0..40 {
            let time = numbers.below(30) as i64;
            let next = edit(&mut numbers, &last);
            if versions.create_patch(&d, &next, time).is_ok() {
                last = next;
            }
            if numbers.below(3) == 0 {
                versions.clear_cache();
            }
            let at = numbers.below(30) as i64;
            match versions.load(&d, at) {
                Ok(_) => {}
                Err(error) => assert_eq!(error, VersionError::DecodeError),
            }
        }
        match versions.get_document_stats(&d) {
            Ok(stats) => assert_eq!(stats.total_patches, versions.get_patch_timestamps(&d).len() as i64),
            Err(error) => assert_eq!(error, VersionError::DecodeError),
        }
    }
}

#[test]
fn deltas_over_any_base_decode_or_are_refused() {
    for seed in 21..=28u64 {
        let mut numbers = Numbers(seed);
        let mut patches: Vec<Patch> = Vec::new();
        let mut base: Vec<u8> = Vec::new();
        let mut time = 0i64;
        for k in 0..30 {
            time += numbers.below(3) as i64;
            let target = edit(&mut numbers, &base);
            let tag = match numbers.below(4) {
                0 => numbers.below(40),
                1 => 1 << (4 + numbers.below(40)),
                _ => 0,
            };
            let delta = xpatch::encode(tag, &base, &target, numbers.below(2) == 0);
            assert_eq!(xpatch::get_tag(&delta), Ok(tag));
            assert_eq!(xpatch::decode(&base, &delta), Ok(target.clone()));
            patches.push(Patch {
                uuid: format!("{}-{}", seed, k),
                document_uuid: "doc".to_string(),
                timestamp: time,
                delta: if numbers.below(8) == 0 { None } else { Some(Delta::from_stored(delta)) },
            });
            if numbers.below(2) == 0 {
                base = target;
            }
        }
        let mut cache = VersionCache::new();
        let cold = reconstruct(&mut cache, "doc", &patches);
        let warm = reconstruct(&mut cache, "doc", &patches);
        match &cold {
            Ok(_) => assert_eq!(warm, cold),
            Err(error) => {
                assert_eq!(*error, VersionError::DecodeError);
                assert_eq!(warm, cold);
            }
        }
    }
}

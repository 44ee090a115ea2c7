use ducohasher::batched::{BatchOutcome, BatchSearch, ChunkEvent, Step, DEFAULT_CHUNK_SIZE};
use ducohasher::sequential::{digest_matches, DUCOHasher};
use sha1::{Digest, Sha1};

fn sha1_bytes(data: &[u8]) -> Vec<u8> {
    Sha1::digest(data).to_vec()
}

/// Drives a batched search with a simulated device that reports, for each
/// chunk, the least matching nonce found by hashing on the host.
fn drive_honest(hasher: &DUCOHasher, payload: &[u8], expected: &[u8], diff: u64, job_mul: u64, chunk: u64) -> (BatchOutcome, Vec<(u64, u64)>) {
    let mut search = BatchSearch::new(diff, job_mul, chunk);
    let mut chunks = Vec::new();
    loop {
        match search.next_step() {
            Step::Finished(outcome) => return (outcome, chunks),
            Step::Dispatch { start, batch_size } => {
                chunks.push((start, batch_size));
                let mut slot: u32 = 0;
                for nonce in start..start + batch_size {
                    let mut data = payload.to_vec();
                    data.extend_from_slice(nonce.to_string().as_bytes());
                    if sha1_bytes(&data) == expected {
                        slot = nonce as u32;
                        break;
                    }
                }
                search.record(hasher, expected, ChunkEvent::Completed(slot));
            }
        }
    }
}

#[test]
fn sequential_finds_planted_nonce() {
    let hasher = DUCOHasher::new(b"TEST");
    let expected = sha1_bytes(b"TEST42");
    assert_eq!(hasher.DUCOS1(&expected, 100, 1), Some(42));
}

#[test]
fn sequential_planted_nonce_other_factors() {
    let payload = b"0123456789abcdef0123456789abcdef01234567";
    let hasher = DUCOHasher::new(payload);
    let mut data = payload.to_vec();
    data.extend_from_slice(b"1234");
    let expected = sha1_bytes(&data);
    assert_eq!(hasher.DUCOS1(&expected, 50, 25), Some(1234));
    assert_eq!(hasher.DUCOS1(&expected, 10, 100), None);
}

#[test]
fn sequential_zero_digest_not_found() {
    let hasher = DUCOHasher::new(b"TEST");
    assert_eq!(hasher.DUCOS1(&[0u8; 20], 10, 1), None);
}

#[test]
fn sequential_bound_is_exclusive() {
    let hasher = DUCOHasher::new(b"TEST");
    let at_bound = sha1_bytes(b"TEST100");
    assert_eq!(hasher.DUCOS1(&at_bound, 100, 1), None);
    assert_eq!(hasher.DUCOS1(&at_bound, 1, 100), None);
    assert_eq!(hasher.DUCOS1(&at_bound, 101, 1), Some(100));
    let below_bound = sha1_bytes(b"TEST99");
    assert_eq!(hasher.DUCOS1(&below_bound, 100, 1), Some(99));
}

#[test]
fn engines_share_range_rule_at_bound() {
    let hasher = DUCOHasher::new(b"TEST");
    let at_bound = sha1_bytes(b"TEST100");
    let (outcome, _) = drive_honest(&hasher, b"TEST", &at_bound, 100, 1, 64);
    assert_eq!(outcome, BatchOutcome::NotFound);
    assert_eq!(hasher.DUCOS1(&at_bound, 100, 1), None);
}

#[test]
fn sequential_nonce_zero_is_found() {
    let hasher = DUCOHasher::new(b"TEST");
    let expected = sha1_bytes(b"TEST0");
    assert_eq!(hasher.DUCOS1(&expected, 10, 1), Some(0));
    assert_eq!(hasher.DUCOS1(&expected, 1, 1), Some(0));
}

#[test]
fn sequential_empty_range_not_found() {
    let hasher = DUCOHasher::new(b"TEST");
    let at_zero = sha1_bytes(b"TEST0");
    assert_eq!(hasher.DUCOS1(&at_zero, 0, 5), None);
    assert_eq!(hasher.DUCOS1(&at_zero, 5, 0), None);
    assert_eq!(hasher.DUCOS1(&at_zero, 0, 0), None);
    assert_eq!(hasher.DUCOS1(&[0u8; 20], 0, 5), None);
}

#[test]
fn sequential_empty_payload() {
    let hasher = DUCOHasher::new(b"");
    let expected = sha1_bytes(b"7");
    assert_eq!(hasher.DUCOS1(&expected, 3, 3), Some(7));
}

#[test]
fn hashes_at_uses_payload_and_decimal_text() {
    let hasher = DUCOHasher::new(b"abc");
    assert!(hasher.hashes_at(&sha1_bytes(b"abc1234567890"), 1234567890));
    assert!(!hasher.hashes_at(&sha1_bytes(b"abc"), 1234567890));
    assert!(!hasher.hashes_at(&sha1_bytes(b"1234567890"), 1234567890));
    let big: u128 = u128::MAX;
    let mut data = b"abc".to_vec();
    data.extend_from_slice(big.to_string().as_bytes());
    assert!(hasher.hashes_at(&sha1_bytes(&data), big));
}

#[test]
fn digest_of_known_input() {
    // The published SHA-1 digest of "abc": the payload alone, with no nonce,
    // is never a candidate.
    let abc: [u8; 20] = [
        0xa9, 0x99, 0x3e, 0x36, 0x47, 0x06, 0x81, 0x6a, 0xba, 0x3e, 0x25, 0x71, 0x78, 0x50, 0xc2, 0x6c,
        0x9c, 0xd0, 0xd8, 0x9d,
    ];
    assert_eq!(sha1_bytes(b"abc"), abc.to_vec());
    let hasher = DUCOHasher::new(b"abc");
    assert_eq!(hasher.DUCOS1(&abc, 1000, 1), None);
    let abc0 = sha1_bytes(b"abc0");
    assert_eq!(abc0.len(), 20);
    assert!(hasher.hashes_at(&abc0, 0));
}

#[test]
fn digest_matches_compares_all_bytes() {
    let mut d = [7u8; 20];
    assert!(digest_matches(&d, &[7u8; 20]));
    assert!(!digest_matches(&d, &[7u8; 19]));
    assert!(!digest_matches(&d, &[7u8; 21]));
    assert!(!digest_matches(&d, &[]));
    d[19] = 8;
    assert!(!digest_matches(&d, &[7u8; 20]));
}

#[test]
fn batched_empty_range_dispatches_nothing() {
    for (diff, job_mul) in [(0u64, 5u64), (5, 0), (0, 0)] {
        let search = BatchSearch::new(diff, job_mul, DEFAULT_CHUNK_SIZE);
        assert_eq!(search.next_step(), Step::Finished(BatchOutcome::NotFound));
    }
}

#[test]
fn batched_chunks_cover_range_once() {
    let mut search = BatchSearch::new(100_000, 3, DEFAULT_CHUNK_SIZE);
    let hasher = DUCOHasher::new(b"TEST");
    let mut chunks = Vec::new();
    while let Step::Dispatch { start, batch_size } = search.next_step() {
        chunks.push((start, batch_size));
        search.record(&hasher, &[0u8; 20], ChunkEvent::Completed(0));
    }
    assert_eq!(chunks, vec![(0, 131072), (131072, 131072), (262144, 37856)]);
    assert_eq!(search.next_step(), Step::Finished(BatchOutcome::NotFound));
}

#[test]
fn batched_exact_multiple_of_chunk() {
    let mut search = BatchSearch::new(4, 5, 10);
    let hasher = DUCOHasher::new(b"TEST");
    let mut chunks = Vec::new();
    while let Step::Dispatch { start, batch_size } = search.next_step() {
        chunks.push((start, batch_size));
        search.record(&hasher, &[0u8; 20], ChunkEvent::Completed(0));
    }
    assert_eq!(chunks, vec![(0, 10), (10, 10)]);
}

#[test]
fn batched_zero_digest_not_found() {
    let hasher = DUCOHasher::new(b"TEST");
    let (outcome, chunks) = drive_honest(&hasher, b"TEST", &[0u8; 20], 10, 1, DEFAULT_CHUNK_SIZE);
    assert_eq!(outcome, BatchOutcome::NotFound);
    assert_eq!(chunks, vec![(0, 10)]);
}

#[test]
fn engines_agree_on_planted_nonce() {
    let hasher = DUCOHasher::new(b"TEST");
    let expected = sha1_bytes(b"TEST42");
    let (outcome, chunks) = drive_honest(&hasher, b"TEST", &expected, 100, 1, 16);
    assert_eq!(outcome, BatchOutcome::Found(42));
    assert_eq!(chunks, vec![(0, 16), (16, 16), (32, 16)]);
    assert_eq!(hasher.DUCOS1(&expected, 100, 1), Some(42));
}

#[test]
fn batched_bound_is_exclusive() {
    let hasher = DUCOHasher::new(b"TEST");
    let at_bound = sha1_bytes(b"TEST100");
    let (outcome, _) = drive_honest(&hasher, b"TEST", &at_bound, 100, 1, 64);
    assert_eq!(outcome, BatchOutcome::NotFound);
    let (outcome, _) = drive_honest(&hasher, b"TEST", &at_bound, 101, 1, 64);
    assert_eq!(outcome, BatchOutcome::Found(100));
}

#[test]
fn batched_failed_dispatch_is_retried_once() {
    let hasher = DUCOHasher::new(b"TEST");
    let expected = sha1_bytes(b"TEST42");
    let mut search = BatchSearch::new(100, 1, 64);
    search.record(&hasher, &expected, ChunkEvent::DispatchFailed);
    assert_eq!(search.next_step(), Step::Dispatch { start: 0, batch_size: 64 });
    search.record(&hasher, &expected, ChunkEvent::Completed(42));
    assert_eq!(search.next_step(), Step::Finished(BatchOutcome::Found(42)));
}

#[test]
fn batched_twice_failed_chunk_is_skipped() {
    let hasher = DUCOHasher::new(b"TEST");
    let expected = sha1_bytes(b"TEST42");
    let mut search = BatchSearch::new(100, 1, 64);
    search.record(&hasher, &expected, ChunkEvent::DispatchFailed);
    search.record(&hasher, &expected, ChunkEvent::DispatchFailed);
    assert_eq!(search.next_step(), Step::Dispatch { start: 64, batch_size: 36 });
    search.record(&hasher, &expected, ChunkEvent::Completed(0));
    assert_eq!(search.next_step(), Step::Finished(BatchOutcome::Incomplete));
}

#[test]
fn batched_false_report_counts_as_failure() {
    let hasher = DUCOHasher::new(b"TEST");
    let expected = sha1_bytes(b"TEST42");
    let mut search = BatchSearch::new(100, 1, 64);
    // 41 lies in the chunk but does not give the digest.
    search.record(&hasher, &expected, ChunkEvent::Completed(41));
    assert_eq!(search.next_step(), Step::Dispatch { start: 0, batch_size: 64 });
    // 80 gives no digest match and lies outside the chunk.
    search.record(&hasher, &expected, ChunkEvent::Completed(80));
    assert_eq!(search.next_step(), Step::Dispatch { start: 64, batch_size: 36 });
    search.record(&hasher, &expected, ChunkEvent::Completed(0));
    assert_eq!(search.next_step(), Step::Finished(BatchOutcome::Incomplete));
}

#[test]
fn batched_match_outside_chunk_is_not_taken() {
    let hasher = DUCOHasher::new(b"TEST");
    let expected = sha1_bytes(b"TEST70");
    let mut search = BatchSearch::new(100, 1, 64);
    search.record(&hasher, &expected, ChunkEvent::Completed(70));
    assert_eq!(search.next_step(), Step::Dispatch { start: 0, batch_size: 64 });
    search.record(&hasher, &expected, ChunkEvent::Completed(0));
    search.record(&hasher, &expected, ChunkEvent::Completed(70));
    assert_eq!(search.next_step(), Step::Finished(BatchOutcome::Found(70)));
}

#[test]
fn cloned_handle_searches_same_payload() {
    let hasher = DUCOHasher::new(b"TEST");
    let copy = hasher.clone();
    drop(hasher);
    assert_eq!(copy.DUCOS1(&sha1_bytes(b"TEST42"), 100, 1), Some(42));
}

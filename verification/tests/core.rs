use atm::counting::gen_num_melodies;
use atm::engine::{is_canonical_pool, successor, unrank};
use atm::errors::{AtmError, CompressionArgError};
use atm::gen::try_compression_from_str;
use atm::estimate::{estimate_tar_size, SizeEstimate};
use atm::partition::{partition, MelodyPartition};

fn pool_60_61_62() -> Vec<u8> {
    vec![60, 61, 62]
}

#[test]
fn count_matches_falling_factorial() {
    // count(N, L) = N * (N-1) * ... * (N-L+1) for 1 <= L <= N <= 20
    for n in 1u32..=20 {
        for l in 1u32..=n {
            let mut expected: u64 = 1;
            for i in 0..l {
                expected *= (n - i) as u64;
            }
            assert_eq!(gen_num_melodies(n, l), Ok(expected));
        }
    }
}

#[test]
fn count_examples() {
    assert_eq!(gen_num_melodies(3, 2), Ok(6));
    assert_eq!(gen_num_melodies(8, 4), Ok(1680));
    assert_eq!(gen_num_melodies(20, 20), Ok(2432902008176640000));
}

#[test]
fn count_detects_overflow() {
    // 25! does not fit in 64 bits and must be reported, not wrapped.
    assert_eq!(gen_num_melodies(25, 25), Err(AtmError::Overflow));
    assert_eq!(gen_num_melodies(100, 50), Err(AtmError::Overflow));
}

#[test]
fn canonical_pool_checks_strict_ascent() {
    assert!(is_canonical_pool(&vec![60, 61, 62]));
    assert!(is_canonical_pool(&vec![]));
    assert!(is_canonical_pool(&vec![7]));
    assert!(!is_canonical_pool(&vec![60, 60]));
    assert!(!is_canonical_pool(&vec![61, 60]));
}

#[test]
fn enumeration_order_n3_l2() {
    // NotePool {60,61,62}, L=2: count = 6 and the fixed enumeration order.
    let pool = pool_60_61_62();
    let expected: Vec<Vec<u8>> = vec![
        vec![60, 61],
        vec![60, 62],
        vec![61, 60],
        vec![61, 62],
        vec![62, 60],
        vec![62, 61],
    ];
    for (r, want) in expected.iter().enumerate() {
        assert_eq!(unrank(&pool, 2, r as u64).unwrap(), *want);
    }
    assert_eq!(unrank(&pool, 2, 3).unwrap(), vec![61, 62]);
}

#[test]
fn unrank_rejects_out_of_range() {
    let pool = pool_60_61_62();
    assert_eq!(unrank(&pool, 2, 6), Err(AtmError::RankOutOfRange));
    assert_eq!(unrank(&pool, 2, 7000), Err(AtmError::RankOutOfRange));
    // More positions than notes leaves an empty space.
    assert_eq!(unrank(&pool, 4, 0), Err(AtmError::RankOutOfRange));
}

#[test]
fn successor_walk_equals_direct_unranking() {
    // Ordering law: seeding with unrank(0) and stepping with successor
    // visits exactly unrank(r) for r in 0..count.
    let pool: Vec<u8> = vec![3, 11, 45, 60];
    let length = 3;
    let count = gen_num_melodies(4, length).unwrap();
    let mut walked = unrank(&pool, length, 0).unwrap();
    for r in 0..count {
        assert_eq!(walked, unrank(&pool, length, r).unwrap());
        match successor(&pool, &walked) {
            Some(next) => {
                assert!(r + 1 < count);
                walked = next;
            },
            None => assert_eq!(r + 1, count),
        }
    }
}

#[test]
fn partition_example_six_over_four() {
    // partition(count=6, numPartitions=4) -> [0,2),[2,4),[4,5),[5,6)
    let parts = partition(3, 2, 4).unwrap();
    let want = vec![(0, 2), (2, 4), (4, 5), (5, 6)];
    assert_eq!(parts.len(), 4);
    for (p, (s, e)) in parts.iter().zip(want.iter()) {
        assert_eq!(*p, MelodyPartition { start: *s, end: *e });
    }
}

#[test]
fn partition_tiles_the_space() {
    // Sorted, contiguous, non-overlapping, sizes ceil-first.
    for num in 1u32..=13 {
        let parts = partition(5, 3, num).unwrap();
        let count: u64 = 60;
        let base = count / num as u64;
        let rem = count % num as u64;
        assert_eq!(parts.len(), num as usize);
        assert_eq!(parts[0].start, 0);
        assert_eq!(parts[parts.len() - 1].end, count);
        for i in 0..parts.len() {
            let size = parts[i].end - parts[i].start;
            if (i as u64) < rem {
                assert_eq!(size, base + 1);
            } else {
                assert_eq!(size, base);
            }
            if i + 1 < parts.len() {
                assert_eq!(parts[i].end, parts[i + 1].start);
            }
        }
    }
}

#[test]
fn partition_with_more_workers_than_ranks() {
    // Trailing partitions are empty rather than an error.
    let parts = partition(3, 2, 10).unwrap();
    assert_eq!(parts.len(), 10);
    for p in parts.iter().skip(6) {
        assert_eq!(p.start, p.end);
    }
}

#[test]
fn compression_level_parsing() {
    assert_eq!(try_compression_from_str("0"), Ok(0));
    assert_eq!(try_compression_from_str("9"), Ok(9));
    assert_eq!(try_compression_from_str("007"), Ok(7));
    assert_eq!(
        try_compression_from_str("10"),
        Err(CompressionArgError::ValueOutOfRange { input: 10 })
    );
    assert_eq!(
        try_compression_from_str("4294967295"),
        Err(CompressionArgError::ValueOutOfRange { input: 4294967295 })
    );
    assert_eq!(try_compression_from_str("+7"), Ok(7));
    assert_eq!(try_compression_from_str("+"), Err(CompressionArgError::NotInteger));
    assert_eq!(try_compression_from_str("++7"), Err(CompressionArgError::NotInteger));
    assert_eq!(try_compression_from_str(""), Err(CompressionArgError::NotInteger));
    assert_eq!(try_compression_from_str("abc"), Err(CompressionArgError::NotInteger));
    assert_eq!(try_compression_from_str("-1"), Err(CompressionArgError::NotInteger));
    assert_eq!(try_compression_from_str("4294967296"), Err(CompressionArgError::NotInteger));
}

#[test]
fn entry_names_from_ranks() {
    assert_eq!(atm::names::melody_name(0), b"m0.mid".to_vec());
    assert_eq!(atm::names::melody_name(123), b"m123.mid".to_vec());
    assert_eq!(
        atm::names::melody_name(u64::MAX),
        b"m18446744073709551615.mid".to_vec()
    );
    assert_eq!(atm::names::batch_name(42), b"b42.tar.gz".to_vec());
}

#[test]
fn exact_estimate_handles_block_rounding_and_overflow() {
    // Zero-byte payloads still cost a header block each.
    assert_eq!(estimate_tar_size(3, 2, 0), Ok(SizeEstimate::Exact { bytes: 6 * 512 + 1024 }));
    // 512 bytes fit exactly one block; 513 take two.
    assert_eq!(
        estimate_tar_size(3, 2, 512),
        Ok(SizeEstimate::Exact { bytes: 6 * 1024 + 1024 })
    );
    assert_eq!(
        estimate_tar_size(3, 2, 513),
        Ok(SizeEstimate::Exact { bytes: 6 * 1536 + 1024 })
    );
    // An empty space is only the end-of-archive marker.
    assert_eq!(estimate_tar_size(2, 3, 100), Ok(SizeEstimate::Exact { bytes: 1024 }));
    // Overflow is reported, not wrapped.
    assert_eq!(estimate_tar_size(3, 2, u64::MAX), Err(AtmError::Overflow));
    assert_eq!(estimate_tar_size(25, 25, 100), Err(AtmError::Overflow));
}

use std::io::Read;

use atm::errors::{AtmError, StorageError};
use atm::estimate::{
    estimate_tar_gz_size, estimate_tar_size, extrapolate_size, sample_ranks, uniform_payload_size,
    SizeEstimate,
};
use atm::gen::{GenDirective, GenSingleDirective, GenTarDirective, GenTarGzDirective,
    GenBatchDirective};
use atm::storage::{GenOutput, StorageBackend, TarBackend};

/// Deterministic pseudo-random payload of 100 bytes for one rank.
fn payload_for(rank: u64) -> Vec<u8> {
    let mut state = rank.wrapping_mul(6364136223846793005).wrapping_add(1442695040888963407);
    let mut out = Vec::with_capacity(100);
    for _ in 0..100 {
        state = state.wrapping_mul(6364136223846793005).wrapping_add(1442695040888963407);
        out.push((state >> 56) as u8);
    }
    out
}

fn payloads_for_range(start: u64, end: u64) -> Vec<Vec<u8>> {
    (start..end).map(payload_for).collect()
}

fn tar_directive(pool: Vec<u8>, length: u32) -> GenDirective {
    GenDirective::GenTar(GenTarDirective { pool, length, partition: None })
}

#[test]
fn exact_estimate_matches_real_tar_archive() {
    // N=3, L=2, 100-byte payloads: 6 * (512 + 512) + 1024 = 7168 bytes.
    let est = estimate_tar_size(3, 2, 100).unwrap();
    assert_eq!(est, SizeEstimate::Exact { bytes: 7168 });

    let payloads: Vec<Vec<u8>> = (0..6).map(|_| vec![7u8; 100]).collect();
    let out = tar_directive(vec![60, 61, 62], 2).run(&payloads).unwrap();
    match out {
        GenOutput::Archive(bytes) => assert_eq!(bytes.len(), 7168),
        GenOutput::Files(_) => panic!("tar run must yield one archive"),
    }
}

#[test]
fn tar_archive_reads_back_with_standard_reader() {
    let payloads = payloads_for_range(0, 6);
    let out = tar_directive(vec![60, 61, 62], 2).run(&payloads).unwrap();
    let bytes = match out {
        GenOutput::Archive(b) => b,
        GenOutput::Files(_) => panic!("tar run must yield one archive"),
    };
    let mut archive = tar::Archive::new(&bytes[..]);
    let mut names: Vec<String> = Vec::new();
    let mut contents: Vec<Vec<u8>> = Vec::new();
    for entry in archive.entries().unwrap() {
        let mut entry = entry.unwrap();
        names.push(entry.path().unwrap().to_string_lossy().into_owned());
        let mut data = Vec::new();
        entry.read_to_end(&mut data).unwrap();
        contents.push(data);
    }
    assert_eq!(names, vec!["m0.mid", "m1.mid", "m2.mid", "m3.mid", "m4.mid", "m5.mid"]);
    assert_eq!(contents, payloads);
}

#[test]
fn tar_gz_archive_is_gzip_of_tar_archive() {
    let payloads = payloads_for_range(0, 6);
    let plain = match tar_directive(vec![60, 61, 62], 2).run(&payloads).unwrap() {
        GenOutput::Archive(b) => b,
        GenOutput::Files(_) => panic!("tar run must yield one archive"),
    };
    let gz = GenDirective::GenTarGz(GenTarGzDirective {
        pool: vec![60, 61, 62],
        length: 2,
        partition: None,
        level: 6,
    });
    let compressed = match gz.run(&payloads).unwrap() {
        GenOutput::Archive(b) => b,
        GenOutput::Files(_) => panic!("tar-gz run must yield one archive"),
    };
    assert_ne!(compressed, plain);
    let mut decoder = flate2::read::GzDecoder::new(&compressed[..]);
    let mut decoded = Vec::new();
    decoder.read_to_end(&mut decoded).unwrap();
    assert_eq!(decoded, plain);
}

#[test]
fn invalid_compression_level_is_rejected_before_generation() {
    let gz = GenDirective::GenTarGz(GenTarGzDirective {
        pool: vec![60, 61, 62],
        length: 2,
        partition: None,
        level: 12,
    });
    let payloads = payloads_for_range(0, 6);
    assert_eq!(gz.run(&payloads).err(), Some(AtmError::InvalidCompressionLevel));
}

#[test]
fn overflowing_space_is_fatal() {
    let pool: Vec<u8> = (0..25).collect();
    let d = tar_directive(pool, 25);
    let payloads: Vec<Vec<u8>> = Vec::new();
    assert_eq!(d.run(&payloads).err(), Some(AtmError::Overflow));
}

#[test]
fn single_file_backend_names_each_melody() {
    let payloads = payloads_for_range(0, 6);
    let d = GenDirective::GenSingle(GenSingleDirective {
        pool: vec![60, 61, 62],
        length: 2,
        partition: None,
    });
    match d.run(&payloads).unwrap() {
        GenOutput::Files(files) => {
            assert_eq!(files.len(), 6);
            for (i, (name, data)) in files.iter().enumerate() {
                assert_eq!(name, format!("m{}.mid", i).as_bytes());
                assert_eq!(*data, payloads[i]);
            }
        },
        GenOutput::Archive(_) => panic!("single-file run must yield loose files"),
    }
}

#[test]
fn batch_archive_groups_melodies() {
    let payloads = payloads_for_range(0, 6);
    let d = GenDirective::GenBatch(GenBatchDirective {
        pool: vec![60, 61, 62],
        length: 2,
        partition: None,
        level: 6,
        batch_size: 4,
    });
    let bytes = match d.run(&payloads).unwrap() {
        GenOutput::Archive(b) => b,
        GenOutput::Files(_) => panic!("batch run must yield one archive"),
    };
    let mut archive = tar::Archive::new(&bytes[..]);
    let mut batch_sizes: Vec<usize> = Vec::new();
    let mut names: Vec<String> = Vec::new();
    let mut melodies: Vec<(String, Vec<u8>)> = Vec::new();
    for entry in archive.entries().unwrap() {
        let mut entry = entry.unwrap();
        names.push(entry.path().unwrap().to_string_lossy().into_owned());
        let mut gz_data = Vec::new();
        entry.read_to_end(&mut gz_data).unwrap();
        let mut decoder = flate2::read::GzDecoder::new(&gz_data[..]);
        let mut inner_tar = Vec::new();
        decoder.read_to_end(&mut inner_tar).unwrap();
        let mut inner = tar::Archive::new(&inner_tar[..]);
        let mut in_batch = 0;
        for melody_entry in inner.entries().unwrap() {
            let mut melody_entry = melody_entry.unwrap();
            let name = melody_entry.path().unwrap().to_string_lossy().into_owned();
            let mut data = Vec::new();
            melody_entry.read_to_end(&mut data).unwrap();
            melodies.push((name, data));
            in_batch += 1;
        }
        batch_sizes.push(in_batch);
    }
    // ceil(6 / 4) = 2 batches holding 4 and 2 melodies.
    assert_eq!(names, vec!["b0.tar.gz", "b1.tar.gz"]);
    assert_eq!(batch_sizes, vec![4, 2]);
    // Across the batches, every melody appears once, in rank order.
    assert_eq!(melodies.len(), 6);
    for (i, (name, data)) in melodies.iter().enumerate() {
        assert_eq!(*name, format!("m{}.mid", i));
        assert_eq!(*data, payloads[i]);
    }
}

#[test]
fn finish_twice_fails_without_altering_bytes() {
    let payloads = payloads_for_range(0, 3);

    let run_once = |double_finish: bool| -> Vec<u8> {
        let mut backend = StorageBackend::Tar(TarBackend::new());
        for (i, p) in payloads.iter().enumerate() {
            let name = format!("m{}.mid", i).into_bytes();
            backend.append_melody(name, p.clone()).unwrap();
        }
        backend.finish().unwrap();
        if double_finish {
            assert_eq!(backend.finish(), Err(StorageError::AlreadyFinished));
            assert_eq!(backend.finish(), Err(StorageError::AlreadyFinished));
        }
        match backend.into_output() {
            GenOutput::Archive(b) => b,
            GenOutput::Files(_) => panic!("tar backend must yield one archive"),
        }
    };
    assert_eq!(run_once(false), run_once(true));
}

#[test]
fn append_after_finish_is_rejected() {
    let mut backend = StorageBackend::Tar(TarBackend::new());
    backend.append_melody(b"m0.mid".to_vec(), vec![1, 2, 3]).unwrap();
    backend.finish().unwrap();
    assert_eq!(
        backend.append_melody(b"m1.mid".to_vec(), vec![4, 5, 6]),
        Err(StorageError::AppendAfterFinish)
    );
}

#[test]
fn non_uniform_payloads_fail_closed() {
    assert_eq!(uniform_payload_size(&vec![100, 100, 100]), Ok(100));
    assert_eq!(uniform_payload_size(&vec![]), Err(AtmError::NonUniformPayload));
    assert_eq!(uniform_payload_size(&vec![100, 99, 100]), Err(AtmError::NonUniformPayload));
}

#[test]
fn sampling_and_extrapolation() {
    assert_eq!(sample_ranks(6, 3), vec![0, 2, 4]);
    assert_eq!(sample_ranks(1680, 20), (0..20).map(|i| i * 84).collect::<Vec<u64>>());
    assert_eq!(extrapolate_size(100, 20, 1680), Ok(8400));
    assert_eq!(extrapolate_size(7, 2, 5), Ok(17));
}

#[test]
fn approximate_estimate_tracks_real_compressed_size() {
    // N=8, L=4: 1680 melodies. Sample 20 and compare the extrapolated
    // size with the real compressed archive, at a documented tolerance
    // of 15 percent.
    let pool: Vec<u8> = vec![10, 20, 30, 40, 50, 60, 70, 80];
    let count = 1680u64;
    let ranks = sample_ranks(count, 20);
    let sampled: Vec<Vec<u8>> = ranks.iter().map(|r| payload_for(*r)).collect();
    let est = estimate_tar_gz_size(8, 4, 0, &sampled, 6).unwrap();
    let est_bytes = match est {
        SizeEstimate::Approximate { bytes, sample_size } => {
            assert_eq!(sample_size, 20);
            bytes
        },
        SizeEstimate::Exact { .. } => panic!("compressed estimate must be approximate"),
    };

    let payloads = payloads_for_range(0, count);
    let gz = GenDirective::GenTarGz(GenTarGzDirective {
        pool,
        length: 4,
        partition: None,
        level: 6,
    });
    let actual = match gz.run(&payloads).unwrap() {
        GenOutput::Archive(b) => b.len() as u64,
        GenOutput::Files(_) => panic!("tar-gz run must yield one archive"),
    };
    let diff = if est_bytes > actual { est_bytes - actual } else { actual - est_bytes };
    assert!(
        diff * 100 <= actual * 15,
        "estimate {} vs actual {} exceeds 15 percent",
        est_bytes,
        actual
    );
}

#[test]
fn partitioned_runs_cover_the_space() {
    // Two workers over disjoint ranges produce, together, the same
    // entries as one full run.
    let parts = atm::partition::partition(3, 2, 2).unwrap();
    let full = payloads_for_range(0, 6);
    let mut all_names: Vec<String> = Vec::new();
    for p in parts {
        let payloads = payloads_for_range(p.start, p.end);
        let d = GenDirective::GenTar(GenTarDirective {
            pool: vec![60, 61, 62],
            length: 2,
            partition: Some(p),
        });
        let bytes = match d.run(&payloads).unwrap() {
            GenOutput::Archive(b) => b,
            GenOutput::Files(_) => panic!("tar run must yield one archive"),
        };
        let mut archive = tar::Archive::new(&bytes[..]);
        for entry in archive.entries().unwrap() {
            let mut entry = entry.unwrap();
            all_names.push(entry.path().unwrap().to_string_lossy().into_owned());
            let mut data = Vec::new();
            entry.read_to_end(&mut data).unwrap();
            let rank: usize = all_names.last().unwrap()[1..].trim_end_matches(".mid").parse().unwrap();
            assert_eq!(data, full[rank]);
        }
    }
    assert_eq!(all_names, vec!["m0.mid", "m1.mid", "m2.mid", "m3.mid", "m4.mid", "m5.mid"]);
}

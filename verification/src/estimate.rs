use vstd::prelude::*;
use vstd::arithmetic::div_mod::lemma_fundamental_div_mod;
use vstd::arithmetic::mul::lemma_mul_inequality;
use vstd::arithmetic::mul::lemma_mul_is_distributive_add_other_way;
use crate::counting::falling_factorial;
use crate::counting::gen_num_melodies;
use crate::errors::AtmError;
use crate::names::melody_name_spec;
use crate::storage::archive_bytes;
use crate::storage::entry_size;
use crate::storage::gzip_of;
use crate::storage::StorageBackend;
use crate::storage::TarBackend;
use crate::storage::TarGzBackend;
use crate::gen::melody_entries;
use crate::gen::payload_views;

verus! {

/// A predicted container size: exact for uncompressed tar, measured
/// and extrapolated for compressed variants.
#[derive(Clone, Copy, Debug, PartialEq, Eq, Structural)]
pub enum SizeEstimate {
    Exact { bytes: u64 },
    Approximate { bytes: u64, sample_size: u64 },
}

/// Byte size of a tar archive holding `count` payloads of one fixed
/// size: each entry costs a 512-byte header plus the payload rounded
/// up to 512-byte blocks, and the archive ends with 1024 zero bytes.
pub open spec fn exact_tar_size(count: nat, payload_size: nat) -> nat {
    count * entry_size(payload_size) + 1024
}

/// Predicts the exact size of the tar archive over the whole space of
/// `(n, length)` melodies with a fixed per-melody payload size.
pub fn estimate_tar_size(n: u32, length: u32, payload_size: u64) -> (r: Result<
    SizeEstimate,
    AtmError,
>)
    ensures
        match r {
            Ok(SizeEstimate::Exact { bytes }) => bytes == exact_tar_size(
                falling_factorial(n as nat, length as nat),
                payload_size as nat,
            ),
            Err(e) => {
                &&& e == AtmError::Overflow
                &&& (falling_factorial(n as nat, length as nat) > u64::MAX || exact_tar_size(
                    falling_factorial(n as nat, length as nat),
                    payload_size as nat,
                ) > u64::MAX)
            },
            _ => false,
        },
{
    let count = match gen_num_melodies(n, length) {
        Ok(c) => c,
        Err(e) => {
            return Err(e);
        },
    };
    if count == 0 {
        return Ok(SizeEstimate::Exact { bytes: 1024 });
    }
    if payload_size > u64::MAX - 511 {
        proof {
            let p = payload_size as nat;
            lemma_fundamental_div_mod((p + 511) as int, 512);
            let es = entry_size(p);
            assert(es > u64::MAX);
            let c = falling_factorial(n as nat, length as nat);
            assert(c * es >= es) by (nonlinear_arith)
                requires
                    c >= 1,
                    es >= 0,
            ;
        }
        return Err(AtmError::Overflow);
    }
    let blocks = (payload_size + 511) / 512;
    let per_entry = match (blocks).checked_mul(512) {
        Some(v) => v.checked_add(512),
        None => None,
    };
    let ghost c = falling_factorial(n as nat, length as nat);
    let ghost es = entry_size(payload_size as nat);
    proof {
        assert(c * es >= es) by (nonlinear_arith)
            requires
                c >= 1,
                es >= 0,
        ;
    }
    let per = match per_entry {
        Some(v) => v,
        None => {
            return Err(AtmError::Overflow);
        },
    };
    let total = match count.checked_mul(per) {
        Some(v) => v.checked_add(1024),
        None => None,
    };
    match total {
        Some(bytes) => Ok(SizeEstimate::Exact { bytes }),
        None => Err(AtmError::Overflow),
    }
}

/// Exact-estimator law: a finished tar container over entries of one
/// payload size holds exactly as many bytes as the exact estimator
/// predicts for that many melodies of that payload size.
pub proof fn lemma_exact_estimate_matches_archive(b: TarBackend, p: nat)
    requires
        b.wf(),
        b.is_finished(),
        forall|i: int| 0 <= i < b.entries().len() ==> (#[trigger] b.entries()[i].1).len() == p,
    ensures
        b.output_bytes().len() == exact_tar_size(b.entries().len(), p),
{
    crate::storage::lemma_tar_archive_size(b, p);
}

/// Finds the single payload size of a sample, rejecting a non-uniform
/// or empty sample.
pub fn uniform_payload_size(sizes: &Vec<u64>) -> (r: Result<u64, AtmError>)
    ensures
        match r {
            Ok(s) => {
                &&& sizes@.len() >= 1
                &&& s == sizes@[0]
                &&& forall|i: int| 0 <= i < sizes@.len() ==> #[trigger] sizes@[i] == s
            },
            Err(e) => {
                &&& e == AtmError::NonUniformPayload
                &&& (sizes@.len() == 0 || exists|i: int|
                    0 <= i < sizes@.len() && #[trigger] sizes@[i] != sizes@[0])
            },
        },
{
    if sizes.len() == 0 {
        return Err(AtmError::NonUniformPayload);
    }
    let first = sizes[0];
    let mut i: usize = 1;
    while i < sizes.len()
        invariant
            1 <= i <= sizes@.len(),
            first == sizes@[0],
            forall|k: int| 0 <= k < i ==> #[trigger] sizes@[k] == first,
        decreases sizes@.len() - i,
    {
        if sizes[i] != first {
            return Err(AtmError::NonUniformPayload);
        }
        i = i + 1;
    }
    Ok(first)
}

/// Ranks spread evenly across `[0, count)`: every `count / sample_size`
/// positions, starting at zero.
pub fn sample_ranks(count: u64, sample_size: u64) -> (r: Vec<u64>)
    requires
        1 <= sample_size <= count,
    ensures
        r@.len() == sample_size,
        forall|i: int| 0 <= i < r@.len() ==> #[trigger] r@[i] == i * (count / sample_size),
        forall|i: int| 0 <= i < r@.len() ==> #[trigger] r@[i] < count,
{
    let step = count / sample_size;
    proof {
        lemma_fundamental_div_mod(count as int, sample_size as int);
    }
    let mut r: Vec<u64> = Vec::new();
    let mut i: u64 = 0;
    while i < sample_size
        invariant
            1 <= sample_size <= count,
            step == count / sample_size,
            i <= sample_size,
            r@.len() == i,
            forall|k: int| 0 <= k < r@.len() ==> #[trigger] r@[k] == k * step,
            forall|k: int| 0 <= k < r@.len() ==> #[trigger] r@[k] < count,
        decreases sample_size - i,
    {
        proof {
            lemma_fundamental_div_mod(count as int, sample_size as int);
            assert(step >= 1) by {
                if step == 0 {
                    assert(sample_size * step == 0) by (nonlinear_arith)
                        requires
                            step == 0,
                    ;
                }
            }
            lemma_mul_inequality((i + 1) as int, sample_size as int, step as int);
            lemma_mul_is_distributive_add_other_way(step as int, i as int, 1);
            assert(sample_size * step == step * sample_size) by (nonlinear_arith);
            assert(i * step + step == (i + 1) * step);
            assert((i + 1) * step <= sample_size * step);
        }
        let rank = i * step;
        r.push(rank);
        i = i + 1;
    }
    r
}

/// Extrapolates a measured sample size linearly to the whole space:
/// `measured * count / sample_size`.
pub fn extrapolate_size(measured: u64, sample_size: u64, count: u64) -> (r: Result<u64, AtmError>)
    requires
        sample_size >= 1,
    ensures
        match r {
            Ok(bytes) => bytes == (measured * count) as nat / sample_size as nat,
            Err(e) => {
                &&& e == AtmError::Overflow
                &&& (measured * count) as nat / sample_size as nat > u64::MAX
            },
        },
{
    proof {
        let a = measured as int;
        let b = count as int;
        assert(a * b <= 0xffff_ffff_ffff_ffff * 0xffff_ffff_ffff_ffff) by (nonlinear_arith)
            requires
                0 <= a <= 0xffff_ffff_ffff_ffff,
                0 <= b <= 0xffff_ffff_ffff_ffff,
        ;
    }
    let wide = (measured as u128) * (count as u128);
    let q = wide / (sample_size as u128);
    if q > 0xffff_ffff_ffff_ffff {
        return Err(AtmError::Overflow);
    }
    Ok(q as u64)
}

/// Predicts the size of the gzip-compressed tar archive over the whole
/// space by building a real miniature container from sampled payloads,
/// measuring its compressed size, and extrapolating linearly. The
/// result is tagged approximate and carries the sample size used.
pub fn estimate_tar_gz_size(
    n: u32,
    length: u32,
    start: u64,
    payloads: &Vec<Vec<u8>>,
    level: u32,
) -> (r: Result<SizeEstimate, AtmError>)
    requires
        1 <= payloads@.len() < u64::MAX,
        start + payloads@.len() <= u64::MAX,
    ensures
        match r {
            Ok(SizeEstimate::Approximate { bytes, sample_size }) => {
                &&& level <= 9
                &&& sample_size == payloads@.len()
                &&& falling_factorial(n as nat, length as nat) <= u64::MAX
                &&& bytes == (gzip_of(
                    archive_bytes(melody_entries(start as nat, payload_views(payloads@))),
                    level as nat,
                ).len() * falling_factorial(n as nat, length as nat)) as nat / payloads@.len()
            },
            Err(AtmError::InvalidCompressionLevel) => level > 9,
            Err(AtmError::Overflow) => level <= 9 && (falling_factorial(n as nat, length as nat)
                > u64::MAX || (gzip_of(
                archive_bytes(melody_entries(start as nat, payload_views(payloads@))),
                level as nat,
            ).len() * falling_factorial(n as nat, length as nat)) as nat / payloads@.len()
                > u64::MAX),
            _ => false,
        },
{
    if level > 9 {
        return Err(AtmError::InvalidCompressionLevel);
    }
    let count = match gen_num_melodies(n, length) {
        Ok(c) => c,
        Err(e) => {
            return Err(e);
        },
    };
    let sample_size = payloads.len() as u64;
    let mut backend = StorageBackend::TarGz(TarGzBackend::new(level));
    let mut idx: u64 = 0;
    let total = payloads.len() as u64;
    let ghost views = payload_views(payloads@);
    while idx < total
        invariant
            level <= 9,
            total == payloads@.len() < u64::MAX,
            payloads@.len() <= usize::MAX,
            start + total <= u64::MAX,
            views == payload_views(payloads@),
            idx <= total,
            backend.wf(),
            !backend.is_finished(),
            match backend {
                StorageBackend::TarGz(b) => b.compression_level() == level,
                _ => false,
            },
            backend.entries() == melody_entries(start as nat, views.take(idx as int)),
            backend.entries().len() == idx,
        decreases total - idx,
    {
        let rank = start + idx;
        let name = crate::names::melody_name(rank);
        proof {
            crate::names::lemma_melody_name_valid(rank);
        }
        let mut payload: Vec<u8> = Vec::new();
        let src = &payloads[idx as usize];
        let mut k: usize = 0;
        while k < src.len()
            invariant
                k <= src@.len(),
                payload@ == src@.take(k as int),
            decreases src@.len() - k,
        {
            payload.push(src[k]);
            proof {
                assert(payload@ =~= src@.take(k + 1));
            }
            k = k + 1;
        }
        proof {
            assert(src@.take(src@.len() as int) =~= src@);
        }
        let ghost nv = name@;
        let ghost pv = payload@;
        let ghost before_entries = backend.entries();
        let ar = backend.append_melody(name, payload);
        match ar {
            Ok(()) => {},
            Err(_) => {
                proof {
                    assert(false);
                }
                return Err(AtmError::Overflow);
            },
        }
        proof {
            let e = (crate::names::melody_name_spec((start + idx) as nat), views[idx as int]);
            assert(backend.entries() == before_entries.push((nv, pv)));
            assert(idx < payloads@.len() <= usize::MAX);
            assert(pv == payloads@[idx as int]@);
            assert(pv == views[idx as int]);
            assert(nv == crate::names::melody_name_spec((start + idx) as nat));
            assert((nv, pv) == e);
            assert(melody_entries(start as nat, views.take(idx as int + 1)) =~= melody_entries(
                start as nat,
                views.take(idx as int),
            ).push(e));
        }
        idx = idx + 1;
    }
    proof {
        assert(views.take(total as int) =~= views);
    }
    let fr = backend.finish();
    match fr {
        Ok(()) => {},
        Err(_) => {
            proof {
                assert(false);
            }
            return Err(AtmError::Overflow);
        },
    }
    proof {
        crate::storage::lemma_finished_container(backend);
    }
    let out = backend.into_output();
    let measured = match out {
        crate::storage::GenOutput::Archive(v) => v.len() as u64,
        crate::storage::GenOutput::Files(_) => {
            proof {
                assert(false);
            }
            0
        },
    };
    match extrapolate_size(measured, sample_size, count) {
        Ok(bytes) => Ok(SizeEstimate::Approximate { bytes, sample_size }),
        Err(e) => Err(e),
    }
}

} // verus!

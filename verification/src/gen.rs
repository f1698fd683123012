use vstd::prelude::*;
use vstd::string::StringSliceAdditionalSpecFns;
use vstd::slice::slice_index_get;
use crate::counting::falling_factorial;
use crate::engine::canonical_pool;
use crate::engine::rank_of;
use crate::engine::successor;
use crate::engine::unrank;
use crate::engine::valid_melody;
use crate::errors::AtmError;
use crate::errors::CompressionArgError;
use crate::errors::StorageError;
use crate::names::melody_name;
use crate::names::melody_name_spec;
use crate::names::lemma_melody_name_valid;
use crate::names::pow10;
use crate::partition::MelodyPartition;
use crate::storage::BatchBackend;
use crate::storage::GenOutput;
use crate::storage::SingleFileBackend;
use crate::storage::StorageBackend;
use crate::storage::TarBackend;
use crate::storage::TarGzBackend;

verus! {

/// Non-empty text made of ASCII digits only.
pub open spec fn is_digit_bytes(s: Seq<u8>) -> bool {
    &&& s.len() >= 1
    &&& forall|i: int| 0 <= i < s.len() ==> 48 <= #[trigger] s[i] <= 57
}

/// The number a digit string denotes, most significant digit first.
pub open spec fn digits_value(s: Seq<u8>) -> nat
    decreases s.len(),
{
    if s.len() == 0 {
        0
    } else {
        digits_value(s.drop_last()) * 10 + ((s.last() - 48) as nat)
    }
}

/// A string of zero digits denotes zero.
proof fn lemma_all_zeros(s: Seq<u8>)
    requires
        forall|i: int| 0 <= i < s.len() ==> #[trigger] s[i] == 48,
    ensures
        digits_value(s) == 0,
    decreases s.len(),
{
    if s.len() > 0 {
        lemma_all_zeros(s.drop_last());
    }
}

/// Leading zeros do not change the denoted number.
proof fn lemma_skip_zeros(s: Seq<u8>, z: int)
    requires
        0 <= z <= s.len(),
        forall|i: int| 0 <= i < z ==> #[trigger] s[i] == 48,
    ensures
        digits_value(s.skip(z)) == digits_value(s),
    decreases s.len(),
{
    if s.len() == z {
        lemma_all_zeros(s);
        assert(s.skip(z) =~= Seq::<u8>::empty());
    } else {
        assert(s.skip(z).drop_last() =~= s.drop_last().skip(z));
        assert(s.skip(z).last() == s.last());
        lemma_skip_zeros(s.drop_last(), z);
    }
}

/// Without a leading zero, each extra digit multiplies the floor by ten.
proof fn lemma_digits_lower_bound(s: Seq<u8>)
    requires
        is_digit_bytes(s),
        s[0] != 48,
    ensures
        digits_value(s) >= pow10((s.len() - 1) as nat),
    decreases s.len(),
{
    if s.len() > 1 {
        assert(s.drop_last()[0] == s[0]);
        lemma_digits_lower_bound(s.drop_last());
    }
}

/// A digit string denotes less than ten to its length.
proof fn lemma_digits_upper_bound(s: Seq<u8>)
    requires
        forall|i: int| 0 <= i < s.len() ==> 48 <= #[trigger] s[i] <= 57,
    ensures
        digits_value(s) < pow10(s.len()),
    decreases s.len(),
{
    if s.len() == 0 {
        assert(pow10(0) == 1);
    } else {
        lemma_digits_upper_bound(s.drop_last());
    }
}

/// The digits of an unsigned decimal numeral: the text with one
/// optional leading plus sign removed.
pub open spec fn numeral_of(s: Seq<u8>) -> Seq<u8> {
    if s.len() >= 1 && s[0] == 43 {
        s.skip(1)
    } else {
        s
    }
}

/// Reads a gzip compression level from its textual form: an unsigned
/// decimal integer (one optional leading plus sign) between 0 and 9.
pub fn try_compression_from_str(arg: &str) -> (r: Result<u32, CompressionArgError>)
    ensures
        match r {
            Ok(level) => {
                &&& is_digit_bytes(numeral_of(arg.spec_bytes()))
                &&& level == digits_value(numeral_of(arg.spec_bytes()))
                &&& level <= 9
            },
            Err(CompressionArgError::NotInteger) => !is_digit_bytes(numeral_of(arg.spec_bytes()))
                || digits_value(numeral_of(arg.spec_bytes())) > u32::MAX,
            Err(CompressionArgError::ValueOutOfRange { input }) => {
                &&& is_digit_bytes(numeral_of(arg.spec_bytes()))
                &&& input == digits_value(numeral_of(arg.spec_bytes()))
                &&& 9 < input <= u32::MAX
            },
        },
{
    let b = arg.as_bytes();
    proof {
        assert(b@ == arg.spec_bytes());
    }
    let n = b.len();
    let d0: usize = if n >= 1 && *slice_index_get(b, 0) == 43 {
        1
    } else {
        0
    };
    let ghost num = numeral_of(b@);
    proof {
        assert(num =~= b@.skip(d0 as int));
    }
    if n == d0 {
        return Err(CompressionArgError::NotInteger);
    }
    let mut i: usize = d0;
    while i < n
        invariant
            n == b@.len(),
            b@ == arg.spec_bytes(),
            num == numeral_of(b@),
            num =~= b@.skip(d0 as int),
            d0 <= i <= n,
            forall|k: int| d0 <= k < i ==> 48 <= #[trigger] b@[k] <= 57,
        decreases n - i,
    {
        let c = *slice_index_get(b, i);
        if c < 48 || c > 57 {
            proof {
                assert(num[i - d0] == b@[i as int]);
                assert(!(48 <= num[i - d0] <= 57));
                assert(!is_digit_bytes(num));
            }
            return Err(CompressionArgError::NotInteger);
        }
        i = i + 1;
    }
    let mut z: usize = d0;
    while z < n && *slice_index_get(b, z) == 48
        invariant
            n == b@.len(),
            b@ == arg.spec_bytes(),
            d0 <= z <= n,
            forall|k: int| d0 <= k < z ==> #[trigger] b@[k] == 48,
        decreases n - z,
    {
        z = z + 1;
    }
    proof {
        assert(forall|k: int| 0 <= k < z - d0 ==> #[trigger] num[k] == b@[k + d0]);
        lemma_skip_zeros(num, z - d0);
        assert(num.skip(z - d0) =~= b@.skip(z as int));
    }
    if n - z > 10 {
        proof {
            let rest = b@.skip(z as int);
            assert(rest[0] == b@[z as int]);
            assert(forall|k: int| 0 <= k < rest.len() ==> #[trigger] rest[k] == b@[k + z]);
            lemma_digits_lower_bound(rest);
            crate::names::lemma_pow10_increases((10) as nat, (rest.len() - 1) as nat);
            assert(pow10(10) > u32::MAX) by {
                reveal_with_fuel(pow10, 11);
            }
        }
        return Err(CompressionArgError::NotInteger);
    }
    let mut acc: u64 = 0;
    let mut j: usize = z;
    proof {
        assert(b@.subrange(z as int, z as int) =~= Seq::<u8>::empty());
        assert(pow10(10) == 10000000000) by {
            reveal_with_fuel(pow10, 11);
        }
    }
    while j < n
        invariant
            n == b@.len(),
            b@ == arg.spec_bytes(),
            d0 <= z <= j <= n,
            n - z <= 10,
            forall|k: int| d0 <= k < n ==> 48 <= #[trigger] b@[k] <= 57,
            acc == digits_value(b@.subrange(z as int, j as int)),
            acc < pow10((j - z) as nat),
            pow10(10) == 10000000000,
        decreases n - j,
    {
        let c = *slice_index_get(b, j);
        proof {
            let pre = b@.subrange(z as int, j as int);
            let cur = b@.subrange(z as int, j + 1);
            assert(cur.drop_last() =~= pre);
            assert(cur.last() == b@[j as int]);
            lemma_digits_upper_bound(pre);
            crate::names::lemma_pow10_increases((j - z + 1) as nat, 10nat);
        }
        acc = acc * 10 + ((c - 48) as u64);
        j = j + 1;
    }
    proof {
        assert(b@.subrange(z as int, n as int) =~= b@.skip(z as int));
        assert(num.skip(z - d0) =~= b@.skip(z as int));
        assert(forall|k: int| 0 <= k < num.len() ==> #[trigger] num[k] == b@[k + d0]);
        assert(is_digit_bytes(num));
        assert(digits_value(num) == acc);
    }
    if acc > 0xffff_ffff {
        return Err(CompressionArgError::NotInteger);
    }
    let value = acc as u32;
    if value > 9 {
        return Err(CompressionArgError::ValueOutOfRange { input: value });
    }
    Ok(value)
}

/// Views of a vector of payload buffers.
pub open spec fn payload_views(p: Seq<Vec<u8>>) -> Seq<Seq<u8>> {
    Seq::new(p.len(), |i: int| p[i]@)
}

/// Entries a walk over ranks starting at `start` must produce: each
/// melody's rank-derived entry name paired with its payload.
pub open spec fn melody_entries(start: nat, payloads: Seq<Seq<u8>>) -> Seq<(Seq<u8>, Seq<u8>)> {
    Seq::new(payloads.len(), |i: int| (melody_name_spec((start + i) as nat), payloads[i]))
}

/// Copies one payload buffer.
fn copy_payload(v: &Vec<u8>) -> (r: Vec<u8>)
    ensures
        r@ == v@,
{
    let mut r: Vec<u8> = Vec::new();
    let mut i: usize = 0;
    while i < v.len()
        invariant
            i <= v@.len(),
            r@ == v@.take(i as int),
        decreases v@.len() - i,
    {
        r.push(v[i]);
        proof {
            assert(r@ =~= v@.take(i + 1));
        }
        i = i + 1;
    }
    proof {
        assert(v@.take(v@.len() as int) =~= v@);
    }
    r
}

/// Walks the rank range `[start, end)`: seeds the first melody by
/// unranking, steps through successors, appends each melody's
/// externally-supplied payload under its rank's name, and finishes the
/// backend.
pub fn write_melodies_to_backend(
    pool: &Vec<u8>,
    length: u32,
    start: u64,
    end: u64,
    payloads: &Vec<Vec<u8>>,
    backend: &mut StorageBackend,
) -> (r: Result<(), StorageError>)
    requires
        canonical_pool(pool@),
        start <= end,
        end as nat <= falling_factorial(pool@.len(), length as nat),
        falling_factorial(pool@.len(), length as nat) <= u64::MAX,
        payloads@.len() == end - start,
        old(backend).wf(),
        !old(backend).is_finished(),
        old(backend).entries().len() + (end - start) < u64::MAX,
    ensures
        match r {
            Ok(()) => {
                &&& final(backend).wf()
                &&& final(backend).is_finished()
                &&& old(backend).same_config(*final(backend))
                &&& final(backend).entries() == old(backend).entries() + melody_entries(
                    start as nat,
                    payload_views(payloads@),
                )
            },
            Err(_) => false,
        },
{
    let ghost init_entries = old(backend).entries();
    let ghost b0 = *backend;
    let total = end - start;
    if total == 0 {
        let fr = backend.finish();
        match fr {
            Ok(()) => {
                proof {
                    assert(init_entries + melody_entries(start as nat, payload_views(payloads@))
                        =~= init_entries);
                }
                Ok(())
            },
            Err(e) => {
                proof {
                    assert(false);
                }
                Err(e)
            },
        }
    } else {
        proof {
            if (length as nat) > pool@.len() {
                crate::counting::lemma_ff_zero(pool@.len(), length as nat);
            }
        }
        let payload_count = payloads.len();
        let first = unrank(pool, length, start);
        let mut m = match first {
            Ok(v) => v,
            Err(e) => {
                proof {
                    assert(false);
                }
                return Err(StorageError::AppendAfterFinish);
            },
        };
        let mut idx: u64 = 0;
        while idx < total
            invariant
                canonical_pool(pool@),
                length <= pool@.len(),
                total == end - start,
                start <= end,
                end as nat <= falling_factorial(pool@.len(), length as nat),
                falling_factorial(pool@.len(), length as nat) <= u64::MAX,
                payloads@.len() == total,
                payload_count == payloads@.len(),
                idx <= total,
                idx < total ==> {
                    &&& valid_melody(pool@, m@)
                    &&& m@.len() == length
                    &&& rank_of(pool@, m@) == start + idx
                },
                backend.wf(),
                !backend.is_finished(),
                b0.same_config(*backend),
                backend.entries().len() == init_entries.len() + idx,
                backend.entries() == init_entries + melody_entries(
                    start as nat,
                    payload_views(payloads@).take(idx as int),
                ),
                init_entries.len() + total < u64::MAX,
            decreases total - idx,
        {
            let rank = start + idx;
            let name = melody_name(rank);
            let payload = copy_payload(&payloads[idx as usize]);
            proof {
                lemma_melody_name_valid(rank);
            }
            let ghost nv = name@;
            let ghost pv = payload@;
            let ghost before_entries = backend.entries();
            let ar = backend.append_melody(name, payload);
            match ar {
                Ok(()) => {},
                Err(e) => {
                    proof {
                        assert(false);
                    }
                    return Err(e);
                },
            }
            proof {
                let views = payload_views(payloads@);
                let e = (melody_name_spec((start + idx) as nat), views[idx as int]);
                assert(backend.entries() == before_entries.push((nv, pv)));
                assert(nv == melody_name_spec((start + idx) as nat));
                assert(pv == views[idx as int]);
                assert((nv, pv) == e);
                assert(views[idx as int] == payloads@[idx as int]@);
                assert(melody_entries(start as nat, views.take(idx as int + 1))
                    =~= melody_entries(start as nat, views.take(idx as int)).push(e));
                assert(init_entries + melody_entries(start as nat, views.take(idx as int)).push(e)
                    =~= (init_entries + melody_entries(start as nat, views.take(idx as int))).push(
                    e,
                ));
                assert(backend.entries() =~= init_entries + melody_entries(
                    start as nat,
                    views.take(idx + 1),
                ));
            }
            if idx + 1 < total {
                let next = successor(pool, &m);
                match next {
                    Some(x) => {
                        m = x;
                    },
                    None => {
                        proof {
                            assert(false);
                        }
                        return Err(StorageError::AppendAfterFinish);
                    },
                }
            }
            idx = idx + 1;
        }
        let fr = backend.finish();
        match fr {
            Ok(()) => {
                proof {
                    assert(payload_views(payloads@).take(total as int) =~= payload_views(
                        payloads@,
                    ));
                }
                Ok(())
            },
            Err(e) => {
                proof {
                    assert(false);
                }
                Err(e)
            },
        }
    }
}

/// First rank of the run: the partition's start, or zero.
pub open spec fn range_start(p: Option<MelodyPartition>, count: nat) -> nat {
    match p {
        Some(x) => x.start as nat,
        None => 0,
    }
}

/// One-past-last rank of the run: the partition's end, or the count.
pub open spec fn range_end(p: Option<MelodyPartition>, count: nat) -> nat {
    match p {
        Some(x) => x.end as nat,
        None => count,
    }
}

/// A partition override must lie inside the space.
pub open spec fn range_ok(p: Option<MelodyPartition>, count: nat) -> bool {
    range_start(p, count) <= range_end(p, count) <= count
}

/// What every generation run requires of its inputs: a canonical pool,
/// a range inside the space, and one payload per rank of the range,
/// fewer than `u64::MAX` in all.
pub open spec fn gen_inputs_ok(
    pool: Seq<u8>,
    length: nat,
    p: Option<MelodyPartition>,
    payloads: Seq<Vec<u8>>,
) -> bool {
    let count = falling_factorial(pool.len(), length);
    &&& canonical_pool(pool)
    &&& (count <= u64::MAX ==> {
        &&& range_ok(p, count)
        &&& payloads.len() == range_end(p, count) - range_start(p, count)
        &&& payloads.len() < u64::MAX
    })
}

/// Configuration of a run that writes each melody to its own file.
pub struct GenSingleDirective {
    pub pool: Vec<u8>,
    pub length: u32,
    pub partition: Option<MelodyPartition>,
}

/// Configuration of a run that writes one tar archive.
pub struct GenTarDirective {
    pub pool: Vec<u8>,
    pub length: u32,
    pub partition: Option<MelodyPartition>,
}

/// Configuration of a run that writes one gzip-compressed tar archive.
pub struct GenTarGzDirective {
    pub pool: Vec<u8>,
    pub length: u32,
    pub partition: Option<MelodyPartition>,
    pub level: u32,
}

/// Configuration of a run that writes batches of gzip-compressed tar
/// streams into an outer tar archive.
pub struct GenBatchDirective {
    pub pool: Vec<u8>,
    pub length: u32,
    pub partition: Option<MelodyPartition>,
    pub level: u32,
    pub batch_size: usize,
}

/// The generation strategies, as a caller selects them.
pub enum GenDirective {
    GenBatch(GenBatchDirective),
    GenSingle(GenSingleDirective),
    GenTar(GenTarDirective),
    GenTarGz(GenTarGzDirective),
}

/// Runs one strategy over the configured range, handing each rank's
/// payload to the chosen backend.
fn run_backend(
    pool: &Vec<u8>,
    length: u32,
    partition: Option<MelodyPartition>,
    payloads: &Vec<Vec<u8>>,
    backend: &mut StorageBackend,
) -> (r: Result<u64, AtmError>)
    requires
        gen_inputs_ok(pool@, length as nat, partition, payloads@),
        old(backend).wf(),
        !old(backend).is_finished(),
        old(backend).entries() == Seq::<(Seq<u8>, Seq<u8>)>::empty(),
    ensures
        match r {
            Ok(start) => {
                &&& falling_factorial(pool@.len(), length as nat) <= u64::MAX
                &&& start == range_start(
                    partition,
                    falling_factorial(pool@.len(), length as nat),
                )
                &&& final(backend).wf()
                &&& final(backend).is_finished()
                &&& old(backend).same_config(*final(backend))
                &&& final(backend).entries() == melody_entries(
                    start as nat,
                    payload_views(payloads@),
                )
            },
            Err(e) => {
                &&& e == AtmError::Overflow
                &&& falling_factorial(pool@.len(), length as nat) > u64::MAX
                &&& *final(backend) == *old(backend)
            },
        },
{
    proof {
        crate::engine::lemma_canonical_len(pool@);
    }
    let count = match crate::counting::gen_num_melodies(pool.len() as u32, length) {
        Ok(c) => c,
        Err(e) => {
            return Err(e);
        },
    };
    let (start, end) = match partition {
        Some(p) => (p.start, p.end),
        None => (0u64, count),
    };
    let wr = write_melodies_to_backend(pool, length, start, end, payloads, backend);
    match wr {
        Ok(()) => {
            proof {
                assert(Seq::<(Seq<u8>, Seq<u8>)>::empty() + melody_entries(
                    start as nat,
                    payload_views(payloads@),
                ) =~= melody_entries(start as nat, payload_views(payloads@)));
            }
            Ok(start)
        },
        Err(_) => {
            proof {
                assert(false);
            }
            Err(AtmError::Overflow)
        },
    }
}

impl GenDirective {
    /// The inputs the selected strategy asks for.
    pub open spec fn inputs_ok(self, payloads: Seq<Vec<u8>>) -> bool {
        match self {
            GenDirective::GenBatch(d) => gen_inputs_ok(d.pool@, d.length as nat, d.partition, payloads)
                && d.batch_size >= 1,
            GenDirective::GenSingle(d) => gen_inputs_ok(d.pool@, d.length as nat, d.partition, payloads),
            GenDirective::GenTar(d) => gen_inputs_ok(d.pool@, d.length as nat, d.partition, payloads),
            GenDirective::GenTarGz(d) => gen_inputs_ok(d.pool@, d.length as nat, d.partition, payloads),
        }
    }

    /// Routes the run to the selected storage strategy.
    pub fn run(self, payloads: &Vec<Vec<u8>>) -> (r: Result<GenOutput, AtmError>)
        requires
            self.inputs_ok(payloads@),
        ensures
            match r {
                Ok(out) => match (self, out) {
                    (GenDirective::GenSingle(d), GenOutput::Files(fs)) => Seq::new(
                        fs@.len(),
                        |i: int| (fs@[i].0@, fs@[i].1@),
                    ) == melody_entries(
                        range_start(
                            d.partition,
                            falling_factorial(d.pool@.len(), d.length as nat),
                        ),
                        payload_views(payloads@),
                    ),
                    (GenDirective::GenTar(d), GenOutput::Archive(v)) => v@
                        == crate::storage::archive_bytes(
                        melody_entries(
                            range_start(
                                d.partition,
                                falling_factorial(d.pool@.len(), d.length as nat),
                            ),
                            payload_views(payloads@),
                        ),
                    ),
                    (GenDirective::GenTarGz(d), GenOutput::Archive(v)) => d.level <= 9 && v@
                        == crate::storage::gzip_of(
                        crate::storage::archive_bytes(
                            melody_entries(
                                range_start(
                                    d.partition,
                                    falling_factorial(d.pool@.len(), d.length as nat),
                                ),
                                payload_views(payloads@),
                            ),
                        ),
                        d.level as nat,
                    ),
                    (GenDirective::GenBatch(d), GenOutput::Archive(v)) => d.level <= 9 && v@
                        == crate::storage::archive_bytes(
                        crate::storage::batch_entries(
                            melody_entries(
                                range_start(
                                    d.partition,
                                    falling_factorial(d.pool@.len(), d.length as nat),
                                ),
                                payload_views(payloads@),
                            ),
                            d.batch_size as nat,
                            d.level as nat,
                        ),
                    ),
                    _ => false,
                },
                Err(AtmError::Overflow) => match self {
                    GenDirective::GenBatch(d) => falling_factorial(d.pool@.len(), d.length as nat)
                        > u64::MAX,
                    GenDirective::GenSingle(d) => falling_factorial(d.pool@.len(), d.length as nat)
                        > u64::MAX,
                    GenDirective::GenTar(d) => falling_factorial(d.pool@.len(), d.length as nat)
                        > u64::MAX,
                    GenDirective::GenTarGz(d) => falling_factorial(d.pool@.len(), d.length as nat)
                        > u64::MAX,
                },
                Err(AtmError::InvalidCompressionLevel) => match self {
                    GenDirective::GenBatch(d) => d.level > 9,
                    GenDirective::GenTarGz(d) => d.level > 9,
                    _ => false,
                },
                _ => false,
            },
    {
        match self {
            GenDirective::GenSingle(d) => {
                let mut backend = StorageBackend::Single(SingleFileBackend::new());
                run_backend(&d.pool, d.length, d.partition, payloads, &mut backend)?;
                proof {
                    crate::storage::lemma_finished_container(backend);
                }
                Ok(backend.into_output())
            },
            GenDirective::GenTar(d) => {
                let mut backend = StorageBackend::Tar(TarBackend::new());
                run_backend(&d.pool, d.length, d.partition, payloads, &mut backend)?;
                proof {
                    crate::storage::lemma_finished_container(backend);
                }
                Ok(backend.into_output())
            },
            GenDirective::GenTarGz(d) => {
                if d.level > 9 {
                    return Err(AtmError::InvalidCompressionLevel);
                }
                let mut backend = StorageBackend::TarGz(TarGzBackend::new(d.level));
                run_backend(&d.pool, d.length, d.partition, payloads, &mut backend)?;
                proof {
                    crate::storage::lemma_finished_container(backend);
                }
                Ok(backend.into_output())
            },
            GenDirective::GenBatch(d) => {
                if d.level > 9 {
                    return Err(AtmError::InvalidCompressionLevel);
                }
                let mut backend = StorageBackend::Batch(BatchBackend::new(d.batch_size, d.level));
                run_backend(&d.pool, d.length, d.partition, payloads, &mut backend)?;
                proof {
                    crate::storage::lemma_finished_container(backend);
                }
                Ok(backend.into_output())
            },
        }
    }
}

} // verus!

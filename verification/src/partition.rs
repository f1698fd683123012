use vstd::prelude::*;
use vstd::arithmetic::div_mod::lemma_fundamental_div_mod;
use vstd::arithmetic::mul::lemma_mul_inequality;
use vstd::arithmetic::mul::lemma_mul_is_distributive_add_other_way;
use crate::counting::falling_factorial;
use crate::counting::gen_num_melodies;
use crate::errors::AtmError;

verus! {

/// A half-open rank range `[start, end)` handed to one independent worker.
#[derive(Clone, Copy, Debug, PartialEq, Eq, Structural)]
pub struct MelodyPartition {
    pub start: u64,
    pub end: u64,
}

/// Rank at which partition `i` of `num` begins when `count` ranks are
/// tiled ceiling-first: the first `count % num` partitions take one
/// extra rank each.
pub open spec fn partition_boundary(count: nat, num: nat, i: nat) -> nat {
    i * (count / num) + if i <= count % num {
        i
    } else {
        count % num
    }
}

/// Tiling law: the boundaries start at zero, end at `count`, never step
/// backwards, and each partition's size is `floor(count / num)`, plus one
/// for the first `count % num` partitions.
pub proof fn lemma_partition_tiling(count: nat, num: nat, i: nat)
    requires
        num >= 1,
        i < num,
    ensures
        partition_boundary(count, num, 0) == 0,
        partition_boundary(count, num, num) == count,
        partition_boundary(count, num, i) <= partition_boundary(count, num, i + 1),
        partition_boundary(count, num, i + 1) - partition_boundary(count, num, i) == count / num
            + if i < count % num {
            1nat
        } else {
            0nat
        },
        partition_boundary(count, num, i + 1) <= count,
{
    let base = count / num;
    let rem = count % num;
    lemma_fundamental_div_mod(count as int, num as int);
    assert(count == num * base + rem);
    lemma_mul_is_distributive_add_other_way(base as int, i as int, 1);
    assert((i + 1) * base == i * base + base);
    lemma_mul_inequality((i + 1) as int, num as int, base as int);
    assert((i + 1) * base <= num * base);
    lemma_mul_inequality(0, num as int, base as int);
    assert(num * base == base * num) by (nonlinear_arith);
    assert(partition_boundary(count, num, num) == count) by {
        assert(rem < num);
        assert(partition_boundary(count, num, num) == num * base + rem);
    }
}

/// Divides the space of `(n, length)` melodies into `num_partitions`
/// contiguous ranges laid out in increasing rank order.
pub fn partition(n: u32, length: u32, num_partitions: u32) -> (r: Result<
    Vec<MelodyPartition>,
    AtmError,
>)
    requires
        num_partitions >= 1,
    ensures
        match r {
            Ok(parts) => {
                let count = falling_factorial(n as nat, length as nat);
                &&& count <= u64::MAX
                &&& parts@.len() == num_partitions
                &&& forall|i: int|
                    0 <= i < parts@.len() ==> (#[trigger] parts@[i]).start == partition_boundary(
                        count,
                        num_partitions as nat,
                        i as nat,
                    ) && parts@[i].end == partition_boundary(
                        count,
                        num_partitions as nat,
                        (i + 1) as nat,
                    )
            },
            Err(e) => {
                &&& e == AtmError::Overflow
                &&& falling_factorial(n as nat, length as nat) > u64::MAX
            },
        },
{
    let count = match gen_num_melodies(n, length) {
        Ok(c) => c,
        Err(e) => {
            return Err(e);
        },
    };
    let base = count / (num_partitions as u64);
    let rem = count % (num_partitions as u64);
    let ghost total = falling_factorial(n as nat, length as nat);
    let mut parts: Vec<MelodyPartition> = Vec::new();
    let mut start: u64 = 0;
    let mut i: u32 = 0;
    while i < num_partitions
        invariant
            i <= num_partitions,
            num_partitions >= 1,
            count == total,
            total <= u64::MAX,
            base == total / (num_partitions as nat),
            rem == total % (num_partitions as nat),
            parts@.len() == i,
            start == partition_boundary(total, num_partitions as nat, i as nat),
            forall|j: int|
                0 <= j < parts@.len() ==> (#[trigger] parts@[j]).start == partition_boundary(
                    total,
                    num_partitions as nat,
                    j as nat,
                ) && parts@[j].end == partition_boundary(
                    total,
                    num_partitions as nat,
                    (j + 1) as nat,
                ),
        decreases num_partitions - i,
    {
        proof {
            lemma_partition_tiling(total, num_partitions as nat, i as nat);
        }
        let size = if (i as u64) < rem {
            base + 1
        } else {
            base
        };
        let end = start + size;
        parts.push(MelodyPartition { start, end });
        start = end;
        i = i + 1;
    }
    Ok(parts)
}

} // verus!

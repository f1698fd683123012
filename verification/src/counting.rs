use vstd::prelude::*;
use vstd::arithmetic::mul::lemma_mul_is_associative;
use crate::errors::AtmError;

verus! {

/// Size of the enumeration space: the falling factorial
/// `n * (n - 1) * ... * (n - l + 1)`, the number of ordered,
/// non-repeating length-`l` sequences drawn from `n` distinct symbols.
pub open spec fn falling_factorial(n: nat, l: nat) -> nat
    decreases l,
{
    if l == 0 {
        1
    } else {
        n * falling_factorial((n - 1) as nat, (l - 1) as nat)
    }
}

/// A space with no more positions to fill than symbols holds at least one melody.
pub proof fn lemma_ff_pos(n: nat, l: nat)
    requires
        l <= n,
    ensures
        falling_factorial(n, l) >= 1,
    decreases l,
{
    if l > 0 {
        lemma_ff_pos((n - 1) as nat, (l - 1) as nat);
        let f = falling_factorial((n - 1) as nat, (l - 1) as nat);
        assert(n * f >= 1) by (nonlinear_arith)
            requires
                n >= 1,
                f >= 1,
        ;
    }
}

/// Asking for more positions than there are symbols leaves an empty space.
pub proof fn lemma_ff_zero(n: nat, l: nat)
    requires
        l > n,
    ensures
        falling_factorial(n, l) == 0,
    decreases l,
{
    if n > 0 {
        lemma_ff_zero((n - 1) as nat, (l - 1) as nat);
        assert(falling_factorial(n, l) == n * falling_factorial((n - 1) as nat, (l - 1) as nat));
    } else {
        let f = falling_factorial((n - 1) as nat, (l - 1) as nat);
        assert(falling_factorial(n, l) == n * f);
        assert(n * f == 0) by (nonlinear_arith)
            requires
                n == 0,
        ;
    }
}

/// The first `i` factors of the product can be split off:
/// `ff(n, l) == ff(n, i) * ff(n - i, l - i)`.
pub proof fn lemma_ff_split(n: nat, i: nat, l: nat)
    requires
        i <= l,
        l <= n,
    ensures
        falling_factorial(n, l) == falling_factorial(n, i) * falling_factorial(
            (n - i) as nat,
            (l - i) as nat,
        ),
    decreases i,
{
    if i == 0 {
        assert(falling_factorial(n, 0) == 1);
    } else {
        lemma_ff_split((n - 1) as nat, (i - 1) as nat, (l - 1) as nat);
        let a = falling_factorial((n - 1) as nat, (i - 1) as nat);
        let b = falling_factorial((n - i) as nat, (l - i) as nat);
        lemma_mul_is_associative(n as int, a as int, b as int);
    }
}

/// Counts the melodies of length `length` over `n` distinct notes,
/// detecting overflow instead of wrapping.
pub fn gen_num_melodies(n: u32, length: u32) -> (r: Result<u64, AtmError>)
    ensures
        match r {
            Ok(c) => c == falling_factorial(n as nat, length as nat),
            Err(e) => {
                &&& e == AtmError::Overflow
                &&& falling_factorial(n as nat, length as nat) > u64::MAX
            },
        },
{
    if length > n {
        proof {
            lemma_ff_zero(n as nat, length as nat);
        }
        return Ok(0);
    }
    let mut acc: u64 = 1;
    let mut i: u32 = 0;
    while i < length
        invariant
            i <= length <= n,
            acc == falling_factorial(n as nat, i as nat),
        decreases length - i,
    {
        let factor = (n - i) as u64;
        proof {
            lemma_ff_split(n as nat, i as nat, (i + 1) as nat);
            let a = falling_factorial(n as nat, i as nat);
            let m: nat = (n - i) as nat;
            let b = falling_factorial(m, 1nat);
            let f = falling_factorial((m - 1) as nat, 0nat);
            assert(b == m * f);
            assert(f == 1);
            assert(b == m) by (nonlinear_arith)
                requires
                    b == m * f,
                    f == 1,
            ;
            assert(falling_factorial(n as nat, (i + 1) as nat) == a * b);
        }
        match acc.checked_mul(factor) {
            Some(next) => {
                acc = next;
            },
            None => {
                proof {
                    lemma_ff_split(n as nat, (i + 1) as nat, length as nat);
                    lemma_ff_pos((n - i - 1) as nat, (length - i - 1) as nat);
                    let a = falling_factorial(n as nat, (i + 1) as nat);
                    let b = falling_factorial((n - i - 1) as nat, (length - i - 1) as nat);
                    assert(a * b >= a) by (nonlinear_arith)
                        requires
                            b >= 1,
                            a >= 0,
                    ;
                }
                return Err(AtmError::Overflow);
            },
        }
        i = i + 1;
    }
    Ok(acc)
}

} // verus!

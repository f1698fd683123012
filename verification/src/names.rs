use vstd::prelude::*;
use vstd::arithmetic::div_mod::lemma_multiply_divide_lt;

verus! {

/// Powers of ten, for bounding the width of a decimal numeral.
pub open spec fn pow10(k: nat) -> nat
    decreases k,
{
    if k == 0 {
        1
    } else {
        10 * pow10((k - 1) as nat)
    }
}

/// Powers of ten grow with the exponent.
pub proof fn lemma_pow10_increases(a: nat, b: nat)
    requires
        a <= b,
    ensures
        pow10(a) <= pow10(b),
    decreases b,
{
    if a < b {
        lemma_pow10_increases(a, (b - 1) as nat);
    }
}

/// The decimal numeral of `n` as ASCII bytes, most significant first.
pub open spec fn decimal_spec(n: nat) -> Seq<u8>
    decreases n,
{
    if n < 10 {
        seq![(48 + n) as u8]
    } else {
        decimal_spec(n / 10).push((48 + n % 10) as u8)
    }
}

/// A numeral below `10^k` has at most `k` digits.
pub proof fn lemma_decimal_len(n: nat, k: nat)
    requires
        k >= 1,
        n < pow10(k),
    ensures
        1 <= decimal_spec(n).len() <= k,
    decreases k,
{
    if n >= 10 {
        assert(pow10(k) == 10 * pow10((k - 1) as nat));
        lemma_multiply_divide_lt(n as int, 10, pow10((k - 1) as nat) as int);
        if k == 1 {
            assert(pow10(1nat) == 10 * pow10(0nat));
            assert(pow10(0nat) == 1);
        }
        lemma_decimal_len(n / 10, (k - 1) as nat);
    }
}

/// Every byte of a decimal numeral is an ASCII digit.
pub proof fn lemma_decimal_digits(n: nat)
    ensures
        forall|i: int|
            0 <= i < decimal_spec(n).len() ==> 48 <= #[trigger] decimal_spec(n)[i] <= 57,
    decreases n,
{
    if n >= 10 {
        lemma_decimal_digits(n / 10);
        let prefix = decimal_spec(n / 10);
        assert forall|i: int| 0 <= i < decimal_spec(n).len() implies 48 <= #[trigger] decimal_spec(
            n,
        )[i] <= 57 by {
            if i < prefix.len() {
                assert(decimal_spec(n)[i] == prefix[i]);
            } else {
                assert(decimal_spec(n)[i] == (48 + n % 10) as u8);
            }
        }
    }
}

/// Writes the decimal numeral of `n`.
pub fn decimal_bytes(n: u64) -> (r: Vec<u8>)
    ensures
        r@ == decimal_spec(n as nat),
    decreases n,
{
    if n < 10 {
        let mut r: Vec<u8> = Vec::new();
        r.push(48 + (n as u8));
        proof {
            assert(r@ =~= decimal_spec(n as nat));
        }
        r
    } else {
        let mut r = decimal_bytes(n / 10);
        r.push(48 + ((n % 10) as u8));
        proof {
            assert(r@ =~= decimal_spec(n as nat));
        }
        r
    }
}

/// Name of the archive entry holding the melody at `rank`:
/// `m<rank>.mid`.
pub open spec fn melody_name_spec(rank: nat) -> Seq<u8> {
    seq![109u8] + decimal_spec(rank) + seq![46u8, 109u8, 105u8, 100u8]
}

/// Name of the archive entry holding batch number `idx`:
/// `b<idx>.tar.gz`.
pub open spec fn batch_name_spec(idx: nat) -> Seq<u8> {
    seq![98u8] + decimal_spec(idx) + seq![46u8, 116u8, 97u8, 114u8, 46u8, 103u8, 122u8]
}

/// Twenty digits cover every `u64` numeral.
pub proof fn lemma_u64_decimal_len(n: u64)
    ensures
        1 <= decimal_spec(n as nat).len() <= 20,
{
    assert(pow10(20) > u64::MAX) by {
        reveal_with_fuel(pow10, 21);
    }
    lemma_decimal_len(n as nat, 20);
}

/// Builds the melody entry name for a rank.
pub fn melody_name(rank: u64) -> (r: Vec<u8>)
    ensures
        r@ == melody_name_spec(rank as nat),
{
    let mut r: Vec<u8> = Vec::new();
    r.push(109);
    let digits = decimal_bytes(rank);
    let mut i: usize = 0;
    while i < digits.len()
        invariant
            i <= digits@.len(),
            digits@ == decimal_spec(rank as nat),
            r@ == seq![109u8] + digits@.take(i as int),
        decreases digits@.len() - i,
    {
        r.push(digits[i]);
        proof {
            assert(r@ =~= seq![109u8] + digits@.take(i + 1));
        }
        i = i + 1;
    }
    r.push(46);
    r.push(109);
    r.push(105);
    r.push(100);
    proof {
        assert(digits@.take(digits@.len() as int) =~= digits@);
        assert(r@ =~= melody_name_spec(rank as nat));
    }
    r
}

/// Builds the batch entry name for a batch number.
pub fn batch_name(idx: u64) -> (r: Vec<u8>)
    ensures
        r@ == batch_name_spec(idx as nat),
{
    let mut r: Vec<u8> = Vec::new();
    r.push(98);
    let digits = decimal_bytes(idx);
    let mut i: usize = 0;
    while i < digits.len()
        invariant
            i <= digits@.len(),
            digits@ == decimal_spec(idx as nat),
            r@ == seq![98u8] + digits@.take(i as int),
        decreases digits@.len() - i,
    {
        r.push(digits[i]);
        proof {
            assert(r@ =~= seq![98u8] + digits@.take(i + 1));
        }
        i = i + 1;
    }
    r.push(46);
    r.push(116);
    r.push(97);
    r.push(114);
    r.push(46);
    r.push(103);
    r.push(122);
    proof {
        assert(digits@.take(digits@.len() as int) =~= digits@);
        assert(r@ =~= batch_name_spec(idx as nat));
    }
    r
}

/// Melody and batch names fit the tar name field and use only
/// printable ASCII, so any rank can be appended.
pub proof fn lemma_melody_name_valid(rank: u64)
    ensures
        crate::storage::valid_entry_name(melody_name_spec(rank as nat)),
{
    lemma_u64_decimal_len(rank);
    lemma_decimal_digits(rank as nat);
}

/// Batch names are valid entry names for every batch number.
pub proof fn lemma_batch_name_valid(idx: u64)
    ensures
        crate::storage::valid_entry_name(batch_name_spec(idx as nat)),
{
    lemma_u64_decimal_len(idx);
    lemma_decimal_digits(idx as nat);
}

} // verus!

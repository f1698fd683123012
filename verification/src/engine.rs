use vstd::prelude::*;
use vstd::arithmetic::div_mod::lemma_fundamental_div_mod;
use vstd::arithmetic::div_mod::lemma_fundamental_div_mod_converse;
use vstd::arithmetic::div_mod::lemma_multiply_divide_lt;
use vstd::arithmetic::mul::lemma_mul_inequality;
use vstd::arithmetic::mul::lemma_mul_is_distributive_add_other_way;
use crate::counting::falling_factorial;
use crate::counting::lemma_ff_pos;
use crate::counting::lemma_ff_zero;
use crate::counting::gen_num_melodies;
use crate::errors::AtmError;

verus! {

/// The note pool's canonical form: strictly ascending, hence duplicate-free.
pub open spec fn canonical_pool(pool: Seq<u8>) -> bool {
    forall|i: int, j: int| 0 <= i < j < pool.len() ==> pool[i] < pool[j]
}

/// A melody draws pairwise-distinct symbols from the pool.
pub open spec fn valid_melody(pool: Seq<u8>, m: Seq<u8>) -> bool {
    &&& forall|i: int| 0 <= i < m.len() ==> pool.contains(#[trigger] m[i])
    &&& forall|i: int, j: int| 0 <= i < j < m.len() ==> m[i] != m[j]
}

/// Index of the first occurrence of `x` in `pool`.
pub open spec fn pos_of(pool: Seq<u8>, x: u8) -> nat
    decreases pool.len(),
{
    if pool.len() == 0 {
        0
    } else if pool[0] == x {
        0
    } else {
        1 + pos_of(pool.drop_first(), x)
    }
}

/// The melody at position `r` of the lexicographic enumeration of
/// length-`l` melodies over `pool`: the factorial-number-system
/// decomposition of `r` picks one remaining candidate per position.
pub open spec fn unrank_spec(pool: Seq<u8>, l: nat, r: nat) -> Seq<u8>
    decreases l,
{
    if l == 0 || pool.len() == 0 {
        Seq::empty()
    } else {
        let d = falling_factorial((pool.len() - 1) as nat, (l - 1) as nat);
        let i = r / d;
        seq![pool[i as int]] + unrank_spec(pool.remove(i as int), (l - 1) as nat, r % d)
    }
}

/// Position of a melody in the lexicographic enumeration: the inverse
/// of `unrank_spec`.
pub open spec fn rank_of(pool: Seq<u8>, m: Seq<u8>) -> nat
    decreases m.len(),
{
    if m.len() == 0 || pool.len() == 0 {
        0
    } else {
        let i = pos_of(pool, m[0]);
        i * falling_factorial((pool.len() - 1) as nat, (m.len() - 1) as nat) + rank_of(
            pool.remove(i as int),
            m.drop_first(),
        )
    }
}

/// Strictly ascending order pins each element to its index.
pub proof fn lemma_pos_of_index(pool: Seq<u8>, i: int)
    requires
        canonical_pool(pool),
        0 <= i < pool.len(),
    ensures
        pos_of(pool, pool[i]) == i,
    decreases i,
{
    if i > 0 {
        assert(pool[0] < pool[i]);
        assert(canonical_pool(pool.drop_first()));
        assert(pool.drop_first()[i - 1] == pool[i]);
        lemma_pos_of_index(pool.drop_first(), i - 1);
    }
}

/// `pos_of` finds a contained element.
pub proof fn lemma_pos_of_contains(pool: Seq<u8>, x: u8)
    requires
        pool.contains(x),
    ensures
        pos_of(pool, x) < pool.len(),
        pool[pos_of(pool, x) as int] == x,
    decreases pool.len(),
{
    if pool.len() > 0 && pool[0] != x {
        let k = choose|k: int| 0 <= k < pool.len() && pool[k] == x;
        assert(pool.drop_first()[k - 1] == pool[k]);
        assert(pool.drop_first().contains(x));
        lemma_pos_of_contains(pool.drop_first(), x);
    }
}

/// A scan that found `x` at `j` with nothing equal before it found `pos_of`.
pub proof fn lemma_pos_of_first(pool: Seq<u8>, x: u8, j: int)
    requires
        0 <= j < pool.len(),
        pool[j] == x,
        forall|k: int| 0 <= k < j ==> pool[k] != x,
    ensures
        pos_of(pool, x) == j,
    decreases j,
{
    if j > 0 {
        assert(pool.drop_first()[j - 1] == pool[j]);
        assert(forall|k: int| 0 <= k < j - 1 ==> pool.drop_first()[k] == pool[k + 1]);
        lemma_pos_of_first(pool.drop_first(), x, j - 1);
    }
}

/// Removing an element keeps the pool canonical.
pub proof fn lemma_remove_canonical(pool: Seq<u8>, i: int)
    requires
        canonical_pool(pool),
        0 <= i < pool.len(),
    ensures
        canonical_pool(pool.remove(i)),
{
    pool.remove_ensures(i);
}

/// Membership after removal: everything but the removed element, which
/// ascending order makes unique, stays.
pub proof fn lemma_remove_contains(pool: Seq<u8>, i: int, x: u8)
    requires
        canonical_pool(pool),
        0 <= i < pool.len(),
    ensures
        pool.remove(i).contains(x) <==> (pool.contains(x) && x != pool[i]),
{
    pool.remove_ensures(i);
    if pool.contains(x) && x != pool[i] {
        let k = choose|k: int| 0 <= k < pool.len() && pool[k] == x;
        if k < i {
            assert(pool.remove(i)[k] == pool[k]);
        } else {
            assert(k > i);
            assert(pool.remove(i)[k - 1] == pool[k]);
        }
    }
    if pool.remove(i).contains(x) {
        let k = choose|k: int| 0 <= k < pool.remove(i).len() && pool.remove(i)[k] == x;
        if k < i {
            assert(pool[k] == x && pool[k] != pool[i]);
        } else {
            assert(pool[k + 1] == x && pool[k + 1] != pool[i]);
        }
    }
}

/// Unranking yields a well-formed melody of the requested length whose
/// rank is exactly the requested one.
pub proof fn lemma_unrank_props(pool: Seq<u8>, l: nat, r: nat)
    requires
        canonical_pool(pool),
        l <= pool.len(),
        r < falling_factorial(pool.len(), l),
    ensures
        unrank_spec(pool, l, r).len() == l,
        valid_melody(pool, unrank_spec(pool, l, r)),
        rank_of(pool, unrank_spec(pool, l, r)) == r,
    decreases l,
{
    if l == 0 {
        assert(unrank_spec(pool, l, r) =~= Seq::<u8>::empty());
    } else {
        let n = pool.len();
        let d = falling_factorial((n - 1) as nat, (l - 1) as nat);
        lemma_ff_pos((n - 1) as nat, (l - 1) as nat);
        assert(falling_factorial(n, l) == n * d);
        assert(n * d == d * n) by (nonlinear_arith);
        lemma_multiply_divide_lt(r as int, d as int, n as int);
        let i = r / d;
        assert(i < n);
        lemma_fundamental_div_mod(r as int, d as int);
        let pool2 = pool.remove(i as int);
        lemma_remove_canonical(pool, i as int);
        pool.remove_ensures(i as int);
        lemma_unrank_props(pool2, (l - 1) as nat, r % d);
        let rest = unrank_spec(pool2, (l - 1) as nat, r % d);
        let m = unrank_spec(pool, l, r);
        assert(m == seq![pool[i as int]] + rest);
        assert(m.len() == l);
        assert(m[0] == pool[i as int]);
        assert(m.drop_first() =~= rest);
        assert forall|j: int| 0 <= j < m.len() implies pool.contains(#[trigger] m[j]) by {
            if j == 0 {
                assert(pool[i as int] == pool[i as int]);
            } else {
                assert(pool2.contains(rest[j - 1]));
                lemma_remove_contains(pool, i as int, rest[j - 1]);
            }
        }
        assert forall|j: int, k: int| 0 <= j < k < m.len() implies m[j] != m[k] by {
            if j == 0 {
                assert(pool2.contains(rest[k - 1]));
                lemma_remove_contains(pool, i as int, rest[k - 1]);
            }
        }
        lemma_pos_of_index(pool, i as int);
        assert(rank_of(pool, m) == i * d + rank_of(pool2, rest));
        assert(i * d == d * i) by (nonlinear_arith);
    }
}

/// Ranking is the inverse of unranking: every well-formed melody sits
/// at a rank inside the space, and unranking that rank returns it.
pub proof fn lemma_rank_unrank(pool: Seq<u8>, m: Seq<u8>)
    requires
        canonical_pool(pool),
        valid_melody(pool, m),
        m.len() <= pool.len(),
    ensures
        rank_of(pool, m) < falling_factorial(pool.len(), m.len()),
        unrank_spec(pool, m.len(), rank_of(pool, m)) == m,
    decreases m.len(),
{
    if m.len() == 0 {
        assert(unrank_spec(pool, 0, 0) =~= m);
    } else {
        let n = pool.len();
        let l = m.len();
        let x = m[0];
        assert(pool.contains(x));
        lemma_pos_of_contains(pool, x);
        let i = pos_of(pool, x);
        let d = falling_factorial((n - 1) as nat, (l - 1) as nat);
        lemma_ff_pos((n - 1) as nat, (l - 1) as nat);
        let pool2 = pool.remove(i as int);
        lemma_remove_canonical(pool, i as int);
        pool.remove_ensures(i as int);
        assert forall|j: int| 0 <= j < m.drop_first().len() implies pool2.contains(
            #[trigger] m.drop_first()[j],
        ) by {
            assert(m.drop_first()[j] == m[j + 1]);
            assert(pool.contains(m[j + 1]));
            assert(m[0] != m[j + 1]);
            lemma_remove_contains(pool, i as int, m[j + 1]);
        }
        lemma_rank_unrank(pool2, m.drop_first());
        let r2 = rank_of(pool2, m.drop_first());
        let r = rank_of(pool, m);
        assert(r == i * d + r2);
        assert(falling_factorial(n, l) == n * d);
        lemma_mul_is_distributive_add_other_way(d as int, i as int, 1);
        assert((i + 1) * d == i * d + 1 * d);
        lemma_mul_inequality((i + 1) as int, n as int, d as int);
        assert(r < falling_factorial(n, l));
        lemma_fundamental_div_mod_converse(r as int, d as int, i as int, r2 as int);
        assert(r / d == i && r % d == r2);
        assert(unrank_spec(pool, l, r) == seq![pool[i as int]] + unrank_spec(
            pool2,
            (l - 1) as nat,
            r2,
        ));
        assert(unrank_spec(pool, l, r) =~= m);
    }
}

/// The melody of rank zero over any pool is its ascending prefix.
pub proof fn lemma_rank_take_zero(pool: Seq<u8>, k: nat)
    requires
        canonical_pool(pool),
        k <= pool.len(),
    ensures
        pool.take(k as int).len() == k,
        valid_melody(pool, pool.take(k as int)),
        rank_of(pool, pool.take(k as int)) == 0,
    decreases k,
{
    let t = pool.take(k as int);
    assert forall|j: int| 0 <= j < t.len() implies pool.contains(#[trigger] t[j]) by {
        assert(t[j] == pool[j]);
    }
    if k > 0 {
        lemma_pos_of_index(pool, 0);
        assert(pos_of(pool, t[0]) == 0);
        let pool2 = pool.remove(0);
        pool.remove_ensures(0);
        assert(pool2 =~= pool.drop_first());
        lemma_remove_canonical(pool, 0);
        lemma_rank_take_zero(pool2, (k - 1) as nat);
        assert(t.drop_first() =~= pool2.take(k - 1));
        let d = falling_factorial((pool.len() - 1) as nat, (k - 1) as nat);
        assert(rank_of(pool, t) == 0 * d + rank_of(pool2, t.drop_first()));
    }
}

/// A chain of adjacent comparisons orders any two positions.
proof fn lemma_chain_lt(pool: Seq<u8>, i: int, j: int)
    requires
        forall|k: int| 1 <= k < pool.len() ==> pool[k - 1] < #[trigger] pool[k],
        0 <= i < j < pool.len(),
    ensures
        pool[i] < pool[j],
    decreases j - i,
{
    if i + 1 < j {
        lemma_chain_lt(pool, i, j - 1);
    }
}

/// A canonical pool of bytes cannot hold more than 256 notes.
pub proof fn lemma_canonical_len(pool: Seq<u8>)
    requires
        canonical_pool(pool),
    ensures
        pool.len() <= 256,
{
    if pool.len() > 256 {
        lemma_index_lower_bound(pool, 256);
    }
}

/// In ascending order the value at an index is at least the index.
proof fn lemma_index_lower_bound(pool: Seq<u8>, i: int)
    requires
        canonical_pool(pool),
        0 <= i < pool.len(),
    ensures
        pool[i] >= i,
    decreases i,
{
    if i > 0 {
        lemma_index_lower_bound(pool, i - 1);
    }
}

/// Decides whether a pool is in canonical form: strictly ascending order.
pub fn is_canonical_pool(pool: &Vec<u8>) -> (r: bool)
    ensures
        r == canonical_pool(pool@),
{
    let mut i: usize = 1;
    while i < pool.len()
        invariant
            1 <= i,
            forall|k: int| 1 <= k < i ==> pool@[k - 1] < #[trigger] pool@[k],
        decreases pool@.len() - i,
    {
        if pool[i - 1] >= pool[i] {
            return false;
        }
        i = i + 1;
    }
    proof {
        if pool@.len() > 0 {
            assert forall|a: int, b: int| 0 <= a < b < pool@.len() implies pool@[a] < pool@[b] by {
                lemma_chain_lt(pool@, a, b);
            }
        }
    }
    true
}

/// Copies a pool so the walk can consume candidates.
fn copy_notes(v: &Vec<u8>) -> (r: Vec<u8>)
    ensures
        r@ == v@,
{
    let mut r: Vec<u8> = Vec::new();
    let mut i: usize = 0;
    while i < v.len()
        invariant
            i <= v@.len(),
            r@ == v@.take(i as int),
        decreases v@.len() - i,
    {
        r.push(v[i]);
        proof {
            assert(r@ =~= v@.take(i + 1));
        }
        i = i + 1;
    }
    proof {
        assert(v@.take(v@.len() as int) =~= v@);
    }
    r
}

/// Finds the index of `x` in the pool by a linear scan.
fn find_pos(pool: &Vec<u8>, x: u8) -> (i: usize)
    requires
        pool@.contains(x),
    ensures
        i < pool@.len(),
        pool@[i as int] == x,
        i == pos_of(pool@, x),
{
    let n = pool.len();
    let mut i: usize = 0;
    loop
        invariant
            pool@.contains(x),
            n == pool@.len(),
            i <= n,
            forall|k: int| 0 <= k < i ==> pool@[k] != x,
        decreases pool@.len() - i,
    {
        proof {
            lemma_pos_of_contains(pool@, x);
            let p = pos_of(pool@, x) as int;
            if p < i {
                assert(pool@[p] != x);
            }
            assert(i < pool@.len());
        }
        if pool[i] == x {
            proof {
                lemma_pos_of_first(pool@, x, i as int);
            }
            return i;
        }
        i = i + 1;
    }
}

/// Returns the melody at `rank` in the enumeration of length-`length`
/// melodies over `pool`, computed by factorial-number-system
/// decomposition without visiting any predecessor.
pub fn unrank(pool: &Vec<u8>, length: u32, rank: u64) -> (res: Result<Vec<u8>, AtmError>)
    requires
        canonical_pool(pool@),
    ensures
        match res {
            Ok(m) => {
                &&& (rank as nat) < falling_factorial(pool@.len(), length as nat)
                &&& m@ == unrank_spec(pool@, length as nat, rank as nat)
                &&& m@.len() == length
                &&& valid_melody(pool@, m@)
                &&& rank_of(pool@, m@) == rank
            },
            Err(AtmError::Overflow) => falling_factorial(pool@.len(), length as nat) > u64::MAX,
            Err(AtmError::RankOutOfRange) => {
                &&& falling_factorial(pool@.len(), length as nat) <= u64::MAX
                &&& rank >= falling_factorial(pool@.len(), length as nat)
            },
            _ => false,
        },
{
    proof {
        lemma_canonical_len(pool@);
    }
    let count = match gen_num_melodies(pool.len() as u32, length) {
        Ok(c) => c,
        Err(e) => {
            return Err(e);
        },
    };
    if rank >= count {
        return Err(AtmError::RankOutOfRange);
    }
    proof {
        if (length as nat) > pool@.len() {
            lemma_ff_zero(pool@.len(), length as nat);
        }
    }
    let mut remaining = copy_notes(pool);
    let mut out: Vec<u8> = Vec::new();
    let mut r: u64 = rank;
    let mut i: u32 = 0;
    while i < length
        invariant
            canonical_pool(remaining@),
            remaining@.len() == pool@.len() - i,
            i <= length,
            length <= pool@.len() <= 256,
            out@.len() == i,
            (r as nat) < falling_factorial(remaining@.len(), (length - i) as nat),
            falling_factorial(remaining@.len(), (length - i) as nat) <= u64::MAX,
            out@ + unrank_spec(remaining@, (length - i) as nat, r as nat) == unrank_spec(
                pool@,
                length as nat,
                rank as nat,
            ),
        decreases length - i,
    {
        let n_rem = remaining.len();
        let ghost l_rem = (length - i) as nat;
        let ghost dd = falling_factorial((n_rem - 1) as nat, (l_rem - 1) as nat);
        proof {
            assert(falling_factorial(n_rem as nat, l_rem) == n_rem * dd);
            assert(dd <= n_rem * dd) by (nonlinear_arith)
                requires
                    n_rem >= 1,
                    dd >= 0,
            ;
        }
        let d = match gen_num_melodies((n_rem - 1) as u32, length - i - 1) {
            Ok(c) => c,
            Err(e) => {
                proof {
                    assert(false);
                }
                return Err(e);
            },
        };
        proof {
            lemma_ff_pos((n_rem - 1) as nat, (l_rem - 1) as nat);
            assert(n_rem * dd == dd * n_rem) by (nonlinear_arith);
            lemma_multiply_divide_lt(r as int, d as int, n_rem as int);
            lemma_fundamental_div_mod(r as int, d as int);
        }
        let idx = (r / d) as usize;
        let ghost old_remaining = remaining@;
        let ghost old_out = out@;
        let ghost old_r = r as nat;
        let note = remaining.remove(idx);
        out.push(note);
        r = r % d;
        proof {
            lemma_remove_canonical(old_remaining, idx as int);
            old_remaining.remove_ensures(idx as int);
            assert(unrank_spec(old_remaining, l_rem, old_r) == seq![old_remaining[idx as int]]
                + unrank_spec(remaining@, (l_rem - 1) as nat, old_r % dd));
            assert(out@ + unrank_spec(remaining@, (l_rem - 1) as nat, r as nat) =~= old_out
                + unrank_spec(old_remaining, l_rem, old_r));
        }
        i = i + 1;
    }
    proof {
        assert(unrank_spec(remaining@, 0, r as nat) =~= Seq::<u8>::empty());
        assert(out@ + Seq::<u8>::empty() =~= out@);
        lemma_unrank_props(pool@, length as nat, rank as nat);
    }
    Ok(out)
}

/// The carry walk: finds the deepest position that can still advance,
/// replaces it with the next remaining candidate, and refills what
/// follows with the smallest remaining candidates.
#[verifier::rlimit(100)]
fn successor_carry(pool: &Vec<u8>, m: &Vec<u8>) -> (res: Option<Vec<u8>>)
    requires
        canonical_pool(pool@),
        valid_melody(pool@, m@),
        m@.len() <= pool@.len(),
    ensures
        match res {
            Some(next) => {
                &&& next@.len() == m@.len()
                &&& valid_melody(pool@, next@)
                &&& rank_of(pool@, next@) == rank_of(pool@, m@) + 1
                &&& next@ == unrank_spec(pool@, m@.len(), (rank_of(pool@, m@) + 1) as nat)
            },
            None => rank_of(pool@, m@) + 1 == falling_factorial(pool@.len(), m@.len()),
        },
    decreases m@.len(), 0int,
{
    if m.len() == 0 {
        return None;
    }
    let ghost n = pool@.len();
    let ghost l = m@.len();
    let ghost d = falling_factorial((n - 1) as nat, (l - 1) as nat);
    let x = m[0];
    proof {
        lemma_canonical_len(pool@);
        assert(pool@.contains(m@[0]));
    }
    let i = find_pos(pool, x);
    let mut pool2 = copy_notes(pool);
    pool2.remove(i);
    let mut rest: Vec<u8> = Vec::new();
    let mut k: usize = 1;
    while k < m.len()
        invariant
            1 <= k <= m@.len(),
            rest@ == m@.subrange(1, k as int),
        decreases m@.len() - k,
    {
        rest.push(m[k]);
        proof {
            assert(rest@ =~= m@.subrange(1, k + 1));
        }
        k = k + 1;
    }
    proof {
        assert(rest@ =~= m@.drop_first());
        lemma_remove_canonical(pool@, i as int);
        pool@.remove_ensures(i as int);
        assert forall|j: int| 0 <= j < rest@.len() implies pool2@.contains(#[trigger] rest@[j]) by {
            assert(rest@[j] == m@[j + 1]);
            assert(pool@.contains(m@[j + 1]));
            assert(m@[0] != m@[j + 1]);
            lemma_remove_contains(pool@, i as int, m@[j + 1]);
        }
        assert(valid_melody(pool2@, rest@));
        assert(rank_of(pool@, m@) == i * d + rank_of(pool2@, rest@));
    }
    let sub = successor(&pool2, &rest);
    match sub {
        Some(t) => {
            let mut out: Vec<u8> = Vec::new();
            out.push(x);
            let mut k2: usize = 0;
            while k2 < t.len()
                invariant
                    k2 <= t@.len(),
                    out@ == seq![x].add(t@.take(k2 as int)),
                decreases t@.len() - k2,
            {
                out.push(t[k2]);
                proof {
                    assert(out@ =~= seq![x].add(t@.take(k2 + 1)));
                }
                k2 = k2 + 1;
            }
            proof {
                assert(out@ =~= seq![x].add(t@));
                assert(out@[0] == m@[0]);
                assert(out@.drop_first() =~= t@);
                assert forall|j: int| 0 <= j < out@.len() implies pool@.contains(
                    #[trigger] out@[j],
                ) by {
                    if j > 0 {
                        assert(pool2@.contains(t@[j - 1]));
                        lemma_remove_contains(pool@, i as int, t@[j - 1]);
                    }
                }
                assert forall|j: int, j2: int| 0 <= j < j2 < out@.len() implies out@[j] != out@[j2]
                    by {
                    if j == 0 {
                        assert(pool2@.contains(t@[j2 - 1]));
                        lemma_remove_contains(pool@, i as int, t@[j2 - 1]);
                    }
                }
                assert(valid_melody(pool@, out@));
                assert(rank_of(pool@, out@) == i * d + rank_of(pool2@, t@));
                lemma_rank_unrank(pool@, out@);
            }
            Some(out)
        },
        None => {
            proof {
                assert(rank_of(pool2@, rest@) + 1 == falling_factorial((n - 1) as nat, (l
                    - 1) as nat));
            }
            if i + 1 < pool.len() {
                let h = pool[i + 1];
                let mut pool3 = copy_notes(pool);
                pool3.remove(i + 1);
                proof {
                    lemma_remove_canonical(pool@, (i + 1) as int);
                    pool@.remove_ensures((i + 1) as int);
                    lemma_rank_take_zero(pool3@, (l - 1) as nat);
                }
                let mut out: Vec<u8> = Vec::new();
                out.push(h);
                let mut k3: usize = 0;
                let fill = m.len() - 1;
                while k3 < fill
                    invariant
                        k3 <= fill,
                        fill == l - 1,
                        l <= n,
                        pool3@.len() == n - 1,
                        out@ == seq![pool@[(i + 1) as int]].add(pool3@.take(k3 as int)),
                    decreases fill - k3,
                {
                    out.push(pool3[k3]);
                    proof {
                        assert(out@ =~= seq![pool@[(i + 1) as int]].add(pool3@.take(k3 + 1)));
                    }
                    k3 = k3 + 1;
                }
                proof {
                    let tail = pool3@.take((l - 1) as int);
                    assert(out@[0] == pool@[(i + 1) as int]);
                    assert(out@.drop_first() =~= tail);
                    lemma_pos_of_index(pool@, (i + 1) as int);
                    assert(valid_melody(pool3@, tail));
                    assert forall|j: int| 0 <= j < out@.len() implies pool@.contains(
                        #[trigger] out@[j],
                    ) by {
                        if j > 0 {
                            assert(pool3@.contains(tail[j - 1]));
                            lemma_remove_contains(pool@, (i + 1) as int, tail[j - 1]);
                        }
                    }
                    assert forall|j: int, j2: int| 0 <= j < j2 < out@.len() implies out@[j]
                        != out@[j2] by {
                        if j == 0 {
                            assert(pool3@.contains(tail[j2 - 1]));
                            lemma_remove_contains(pool@, (i + 1) as int, tail[j2 - 1]);
                        }
                    }
                    assert(valid_melody(pool@, out@));
                    assert(rank_of(pool@, out@) == (i + 1) * d + rank_of(pool3@, tail));
                    lemma_mul_is_distributive_add_other_way(d as int, i as int, 1);
                    assert((i + 1) * d == i * d + 1 * d);
                    assert(rank_of(pool@, out@) == rank_of(pool@, m@) + 1);
                    lemma_rank_unrank(pool@, out@);
                }
                Some(out)
            } else {
                proof {
                    assert(i == n - 1);
                    lemma_mul_is_distributive_add_other_way(d as int, (n - 1) as int, 1);
                    assert(n * d == (n - 1) * d + 1 * d);
                    assert(falling_factorial(n, l) == n * d);
                }
                None
            }
        },
    }
}

/// In ascending order, two present values with no present value
/// between them sit at adjacent positions.
proof fn lemma_pos_of_adjacent(pool: Seq<u8>, x: u8, y: u8)
    requires
        canonical_pool(pool),
        pool.contains(x),
        pool.contains(y),
        x < y,
        forall|v: u8| x < v < y ==> !pool.contains(v),
    ensures
        pos_of(pool, y) == pos_of(pool, x) + 1,
    decreases pool.len(),
{
    lemma_pos_of_contains(pool, x);
    lemma_pos_of_contains(pool, y);
    if pool[0] == x {
        let k = choose|k: int| 0 <= k < pool.len() && pool[k] == y;
        assert(k >= 1);
        if k > 1 {
            assert(pool[0] < pool[1] < pool[k]);
            assert(pool.contains(pool[1]));
            assert(false);
        }
        assert(pool[1] == y);
        assert(pool.drop_first()[0] == y);
    } else {
        let kx = choose|k: int| 0 <= k < pool.len() && pool[k] == x;
        if pool[0] == y {
            assert(kx >= 1);
            assert(pool[0] < pool[kx]);
            assert(false);
        }
        assert(kx >= 1);
        assert(pool.drop_first()[kx - 1] == pool[kx]);
        assert(pool.drop_first().contains(x));
        let ky = choose|k: int| 0 <= k < pool.len() && pool[k] == y;
        assert(ky >= 1);
        assert(pool.drop_first()[ky - 1] == pool[ky]);
        assert(pool.drop_first().contains(y));
        assert forall|v: u8| x < v < y implies !pool.drop_first().contains(v) by {
            if pool.drop_first().contains(v) {
                let k = choose|k: int|
                    0 <= k < pool.drop_first().len() && pool.drop_first()[k] == v;
                assert(pool[k + 1] == v);
                assert(pool.contains(v));
            }
        }
        lemma_pos_of_adjacent(pool.drop_first(), x, y);
    }
}

/// Replacing a melody's last symbol with the next candidate that is
/// neither used earlier in the melody nor missing from the pool
/// advances the rank by exactly one.
proof fn lemma_rank_adjacent_last(pool: Seq<u8>, m: Seq<u8>, m2: Seq<u8>)
    requires
        canonical_pool(pool),
        valid_melody(pool, m),
        valid_melody(pool, m2),
        m.len() == m2.len(),
        1 <= m.len() <= pool.len(),
        m.drop_last() == m2.drop_last(),
        m.last() < m2.last(),
        forall|v: u8| m.last() < v < m2.last() ==> !pool.contains(v) || m.contains(v),
    ensures
        rank_of(pool, m2) == rank_of(pool, m) + 1,
    decreases m.len(),
{
    let n = pool.len();
    let l = m.len();
    if l == 1 {
        let x = m[0];
        let y = m2[0];
        assert(m.last() == x && m2.last() == y);
        assert(pool.contains(x));
        assert(pool.contains(y));
        assert forall|v: u8| x < v < y implies !pool.contains(v) by {
            if m.contains(v) {
                assert(v == m[0]);
            }
        }
        lemma_pos_of_adjacent(pool, x, y);
        let d = falling_factorial((n - 1) as nat, 0nat);
        assert(d == 1);
        let px = pos_of(pool, x);
        let py = pos_of(pool, y);
        assert(m.drop_first().len() == 0);
        assert(m2.drop_first().len() == 0);
        assert(rank_of(pool, m) == px * d + 0) by {
            reveal_with_fuel(rank_of, 2);
        }
        assert(rank_of(pool, m2) == py * d + 0) by {
            reveal_with_fuel(rank_of, 2);
        }
        assert(px * d == px) by (nonlinear_arith)
            requires
                d == 1,
        ;
        assert(py * d == py) by (nonlinear_arith)
            requires
                d == 1,
        ;
    } else {
        let h = m[0];
        assert(m.drop_last()[0] == m[0]);
        assert(m2.drop_last()[0] == m2[0]);
        assert(m2[0] == h);
        assert(pool.contains(h));
        lemma_pos_of_contains(pool, h);
        let i = pos_of(pool, h);
        let pool2 = pool.remove(i as int);
        lemma_remove_canonical(pool, i as int);
        pool.remove_ensures(i as int);
        assert forall|j: int| 0 <= j < m.drop_first().len() implies pool2.contains(
            #[trigger] m.drop_first()[j],
        ) by {
            assert(m.drop_first()[j] == m[j + 1]);
            assert(pool.contains(m[j + 1]));
            assert(m[0] != m[j + 1]);
            lemma_remove_contains(pool, i as int, m[j + 1]);
        }
        assert forall|j: int| 0 <= j < m2.drop_first().len() implies pool2.contains(
            #[trigger] m2.drop_first()[j],
        ) by {
            assert(m2.drop_first()[j] == m2[j + 1]);
            assert(pool.contains(m2[j + 1]));
            assert(m2[0] != m2[j + 1]);
            lemma_remove_contains(pool, i as int, m2[j + 1]);
        }
        assert(m.drop_first().drop_last() =~= m.drop_last().drop_first());
        assert(m2.drop_first().drop_last() =~= m2.drop_last().drop_first());
        assert(m.drop_first().last() == m.last());
        assert(m2.drop_first().last() == m2.last());
        assert forall|v: u8|
            m.drop_first().last() < v < m2.drop_first().last() implies !pool2.contains(v)
            || m.drop_first().contains(v) by {
            if pool2.contains(v) {
                lemma_remove_contains(pool, i as int, v);
                assert(pool.contains(v) && v != pool[i as int]);
                assert(m.last() < v < m2.last());
                assert(m.contains(v));
                let k = choose|k: int| 0 <= k < m.len() && m[k] == v;
                assert(pool[i as int] == h);
                assert(k >= 1);
                assert(m.drop_first()[k - 1] == v);
            }
        }
        lemma_rank_adjacent_last(pool2, m.drop_first(), m2.drop_first());
        assert(rank_of(pool, m) == i * falling_factorial((n - 1) as nat, (l - 1) as nat)
            + rank_of(pool2, m.drop_first()));
        assert(rank_of(pool, m2) == i * falling_factorial((n - 1) as nat, (l - 1) as nat)
            + rank_of(pool2, m2.drop_first()));
    }
}

/// Tests whether `v` occurs among the first `upto` symbols of `m`.
fn in_prefix(m: &Vec<u8>, upto: usize, v: u8) -> (r: bool)
    requires
        upto <= m@.len(),
    ensures
        r == m@.take(upto as int).contains(v),
{
    let mut k: usize = 0;
    while k < upto
        invariant
            upto <= m@.len(),
            k <= upto,
            forall|t: int| 0 <= t < k ==> m@[t] != v,
        decreases upto - k,
    {
        if m[k] == v {
            proof {
                assert(m@.take(upto as int)[k as int] == v);
            }
            return true;
        }
        k = k + 1;
    }
    proof {
        if m@.take(upto as int).contains(v) {
            let t = choose|t: int| 0 <= t < upto && m@.take(upto as int)[t] == v;
            assert(m@[t] == v);
        }
    }
    false
}

/// Advances a melody to its successor in enumeration order, or reports
/// the end of the space. The usual step replaces only the last symbol
/// with the next unused candidate; a carry walk handles the rest, so a
/// sequential walk never re-derives a melody from its rank.
#[verifier::rlimit(100)]
pub fn successor(pool: &Vec<u8>, m: &Vec<u8>) -> (res: Option<Vec<u8>>)
    requires
        canonical_pool(pool@),
        valid_melody(pool@, m@),
        m@.len() <= pool@.len(),
    ensures
        match res {
            Some(next) => {
                &&& next@.len() == m@.len()
                &&& valid_melody(pool@, next@)
                &&& rank_of(pool@, next@) == rank_of(pool@, m@) + 1
                &&& next@ == unrank_spec(pool@, m@.len(), (rank_of(pool@, m@) + 1) as nat)
            },
            None => rank_of(pool@, m@) + 1 == falling_factorial(pool@.len(), m@.len()),
        },
    decreases m@.len(), 1int,
{
    let l = m.len();
    if l == 0 {
        return None;
    }
    let x = m[l - 1];
    let n = pool.len();
    let mut j: usize = 0;
    while j < n
        invariant
            canonical_pool(pool@),
            valid_melody(pool@, m@),
            l == m@.len(),
            1 <= l <= n == pool@.len(),
            x == m@[l - 1],
            j <= n,
            forall|k: int|
                0 <= k < j ==> pool@[k] <= x || m@.take((l - 1) as int).contains(
                    #[trigger] pool@[k],
                ),
        decreases n - j,
    {
        let c = pool[j];
        if c > x && !in_prefix(m, l - 1, c) {
            let mut out: Vec<u8> = Vec::new();
            let mut k2: usize = 0;
            while k2 < l - 1
                invariant
                    l <= m@.len(),
                    k2 <= l - 1,
                    out@ == m@.take(k2 as int),
                decreases l - 1 - k2,
            {
                out.push(m[k2]);
                proof {
                    assert(out@ =~= m@.take(k2 + 1));
                }
                k2 = k2 + 1;
            }
            out.push(c);
            proof {
                assert(out@.drop_last() =~= m@.take((l - 1) as int));
                assert(m@.drop_last() =~= m@.take((l - 1) as int));
                assert(out@.last() == c && m@.last() == x);
                assert forall|t: int| 0 <= t < out@.len() implies pool@.contains(
                    #[trigger] out@[t],
                ) by {
                    if t < l - 1 {
                        assert(out@[t] == m@[t]);
                    } else {
                        assert(out@[t] == pool@[j as int]);
                    }
                }
                assert forall|a: int, b2: int| 0 <= a < b2 < out@.len() implies out@[a]
                    != out@[b2] by {
                    if b2 == l - 1 {
                        assert(out@[a] == m@.take((l - 1) as int)[a]);
                        assert(!m@.take((l - 1) as int).contains(c));
                    }
                }
                assert(valid_melody(pool@, out@));
                assert forall|v: u8| x < v < c implies !pool@.contains(v) || m@.contains(v) by {
                    if pool@.contains(v) {
                        let k = choose|k: int| 0 <= k < pool@.len() && pool@[k] == v;
                        if k >= j {
                            assert(pool@[j as int] <= pool@[k]);
                        }
                        assert(k < j);
                        assert(pool@[k] <= x || m@.take((l - 1) as int).contains(pool@[k]));
                        let t = choose|t: int|
                            0 <= t < l - 1 && #[trigger] m@.take((l - 1) as int)[t] == v;
                        assert(m@[t] == v);
                    }
                }
                lemma_rank_adjacent_last(pool@, m@, out@);
                lemma_rank_unrank(pool@, out@);
            }
            return Some(out);
        }
        j = j + 1;
    }
    successor_carry(pool, m)
}

} // verus!

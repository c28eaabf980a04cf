//! Hamming code primitives: how many parity bits a block needs, where they
//! sit in the extended codeword, and what values they take.
use vstd::prelude::*;

verus! {

/// `2` to the power `n`.
pub open spec fn two_pow(n: nat) -> nat
    decreases n,
{
    if n == 0 {
        1
    } else {
        2 * two_pow((n - 1) as nat)
    }
}

/// The integer base-two logarithm, rounded down; `0` for `0` and `1`.
pub open spec fn floor_log2(n: nat) -> nat
    decreases n,
{
    if n <= 1 {
        0
    } else {
        1 + floor_log2(n / 2)
    }
}

/// Position `p` (from zero) of a codeword is reserved for a parity bit
/// exactly when `p + 1` is a power of two.
pub open spec fn is_reserved(p: nat) -> bool {
    two_pow(floor_log2(p + 1)) == p + 1
}

/// `r` is the least number of parity bits for `m` data bits: the smallest `r`
/// with `2^r >= m + r + 1`.
pub open spec fn is_parity_count(m: nat, r: nat) -> bool {
    &&& two_pow(r) >= m + r + 1
    &&& (r == 0 || two_pow((r - 1) as nat) < m + r)
}

/// The codeword for `data` with `r` parity bits: reserved positions hold
/// `false`, the others hold the data bits in order.
pub open spec fn extended(data: Seq<bool>, r: nat) -> Seq<bool> {
    Seq::new(
        data.len() + r,
        |p: int|
            if is_reserved(p as nat) {
                false
            } else {
                data[p - floor_log2((p + 1) as nat) - 1]
            },
    )
}

/// Parity bit `k` (at position `2^k - 1`) covers position `j` when bit `k` of
/// `j + 1` is set and `j` is not the parity position itself.
pub open spec fn covers(k: nat, j: nat) -> bool {
    &&& ((j + 1) / two_pow(k)) % 2 == 1
    &&& j + 1 != two_pow(k)
}

/// Exclusive or of the bits among the first `n` of `code` that parity bit `k`
/// covers.
pub open spec fn parity_upto(code: Seq<bool>, k: nat, n: nat) -> bool
    decreases n,
{
    if n == 0 {
        false
    } else {
        parity_upto(code, k, (n - 1) as nat) != (covers(k, (n - 1) as nat) && code[n - 1])
    }
}

/// The value of parity bit `k` of the codeword `code`.
pub open spec fn parity_of(code: Seq<bool>, k: nat) -> bool {
    parity_upto(code, k, code.len())
}

proof fn lemma_two_pow_positive(n: nat)
    ensures
        two_pow(n) >= 1,
    decreases n,
{
    if n > 0 {
        lemma_two_pow_positive((n - 1) as nat);
    }
}

/// `2^n - n` never decreases.
proof fn lemma_two_pow_minus_monotone(a: nat, b: nat)
    requires
        a <= b,
    ensures
        two_pow(a) - a <= two_pow(b) - b,
    decreases b,
{
    if a < b {
        lemma_two_pow_minus_monotone(a, (b - 1) as nat);
        lemma_two_pow_positive((b - 1) as nat);
    }
}

/// Between `2^a` and `2^(a+1)` the logarithm is `a`.
pub proof fn lemma_floor_log2_between(n: nat, a: nat)
    requires
        two_pow(a) <= n < two_pow(a + 1),
    ensures
        floor_log2(n) == a,
    decreases a,
{
    if a > 0 {
        assert(two_pow(a) == 2 * two_pow((a - 1) as nat));
        lemma_floor_log2_between(n / 2, (a - 1) as nat);
    }
}

proof fn lemma_floor_log2_at_most(n: nat)
    ensures
        floor_log2(n) <= n,
    decreases n,
{
    if n > 1 {
        lemma_floor_log2_at_most(n / 2);
    }
}

/// From `r` on, `2^s >= m + s + 1` keeps holding.
proof fn lemma_parity_count_stays(m: nat, r: nat, s: nat)
    requires
        two_pow(r) >= m + r + 1,
        r <= s,
    ensures
        two_pow(s) >= m + s + 1,
    decreases s,
{
    if r < s {
        lemma_parity_count_stays(m, r, (s - 1) as nat);
    }
}

/// There is one least number of parity bits.
pub proof fn lemma_parity_count_unique(m: nat, r1: nat, r2: nat)
    requires
        is_parity_count(m, r1),
        is_parity_count(m, r2),
    ensures
        r1 == r2,
{
    if r1 < r2 {
        lemma_parity_count_stays(m, r1, (r2 - 1) as nat);
    } else if r2 < r1 {
        lemma_parity_count_stays(m, r2, (r1 - 1) as nat);
    }
}

/// `2^n` grows with `n`.
pub proof fn lemma_two_pow_monotone(a: nat, b: nat)
    requires
        a <= b,
    ensures
        two_pow(a) <= two_pow(b),
{
    lemma_two_pow_minus_monotone(a, b);
}

/// The logarithm of `2^k` is `k`.
pub proof fn lemma_floor_log2_two_pow(k: nat)
    ensures
        floor_log2(two_pow(k)) == k,
{
    lemma_two_pow_positive(k);
    lemma_floor_log2_between(two_pow(k), k);
}

/// A codeword of `m > 0` data bits and `r` parity bits has exactly `r`
/// positions of the form `2^k - 1`.
pub proof fn lemma_parity_positions(m: nat, r: nat, e: nat)
    requires
        m > 0,
        is_parity_count(m, r),
        two_pow(e) > m + r,
        e == 0 || two_pow((e - 1) as nat) <= m + r,
    ensures
        e == r,
{
    if e < r {
        lemma_two_pow_monotone(e, (r - 1) as nat);
    } else if e > r {
        lemma_two_pow_monotone(r, (e - 1) as nat);
    }
}

/// The index of the highest set bit of `num`, found by halving; `0` for `0`.
pub fn get_power_of_two(num: usize) -> (r: usize)
    ensures
        r == floor_log2(num as nat),
{
    let mut result: usize = num;
    let mut count: usize = 0;
    proof {
        lemma_floor_log2_at_most(num as nat);
    }
    while result > 1
        invariant
            count + floor_log2(result as nat) == floor_log2(num as nat),
            floor_log2(num as nat) <= num,
        decreases result,
    {
        assert(result >> 1usize == result / 2) by (bit_vector);
        result = result >> 1;
        count += 1;
    }
    count
}

/// The least number of parity bits for a block of `data_width` data bits.
pub fn parity_bits_count(data_width: usize) -> (r: usize)
    ensures
        is_parity_count(data_width as nat, r as nat),
        r <= 65,
{
    let m: u128 = data_width as u128;
    let mut r: usize = 0;
    let mut pow: u128 = 1;
    assert(two_pow(65) == 0x2_0000_0000_0000_0000u128) by {
        reveal_with_fuel(two_pow, 66);
    }
    while pow < m + (r as u128) + 1
        invariant
            pow == two_pow(r as nat),
            r <= 65,
            m == data_width,
            m < 0x1_0000_0000_0000_0000u128,
            r == 0 || two_pow((r - 1) as nat) < m + r,
            two_pow(65) == 0x2_0000_0000_0000_0000u128,
        decreases 65 - r,
    {
        pow = pow * 2;
        r = r + 1;
    }
    r
}

/// The codeword for `data`: a parity slot (holding `false`) at every position
/// `2^k - 1`, the data bits in order elsewhere.
pub fn add_bits(data: &[bool]) -> (r: Vec<bool>)
    requires
        data@.len() <= usize::MAX / 2,
    ensures
        r@.len() >= data@.len(),
        is_parity_count(data@.len(), (r@.len() - data@.len()) as nat),
        r@ == extended(data@, (r@.len() - data@.len()) as nat),
{
    let m = data.len();
    let r = parity_bits_count(m);
    let total = m + r;
    let mut out: Vec<bool> = Vec::with_capacity(total);
    let mut p: usize = 0;
    let mut k: usize = 0;
    let mut pow: u128 = 1;
    while p < total
        invariant
            total == m + r,
            m == data@.len(),
            m <= usize::MAX / 2,
            r <= 65,
            is_parity_count(m as nat, r as nat),
            p <= total,
            out@.len() == p,
            pow == two_pow(k as nat),
            p < pow,
            k >= 1 ==> two_pow((k - 1) as nat) <= p,
            k <= p,
            k <= r,
            forall|q: int| 0 <= q < p ==> out@[q] == extended(data@, r as nat)[q],
        decreases total - p,
    {
        if (p as u128) + 1 == pow {
            proof {
                lemma_floor_log2_between((p + 1) as nat, k as nat);
                if k >= r {
                    lemma_parity_count_stays(m as nat, r as nat, k as nat);
                }
            }
            out.push(false);
            k = k + 1;
            pow = pow * 2;
        } else {
            proof {
                if k == 0 {
                    assert(false);
                }
                lemma_floor_log2_between((p + 1) as nat, (k - 1) as nat);
                if k < r {
                    lemma_two_pow_minus_monotone(k as nat, (r - 1) as nat);
                }
            }
            out.push(data[p - k]);
        }
        p = p + 1;
    }
    assert(out@ =~= extended(data@, r as nat));
    out
}

/// The parity bits of the codeword `code`: entry `k` is the position
/// `2^k - 1` with the value of parity bit `k`, for every such position
/// inside the codeword.
pub fn calculate_parity_bits(code: &[bool]) -> (r: Vec<(usize, bool)>)
    ensures
        two_pow(r@.len()) > code@.len(),
        r@.len() == 0 || two_pow((r@.len() - 1) as nat) <= code@.len(),
        forall|k: int|
            0 <= k < r@.len() ==> r@[k].0 + 1 == two_pow(k as nat) && r@[k].1 == parity_of(
                code@,
                k as nat,
            ),
{
    let n = code.len();
    let mut out: Vec<(usize, bool)> = Vec::new();
    let mut k: usize = 0;
    let mut pow: u128 = 1;
    while pow <= n as u128
        invariant
            n == code@.len(),
            pow == two_pow(k as nat),
            out@.len() == k,
            k <= n,
            k > 0 ==> two_pow((k - 1) as nat) <= n,
            forall|i: int|
                0 <= i < k ==> out@[i].0 + 1 == two_pow(i as nat) && out@[i].1 == parity_of(
                    code@,
                    i as nat,
                ),
        decreases n + 1 - k,
    {
        proof {
            lemma_two_pow_positive(k as nat);
        }
        let mut acc = false;
        let mut j: usize = 0;
        while j < n
            invariant
                n == code@.len(),
                pow == two_pow(k as nat),
                1 <= pow <= n,
                j <= n,
                acc == parity_upto(code@, k as nat, j as nat),
            decreases n - j,
        {
            let pos = (j as u128) + 1;
            if (pos / pow) % 2 == 1 && pos != pow {
                acc = acc != code[j];
            }
            j = j + 1;
        }
        proof {
            lemma_floor_log2_at_most(n as nat);
            lemma_two_pow_minus_monotone(0, k as nat);
        }
        out.push(((pow - 1) as usize, acc));
        k = k + 1;
        pow = pow * 2;
    }
    out
}

} // verus!

//! Scoring of captured outputs against a task's expectations, as far as
//! whole numbers go: how many bits differ, out of how many observed.

use vstd::prelude::*;

verus! {

/// How the outputs of a task are scored.
#[derive(Clone, Copy, Debug, PartialEq, Eq, Structural)]
pub enum ScoringSpec {
    /// By Hamming similarity: one minus the share of observed output
    /// bits that differ from the expected ones.
    Hamming,
}

/// The number of set bits among the lowest `k` bits of `x`.
pub open spec fn ones_below(x: u32, k: nat) -> nat
    decreases k,
{
    if k == 0 {
        0
    } else {
        ones_below(x, (k - 1) as nat) + (if (x >> ((k - 1) as u32)) & 1 == 1 { 1nat } else { 0nat })
    }
}

/// The number of set bits of `x`.
pub open spec fn ones(x: u32) -> nat {
    ones_below(x, 32)
}

/// The bits in which two rows of words differ, position by position as
/// far as both reach.
pub open spec fn row_diff(expected: Seq<u32>, actual: Seq<u32>) -> nat
    decreases expected.len(),
{
    if expected.len() == 0 {
        0
    } else {
        let k = expected.len() - 1;
        row_diff(expected.drop_last(), actual) + (if k < actual.len() {
            ones(expected[k] ^ actual[k])
        } else {
            0
        })
    }
}

/// The bits in which the first `k` ticks of an episode differ from what
/// was expected.
pub open spec fn episode_diff(expected: Seq<Vec<u32>>, actual: Seq<Vec<u32>>, k: int) -> nat
    decreases k,
{
    if k <= 0 {
        0
    } else {
        episode_diff(expected, actual, k - 1) + row_diff(expected[k - 1]@, actual[k - 1]@)
    }
}

/// The captured outputs have the shape of the expected ones: as many
/// ticks, and in every tick as many words.
pub open spec fn same_shape(expected: Seq<Vec<u32>>, actual: Seq<Vec<u32>>) -> bool {
    expected.len() == actual.len() && forall|t: int|
        0 <= t < expected.len() ==> (#[trigger] expected[t])@.len() == actual[t]@.len()
}

/// Counts the set bits of `x`.
pub fn count_ones(x: u32) -> (n: u32)
    ensures
        n == ones(x),
        n <= 32,
{
    let mut n: u32 = 0;
    let mut k: u32 = 0;
    while k < 32
        invariant
            k <= 32,
            n == ones_below(x, k as nat),
            n <= k,
        decreases 32 - k,
    {
        if (x >> k) & 1 == 1 {
            n = n + 1;
        }
        k = k + 1;
    }
    n
}

/// The bits in which two rows differ.
fn row_difference(expected: &Vec<u32>, actual: &Vec<u32>) -> (d: u64)
    requires
        expected@.len() == actual@.len(),
        row_diff(expected@, actual@) <= u64::MAX,
    ensures
        d == row_diff(expected@, actual@),
{
    let n: usize = expected.len();
    let mut d: u64 = 0;
    let mut i: usize = 0;
    assert(expected@.take(0) =~= Seq::<u32>::empty());
    while i < n
        invariant
            i <= n,
            n == expected@.len(),
            n == actual@.len(),
            d == row_diff(expected@.take(i as int), actual@),
            row_diff(expected@, actual@) <= u64::MAX,
        decreases n - i,
    {
        proof {
            assert(expected@.take(i + 1).drop_last() =~= expected@.take(i as int));
            lemma_row_diff_grows(expected@, actual@, i + 1);
        }
        let c: u32 = count_ones(expected[i] ^ actual[i]);
        d = d + c as u64;
        i = i + 1;
    }
    assert(expected@.take(n as int) =~= expected@);
    d
}

/// The difference of a prefix is no more than that of the whole row.
pub proof fn lemma_row_diff_grows(expected: Seq<u32>, actual: Seq<u32>, k: int)
    requires
        0 <= k <= expected.len(),
    ensures
        row_diff(expected.take(k), actual) <= row_diff(expected, actual),
    decreases expected.len(),
{
    if k == expected.len() {
        assert(expected.take(k) =~= expected);
    } else {
        assert(expected.take(k) =~= expected.drop_last().take(k));
        lemma_row_diff_grows(expected.drop_last(), actual, k);
    }
}

/// The difference of the first ticks is no more than that of all.
pub proof fn lemma_episode_diff_grows(
    expected: Seq<Vec<u32>>,
    actual: Seq<Vec<u32>>,
    a: int,
    b: int,
)
    requires
        a <= b,
    ensures
        episode_diff(expected, actual, a) <= episode_diff(expected, actual, b),
    decreases b - a,
{
    if a < b {
        lemma_episode_diff_grows(expected, actual, a, b - 1);
    }
}

/// For one episode, the number of bits in which the captured outputs
/// differ from the expected ones, and the number of bits observed: the
/// task's output bits once for every tick. The share of the first in the
/// second is what the Hamming score takes from one.
pub fn hamming_episode(expected: &Vec<Vec<u32>>, actual: &Vec<Vec<u32>>, output_bits: u32) -> (r: (
    u64,
    u64,
))
    requires
        same_shape(expected@, actual@),
        episode_diff(expected@, actual@, expected@.len() as int) <= u64::MAX,
        expected@.len() * output_bits <= u64::MAX,
    ensures
        r.0 == episode_diff(expected@, actual@, expected@.len() as int),
        r.1 == expected@.len() * output_bits,
{
    let n: usize = expected.len();
    let mut diff_bits: u64 = 0;
    let mut total_bits: u64 = 0;
    let mut t: usize = 0;
    while t < n
        invariant
            t <= n,
            n == expected@.len(),
            same_shape(expected@, actual@),
            episode_diff(expected@, actual@, n as int) <= u64::MAX,
            n * output_bits <= u64::MAX,
            diff_bits == episode_diff(expected@, actual@, t as int),
            total_bits == t * output_bits,
        decreases n - t,
    {
        proof {
            lemma_episode_diff_grows(expected@, actual@, t + 1, n as int);
            assert((t + 1) * output_bits <= n * output_bits) by (nonlinear_arith)
                requires
                    t + 1 <= n,
                    output_bits >= 0,
            ;
            assert((t + 1) * output_bits == t * output_bits + output_bits) by (nonlinear_arith);
        }
        let d: u64 = row_difference(&expected[t], &actual[t]);
        diff_bits = diff_bits + d;
        total_bits = total_bits + output_bits as u64;
        t = t + 1;
    }
    (diff_bits, total_bits)
}

} // verus!

//! The sizes of the universal setup that a PLONK circuit of a given size needs.

use vstd::arithmetic::power2::{lemma_pow2_unfold, pow2};
use vstd::prelude::*;

verus! {

/// The smallest setup size, as a power of two.
pub const SETUP_MIN_POW2: u32 = 20;

/// The largest setup size, as a power of two.
pub const SETUP_MAX_POW2: u32 = 26;

/// The exponent of the smallest power of two that is at least `n`
/// (what `n.next_power_of_two().trailing_zeros()` gives).
pub open spec fn log2_ceil(n: nat) -> nat
    decreases n,
{
    if n <= 1 {
        0
    } else {
        1 + log2_ceil((n / 2 + n % 2) as nat)
    }
}

/// `log2_ceil(n)` is the exponent of the least power of two that is at least `n`.
pub proof fn lemma_log2_ceil_is_least_power(n: nat)
    ensures
        n <= pow2(log2_ceil(n)),
        n > 1 ==> pow2((log2_ceil(n) - 1) as nat) < n,
    decreases n,
{
    if n > 1 {
        let m = (n / 2 + n % 2) as nat;
        lemma_log2_ceil_is_least_power(m);
        lemma_pow2_unfold(log2_ceil(n));
        if m > 1 {
            lemma_pow2_unfold(log2_ceil(m));
        } else {
            assert(pow2(0) == 1) by {
                vstd::arithmetic::power2::lemma2_to64();
            }
        }
    } else {
        assert(pow2(0) == 1) by {
            vstd::arithmetic::power2::lemma2_to64();
        }
    }
}

/// A number at most `pow2(j)` needs at most `j` doublings from one.
proof fn lemma_log2_ceil_bound(n: nat, j: nat)
    requires
        n <= pow2(j),
    ensures
        log2_ceil(n) <= j,
    decreases j,
{
    if n > 1 {
        vstd::arithmetic::power2::lemma2_to64();
        assert(j > 0);
        lemma_pow2_unfold(j);
        lemma_log2_ceil_bound((n / 2 + n % 2) as nat, (j - 1) as nat);
    }
}

/// The exponent of the smallest power of two that is at least `n`, as
/// `n.next_power_of_two().trailing_zeros()` gives it where that does not overflow.
pub fn log2_ceil_of(n: usize) -> (r: u32)
    requires
        n <= usize::MAX / 2 + 1,
    ensures
        r as nat == log2_ceil(n as nat),
{
    proof {
        vstd::arithmetic::power2::lemma2_to64();
        lemma_log2_ceil_bound(n as nat, 64);
    }
    let mut m = n;
    let mut k: u32 = 0;
    while m > 1
        invariant
            k + log2_ceil(m as nat) == log2_ceil(n as nat),
            log2_ceil(n as nat) <= 64,
        decreases m,
    {
        m = m / 2 + m % 2;
        k = k + 1;
    }
    k
}

/// Why a circuit cannot be set up.
#[derive(Debug, Clone, Copy, PartialEq, Eq, Structural)]
pub enum SetupError {
    /// The setup the circuit needs is larger than the largest one.
    PowerOfTwoOutOfRange,
}

/// The setup size, as a power of two, for a circuit of `n` gates: enough for the
/// gates, and never below the smallest setup.
pub open spec fn setup_power_of_two(n: nat) -> nat {
    if log2_ceil(n) < SETUP_MIN_POW2 {
        SETUP_MIN_POW2 as nat
    } else {
        log2_ceil(n)
    }
}

/// The setup size is the least power of two, from the smallest setup on, that
/// holds the gates.
pub proof fn lemma_setup_power_is_least(n: nat)
    ensures
        setup_power_of_two(n) >= SETUP_MIN_POW2,
        n <= pow2(setup_power_of_two(n)),
        setup_power_of_two(n) > SETUP_MIN_POW2 ==> pow2((setup_power_of_two(n) - 1) as nat) < n,
{
    lemma_log2_ceil_is_least_power(n);
    if log2_ceil(n) < SETUP_MIN_POW2 {
        vstd::arithmetic::power2::lemma_pow2_strictly_increases(log2_ceil(n), SETUP_MIN_POW2 as nat);
    }
}

/// The setup size, as a power of two, that a circuit of `n` gates is proved
/// with; refused when it is above the largest setup.
pub fn check_setup_power_of_two(n: usize) -> (r: Result<u32, SetupError>)
    requires
        n <= usize::MAX / 2 + 1,
    ensures
        match r {
            Ok(p) => p as nat == setup_power_of_two(n as nat) && SETUP_MIN_POW2 <= p <= SETUP_MAX_POW2,
            Err(e) => e == SetupError::PowerOfTwoOutOfRange && setup_power_of_two(n as nat) > SETUP_MAX_POW2,
        },
        r is Ok <==> log2_ceil(n as nat) <= SETUP_MAX_POW2,
{
    let size = log2_ceil_of(n);
    let setup_power = if size < SETUP_MIN_POW2 {
        SETUP_MIN_POW2
    } else {
        size
    };
    if SETUP_MIN_POW2 <= setup_power && setup_power <= SETUP_MAX_POW2 {
        Ok(setup_power)
    } else {
        Err(SetupError::PowerOfTwoOutOfRange)
    }
}

/// The setup size, as a power of two, that a verification key is generated
/// with for a circuit of `gates_count` gates: enough for the gates, and never
/// below the smallest setup (e.g. 22 for three million gates).
pub fn verification_key_power_of_two(gates_count: usize) -> (r: u32)
    requires
        gates_count <= usize::MAX / 2 + 1,
    ensures
        r as nat == setup_power_of_two(gates_count as nat),
{
    let size_log2 = log2_ceil_of(gates_count);
    if size_log2 < SETUP_MIN_POW2 {
        SETUP_MIN_POW2
    } else {
        size_log2
    }
}

} // verus!

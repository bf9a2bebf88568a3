//! Powers of two and multiples.
use vstd::arithmetic::power2::{
    lemma_pow2_adds, lemma_pow2_pos, lemma_pow2_strictly_increases, lemma_pow2_unfold, pow2,
};
use vstd::prelude::*;

verus! {

/// Marks an intermediate state that a relation goes through; always true.
pub open spec fn through<T>(state: T) -> bool {
    true
}

/// `n` is a power of two.
pub open spec fn is_pow2(n: int) -> bool {
    exists|k: nat| n == #[trigger] pow2(k)
}

/// The least multiple of `align` that is at least `a`.
pub open spec fn next_multiple(a: int, align: int) -> int {
    if a % align == 0 {
        a
    } else {
        a - a % align + align
    }
}

pub proof fn lemma_pow2_fits(bits: nat)
    requires
        bits < 64,
    ensures
        0 < pow2(bits) <= 0x8000_0000_0000_0000,
{
    lemma_pow2_pos(bits);
    assert(pow2(63) == 0x8000_0000_0000_0000) by {
        vstd::arithmetic::power2::lemma2_to64();
        vstd::arithmetic::power2::lemma2_to64_rest();
    }
    if bits < 63 {
        lemma_pow2_strictly_increases(bits, 63);
    }
}

/// Two to the power of `bits`.
pub fn power_of_two(bits: u32) -> (r: u64)
    requires
        bits < 64,
    ensures
        r == pow2(bits as nat),
{
    let mut r: u64 = 1;
    let mut i: u32 = 0;
    proof {
        vstd::arithmetic::power2::lemma2_to64();
    }
    while i < bits
        invariant
            i <= bits < 64,
            r == pow2(i as nat),
        decreases bits - i,
    {
        proof {
            lemma_pow2_unfold((i + 1) as nat);
            lemma_pow2_fits((i + 1) as nat);
        }
        r = r * 2;
        i = i + 1;
    }
    r
}

/// Whether `n` is a power of two.
pub fn is_power_of_two(n: u64) -> (r: bool)
    ensures
        r == is_pow2(n as int),
{
    if n == 0 {
        assert(!is_pow2(0)) by {
            assert forall|k: nat| 0int != #[trigger] pow2(k) by {
                lemma_pow2_pos(k);
            }
        }
        return false;
    }
    let mut rest: u64 = n;
    let mut i: u32 = 0;
    proof {
        vstd::arithmetic::power2::lemma2_to64();
    }
    while rest % 2 == 0
        invariant
            0 < rest,
            n == rest * pow2(i as nat),
            i <= 64,
            rest * pow2(i as nat) <= u64::MAX,
        decreases rest,
    {
        let ghost half = (rest / 2) as int;
        proof {
            lemma_pow2_unfold((i + 1) as nat);
            let p = pow2(i as nat) as int;
            assert(half * (2 * p) == (half * 2) * p) by (nonlinear_arith);
            assert(i < 64) by {
                if i == 64 {
                    assert(pow2(64) == 0x1_0000_0000_0000_0000) by {
                        vstd::arithmetic::power2::lemma2_to64_rest();
                    }
                    assert(rest * 0x1_0000_0000_0000_0000 > u64::MAX);
                }
            }
        }
        rest = rest / 2;
        i = i + 1;
    }
    proof {
        let p = pow2(i as nat) as int;
        if rest == 1 {
            assert(n == pow2(i as nat));
        } else {
            assert forall|k: nat| n != #[trigger] pow2(k) by {
                lemma_pow2_pos(i as nat);
                if n == pow2(k) {
                    if k <= i {
                        if k < i {
                            lemma_pow2_strictly_increases(k, i as nat);
                        }
                        assert(rest * p > p) by (nonlinear_arith)
                            requires
                                rest > 1,
                                p > 0,
                        ;
                    } else {
                        lemma_pow2_adds(i as nat, (k - i) as nat);
                        let q = pow2((k - i) as nat) as int;
                        assert(rest == q) by (nonlinear_arith)
                            requires
                                rest * p == p * q,
                                p > 0,
                        ;
                        lemma_pow2_unfold((k - i) as nat);
                    }
                }
            }
        }
    }
    rest == 1
}

/// The least multiple of `align` that is at least `a`, if it fits.
pub fn checked_next_multiple_of(a: u64, align: u64) -> (r: Option<u64>)
    requires
        align > 0,
    ensures
        r == if next_multiple(a as int, align as int) <= u64::MAX {
            Some(next_multiple(a as int, align as int) as u64)
        } else {
            None
        },
{
    let rest: u64 = a % align;
    if rest == 0 {
        Some(a)
    } else {
        proof {
            vstd::arithmetic::div_mod::lemma_mod_decreases(a as nat, align as nat);
        }
        (a - rest).checked_add(align)
    }
}

/// The next multiple is one, lies at or above the number, and less than one
/// step above it.
pub proof fn next_multiple_is_least(a: int, align: int)
    requires
        align > 0,
    ensures
        next_multiple(a, align) % align == 0,
        a <= next_multiple(a, align) < a + align,
{
    let r = a % align;
    let q = a / align;
    vstd::arithmetic::div_mod::lemma_fundamental_div_mod(a, align);
    vstd::arithmetic::div_mod::lemma_mod_multiples_basic(q, align);
    vstd::arithmetic::div_mod::lemma_mod_multiples_basic(q + 1, align);
    vstd::arithmetic::div_mod::lemma_mod_bound(a, align);
    assert(a - r == q * align) by (nonlinear_arith)
        requires
            a == align * q + r,
    ;
    assert((q + 1) * align == q * align + align) by (nonlinear_arith);
}

} // verus!

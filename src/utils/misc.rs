//! Small number routines.
use vstd::prelude::*;

verus! {

/// Euclid's greatest common divisor.
pub open spec fn spec_gcd(a: nat, b: nat) -> nat
    decreases b,
{
    if b == 0 {
        a
    } else {
        spec_gcd(b, a % b)
    }
}

/// The least common multiple of a list, folded from the right as
/// `a * lcm(rest) / gcd(a, lcm(rest))`.
pub open spec fn spec_lcm(s: Seq<u64>) -> nat
    decreases s.len(),
{
    if s.len() <= 1 {
        if s.len() == 1 { s[0] as nat } else { 0 }
    } else {
        let b = spec_lcm(s.drop_first());
        let g = spec_gcd(s[0] as nat, b);
        if g == 0 { 0 } else { ((s[0] as nat) * b) / g }
    }
}

/// `spec_lcm(s)` can be computed in `u64`: at each step the product fits
/// and the divisor is not zero.
pub open spec fn lcm_computable(s: Seq<u64>) -> bool
    decreases s.len(),
{
    if s.len() == 0 {
        false
    } else if s.len() == 1 {
        true
    } else {
        let b = spec_lcm(s.drop_first());
        &&& lcm_computable(s.drop_first())
        &&& s[0] * b <= u64::MAX
        &&& spec_gcd(s[0] as nat, b) != 0
    }
}

/// A non-zero greatest common divisor divides both numbers.
pub proof fn lemma_gcd_divides(a: nat, b: nat)
    ensures
        spec_gcd(a, b) > 0 ==> a % spec_gcd(a, b) == 0 && b % spec_gcd(a, b) == 0,
    decreases b,
{
    if b > 0 {
        lemma_gcd_divides(b, a % b);
        let g = spec_gcd(b, a % b);
        if g > 0 {
            vstd::arithmetic::div_mod::lemma_fundamental_div_mod(a as int, b as int);
            let q = a / b;
            let r = a % b;
            assert(b % g == 0 && r % g == 0);
            vstd::arithmetic::div_mod::lemma_mod_multiples_basic(q as int * (b / g) as int, g as int);
            vstd::arithmetic::div_mod::lemma_fundamental_div_mod(b as int, g as int);
            vstd::arithmetic::div_mod::lemma_fundamental_div_mod(r as int, g as int);
            assert(a == g * (q * (b / g) + r / g)) by (nonlinear_arith)
                requires
                    a == b * q + r,
                    b == g * (b / g),
                    r == g * (r / g),
            ;
            vstd::arithmetic::div_mod::lemma_mod_multiples_basic((q * (b / g) + r / g) as int, g as int);
            assert(a % g == 0) by (nonlinear_arith)
                requires
                    a == g * (q * (b / g) + r / g),
                    (((q * (b / g) + r / g) as int) * (g as int)) % (g as int) == 0,
            ;
        }
    }
}

/// The greatest common divisor of `a` and `b`.
pub fn gcd(a: u64, b: u64) -> (r: u64)
    ensures
        r == spec_gcd(a as nat, b as nat),
        r > 0 ==> a % r == 0 && b % r == 0,
    decreases b,
{
    proof {
        lemma_gcd_divides(a as nat, b as nat);
    }
    if b == 0 {
        return a;
    }
    gcd(b, a % b)
}

/// The least common multiple of `nums`, as `spec_lcm` folds it.
pub fn lcm(nums: &[u64]) -> (r: u64)
    requires
        lcm_computable(nums@),
    ensures
        r == spec_lcm(nums@),
    decreases nums@.len(),
{
    if nums.len() == 1 {
        return nums[0];
    }
    let a = nums[0];
    let rest = slice_tail(nums);
    assert(rest@ =~= nums@.drop_first());
    let b = lcm(rest);
    a * b / gcd(a, b)
}

/// All of a slice but its first element.
fn slice_tail(s: &[u64]) -> (r: &[u64])
    requires
        s@.len() >= 1,
    ensures
        r@ == s@.drop_first(),
{
    let (_, tail) = s.split_at(1);
    assert(tail@ =~= s@.drop_first());
    tail
}

/// Whether `data` repeats itself with period `len`.
pub open spec fn has_period(data: Seq<i64>, len: int) -> bool {
    forall|i: int| 0 <= i < data.len() - len ==> data[i] == #[trigger] data[i + len]
}

/// The shortest period of at most half the length with which `data` repeats
/// itself, as `(0, period)`; `None` when there is none.
pub fn find_repeating_sequence(data: &[i64]) -> (r: Option<(usize, usize)>)
    ensures
        r matches Some((s, len)) ==> s == 0 && 1 <= len <= data@.len() / 2 && has_period(data@, len as int)
            && forall|l: int| 1 <= l < len ==> !#[trigger] has_period(data@, l),
        r is None ==> forall|l: int| 1 <= l <= data@.len() / 2 ==> !#[trigger] has_period(data@, l),
{
    let n = data.len();
    for len in 1..n / 2 + 1
        invariant
            n == data@.len(),
            forall|l: int| 1 <= l < len ==> !#[trigger] has_period(data@, l),
    {
        let mut is_repeating = true;
        for i in 0..n - len
            invariant
                n == data@.len(),
                1 <= len <= n / 2,
                is_repeating == forall|j: int| 0 <= j < i ==> data@[j] == #[trigger] data@[j + len],
        {
            if data[i] != data[i + len] {
                is_repeating = false;
            }
        }
        if is_repeating {
            return Some((0, len));
        }
        assert(!has_period(data@, len as int));
    }
    None
}

} // verus!

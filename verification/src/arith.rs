use vstd::prelude::*;

use crate::error::HelperError;
use crate::expr::{bal, encode, is_expr, law_scan_encode, tok_bytes, weight, Tok};
use crate::normalize::bytes_res;

verus! {

/// `n!`.
pub open spec fn fact(n: nat) -> nat
    decreases n,
{
    if n == 0 {
        1
    } else {
        n * fact((n - 1) as nat)
    }
}

/// The falling factorial `n * (n - 1) * ... * (n - k + 1)` (the empty product when `k == 0`).
pub open spec fn falling(n: int, k: nat) -> int
    decreases k,
{
    if k == 0 {
        1
    } else {
        n * falling(n - 1, (k - 1) as nat)
    }
}

/// The binomial coefficient, by Pascal's rule.
pub open spec fn binom(n: nat, k: nat) -> nat
    decreases n,
{
    if k == 0 {
        1
    } else if n == 0 {
        0
    } else {
        binom((n - 1) as nat, (k - 1) as nat) + binom((n - 1) as nat, k)
    }
}

proof fn lemma_fact_positive(n: nat)
    ensures
        fact(n) >= 1,
    decreases n,
{
    if n > 0 {
        lemma_fact_positive((n - 1) as nat);
        assert(n * fact((n - 1) as nat) >= 1) by (nonlinear_arith)
            requires
                n >= 1,
                fact((n - 1) as nat) >= 1,
        ;
    }
}

proof fn lemma_fact_monotone(i: nat, j: nat)
    requires
        i <= j,
    ensures
        fact(i) <= fact(j),
    decreases j,
{
    if i < j {
        lemma_fact_monotone(i, (j - 1) as nat);
        lemma_fact_positive((j - 1) as nat);
        assert(fact((j - 1) as nat) <= j * fact((j - 1) as nat)) by (nonlinear_arith)
            requires
                j >= 1,
                fact((j - 1) as nat) >= 1,
        ;
    }
}

/// Adding one factor at the low end of a falling factorial.
proof fn lemma_falling_snoc(n: int, k: nat)
    ensures
        falling(n, k + 1) == falling(n, k) * (n - k),
    decreases k,
{
    assert(falling(n, k + 1) == n * falling(n - 1, k));
    if k > 0 {
        assert(falling(n, k) == n * falling(n - 1, (k - 1) as nat));
        lemma_falling_snoc(n - 1, (k - 1) as nat);
        assert(falling(n - 1, k) == falling(n - 1, (k - 1) as nat) * (n - 1 - (k - 1)));
        assert(n * (falling(n - 1, (k - 1) as nat) * (n - k)) == (n * falling(
            n - 1,
            (k - 1) as nat,
        )) * (n - k)) by (nonlinear_arith);
    }
}

/// Every factor of `falling(n, k)` with `k <= n` is at least 1.
proof fn lemma_falling_positive(n: int, k: nat)
    requires
        k <= n,
    ensures
        falling(n, k) >= 1,
    decreases k,
{
    if k > 0 {
        lemma_falling_positive(n - 1, (k - 1) as nat);
        assert(n * falling(n - 1, (k - 1) as nat) >= 1) by (nonlinear_arith)
            requires
                n >= 1,
                falling(n - 1, (k - 1) as nat) >= 1,
        ;
    }
}

proof fn lemma_falling_monotone(n: int, i: nat, j: nat)
    requires
        i <= j <= n,
    ensures
        falling(n, i) <= falling(n, j),
    decreases j,
{
    if i < j {
        lemma_falling_monotone(n, i, (j - 1) as nat);
        lemma_falling_snoc(n, (j - 1) as nat);
        lemma_falling_positive(n, (j - 1) as nat);
        assert(falling(n, (j - 1) as nat) <= falling(n, (j - 1) as nat) * (n - (j - 1)))
            by (nonlinear_arith)
            requires
                falling(n, (j - 1) as nat) >= 1,
                n - (j - 1) >= 1,
        ;
    }
}

/// `n!`, or why it cannot be given as an `i64`.
pub open spec fn factorial_spec(n: i64) -> Result<i64, HelperError> {
    if n < 0 {
        Err(HelperError::FactorialNegative)
    } else if fact(n as nat) <= i64::MAX {
        Ok(fact(n as nat) as i64)
    } else {
        Err(HelperError::FactorialOverflow)
    }
}

/// `n * (n - 1) * ... * (n - k + 1)`, or why it cannot be given as an `i64`.
pub open spec fn falling_factorial_spec(n: i64, k: i64) -> Result<i64, HelperError> {
    if n < 0 || k < 0 {
        Err(HelperError::FallingFactorialNegative)
    } else if k > n {
        Err(HelperError::FallingFactorialKGreaterThanN)
    } else if falling(n as int, k as nat) <= i64::MAX {
        Ok(falling(n as int, k as nat) as i64)
    } else {
        Err(HelperError::FallingFactorialOverflow)
    }
}

/// `n!` of a non-negative `n`, or why it cannot be given as an `i64`.
pub fn factorial_i64(n: i64) -> (r: Result<i64, HelperError>)
    ensures
        r == factorial_spec(n),
{
    if n < 0 {
        return Err(HelperError::FactorialNegative);
    }
    let mut result: i64 = 1;
    let mut i: i64 = 1;
    assert(fact(1) == 1) by {
        assert(fact(0) == 1);
    }
    while i < n
        invariant
            0 <= n,
            1 <= i,
            i <= n || i == 1,
            result == fact(i as nat),
        decreases n - i,
    {
        let next: i64 = i + 1;
        proof {
            lemma_fact_positive(i as nat);
            assert(fact(next as nat) == next * fact(i as nat));
        }
        match result.checked_mul(next) {
            Some(r) => {
                result = r;
                i = next;
            },
            None => {
                proof {
                    lemma_fact_monotone(next as nat, n as nat);
                }
                return Err(HelperError::FactorialOverflow);
            },
        }
    }
    proof {
        if n == 0 {
            assert(fact(0) == 1);
        }
    }
    Ok(result)
}

/// `n * (n - 1) * ... * (n - k + 1)` for `0 <= k <= n`, or why it cannot be given as an `i64`.
pub fn falling_factorial_i64(n: i64, k: i64) -> (r: Result<i64, HelperError>)
    ensures
        r == falling_factorial_spec(n, k),
{
    if n < 0 || k < 0 {
        return Err(HelperError::FallingFactorialNegative);
    }
    if k > n {
        return Err(HelperError::FallingFactorialKGreaterThanN);
    }
    let mut result: i64 = 1;
    let mut i: i64 = 0;
    while i < k
        invariant
            0 <= i <= k <= n,
            result == falling(n as int, i as nat),
        decreases k - i,
    {
        let factor: i64 = n - i;
        proof {
            lemma_falling_snoc(n as int, i as nat);
            lemma_falling_positive(n as int, i as nat);
        }
        match result.checked_mul(factor) {
            Some(r) => {
                result = r;
                i = i + 1;
            },
            None => {
                proof {
                    lemma_falling_monotone(n as int, (i + 1) as nat, k as nat);
                }
                return Err(HelperError::FallingFactorialOverflow);
            },
        }
    }
    Ok(result)
}

/// The eight bytes of `x`, most significant first (two's complement).
pub open spec fn be_bytes(x: i64) -> Seq<u8> {
    let u = x as u64;
    seq![
        (u / 0x100000000000000) as u8,
        (u / 0x1000000000000 % 256) as u8,
        (u / 0x10000000000 % 256) as u8,
        (u / 0x100000000 % 256) as u8,
        (u / 0x1000000 % 256) as u8,
        (u / 0x10000 % 256) as u8,
        (u / 0x100 % 256) as u8,
        (u % 256) as u8,
    ]
}

/// The expression that holds an `i64`: a symbol of its eight bytes, most significant first.
pub open spec fn int_expr(x: i64) -> Seq<u8> {
    encode(seq![Tok::Sym(be_bytes(x))])
}

pub open spec fn int_res(r: Result<i64, HelperError>) -> Result<Seq<u8>, HelperError> {
    match r {
        Ok(x) => Ok(int_expr(x)),
        Err(e) => Err(e),
    }
}

/// The symbol of the eight bytes of `x`, most significant first.
pub fn int_symbol(x: i64) -> (r: Vec<u8>)
    ensures
        r@ == int_expr(x),
        is_expr(r@),
{
    let u = x as u64;
    let r = vec![
        0xc8u8,
        (u / 0x100000000000000) as u8,
        (u / 0x1000000000000 % 256) as u8,
        (u / 0x10000000000 % 256) as u8,
        (u / 0x100000000 % 256) as u8,
        (u / 0x1000000 % 256) as u8,
        (u / 0x10000 % 256) as u8,
        (u / 0x100 % 256) as u8,
        (u % 256) as u8,
    ];
    proof {
        let ts = seq![Tok::Sym(be_bytes(x))];
        assert(ts.drop_first() == Seq::<Tok>::empty());
        assert(encode(ts) == tok_bytes(ts[0]) + encode(ts.drop_first()));
        assert(r@ == encode(ts));
        law_scan_encode(ts);
        assert(bal(ts) == weight(ts[0]) + bal(ts.drop_first()));
        assert(ts.take(0) == Seq::<Tok>::empty());
    }
    r
}

/// The symbol of `n!` (eight bytes, most significant first), or why there is none.
pub fn factorial(n: i64) -> (r: Result<Vec<u8>, HelperError>)
    ensures
        bytes_res(r) == int_res(factorial_spec(n)),
{
    match factorial_i64(n) {
        Ok(v) => Ok(int_symbol(v)),
        Err(e) => Err(e),
    }
}

/// The symbol of `n * (n - 1) * ... * (n - k + 1)` (eight bytes, most significant first), or
/// why there is none.
pub fn falling_factorial(n: i64, k: i64) -> (r: Result<Vec<u8>, HelperError>)
    ensures
        bytes_res(r) == int_res(falling_factorial_spec(n, k)),
{
    match falling_factorial_i64(n, k) {
        Ok(v) => Ok(int_symbol(v)),
        Err(e) => Err(e),
    }
}

/// The falling factorial of `n` to `n` factors is `n!`.
pub proof fn law_falling_factorial_full_is_factorial(n: nat)
    ensures
        falling(n as int, n) == fact(n),
    decreases n,
{
    if n > 0 {
        law_falling_factorial_full_is_factorial((n - 1) as nat);
    }
}

/// `falling(n, k) * (n - k)! == n!` for `k <= n`: the falling factorial is `n! / (n - k)!`.
pub proof fn law_falling_factorial_times_rest(n: nat, k: nat)
    requires
        k <= n,
    ensures
        falling(n as int, k) * fact((n - k) as nat) == fact(n),
    decreases k,
{
    if k > 0 {
        law_falling_factorial_times_rest((n - 1) as nat, (k - 1) as nat);
        assert((n - 1 - (k - 1)) as nat == (n - k) as nat);
        assert((n * falling(n - 1, (k - 1) as nat)) * fact((n - k) as nat) == n * (falling(
            n - 1,
            (k - 1) as nat,
        ) * fact((n - k) as nat))) by (nonlinear_arith);
    }
}

proof fn lemma_falling_pascal(n: int, k: nat)
    requires
        k >= 1,
    ensures
        falling(n, k) == falling(n - 1, k) + k * falling(n - 1, (k - 1) as nat),
    decreases k,
{
    assert(falling(n, k) == n * falling(n - 1, (k - 1) as nat));
    if k == 1 {
        assert(falling(n, 1) == n * falling(n - 1, 0));
        assert(falling(n - 1, 1) == (n - 1) * falling(n - 2, 0));
    } else {
        let a = falling(n - 2, (k - 1) as nat);
        let b = falling(n - 2, (k - 2) as nat);
        lemma_falling_pascal(n - 1, (k - 1) as nat);
        lemma_falling_snoc(n - 2, (k - 2) as nat);
        assert((k - 2) as nat + 1 == (k - 1) as nat);
        assert(a == b * (n - k));
        assert(falling(n - 1, (k - 1) as nat) == a + (k - 1) * b);
        assert(falling(n - 1, k) == (n - 1) * falling(n - 2, (k - 1) as nat));
        assert(falling(n - 1, (k - 1) as nat) == (n - 1) * falling(n - 2, (k - 2) as nat));
        assert(falling(n - 1, k) == (n - 1) * a);
        assert(falling(n - 1, (k - 1) as nat) == (n - 1) * b);
        assert(n * (a + (k - 1) * b) == (n - 1) * a + k * ((n - 1) * b)) by (nonlinear_arith)
            requires
                a == b * (n - k),
        ;
    }
}

/// `falling(n, k) == k! * C(n, k)`: the falling factorial divided by `k!` is the binomial
/// coefficient.
pub proof fn law_falling_factorial_over_factorial_is_binomial(n: nat, k: nat)
    ensures
        falling(n as int, k) == fact(k) * binom(n, k),
    decreases n, k,
{
    if k == 0 {
        assert(fact(0) == 1);
        assert(binom(n, 0) == 1);
    } else if n == 0 {
        assert(falling(0, k) == 0 * falling(-1, (k - 1) as nat));
        assert(binom(0, k) == 0);
        assert(fact(k) * 0 == 0);
    } else {
        lemma_falling_pascal(n as int, k);
        assert(((n - 1) as nat) as int == n as int - 1);
        law_falling_factorial_over_factorial_is_binomial((n - 1) as nat, k);
        law_falling_factorial_over_factorial_is_binomial((n - 1) as nat, (k - 1) as nat);
        let c1 = binom((n - 1) as nat, k);
        let c2 = binom((n - 1) as nat, (k - 1) as nat);
        let f = fact((k - 1) as nat);
        assert(fact(k) == k * f);
        assert(binom(n, k) == c2 + c1);
        assert(k * f * c1 + k * (f * c2) == k * f * (c2 + c1)) by (nonlinear_arith);
        assert(fact(k) * c1 == k * f * c1);
        assert(k * falling((n - 1) as int, (k - 1) as nat) == k * (f * c2));
    }
}

} // verus!

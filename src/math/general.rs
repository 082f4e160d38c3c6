//! Modular arithmetic, integer square roots and factorisation on `u64`.
use vstd::prelude::*;
use vstd::arithmetic::div_mod::{
    lemma_fundamental_div_mod, lemma_mod_multiples_basic, lemma_mul_mod_noop_general,
};
use vstd::arithmetic::power2::{lemma_pow2_unfold, pow2};
use vstd::arithmetic::power::{
    lemma_pow0, lemma_pow1, lemma_pow_adds, lemma_pow_mod_noop, lemma_pow_multiplies,
    lemma_square_is_pow2, pow,
};

verus! {

/// One squaring step: `b^e` is `b^(e % 2)` times `(b * b mod m)^(e / 2)`,
/// modulo `m`.
proof fn lemma_square_step(b: int, e: nat, m: int)
    requires
        m > 0,
    ensures
        pow(b, e) % m == (pow(b, e % 2) * pow((b * b) % m, e / 2)) % m,
{
    let h = e / 2;
    let r = e % 2;
    assert(e == 2 * h + r);
    lemma_pow_adds(b, 2 * h, r);
    lemma_pow_multiplies(b, 2, h);
    lemma_square_is_pow2(b);
    lemma_pow_mod_noop(b * b, h, m);
    assert(pow(b, e) == pow(b * b, h) * pow(b, r)) by {
        assert(pow(b, 2 * h) == pow(pow(b, 2), h));
    }
    lemma_mul_mod_noop_general(pow(b, r), pow(b * b, h), m);
    lemma_mul_mod_noop_general(pow(b, r), pow((b * b) % m, h), m);
    assert(pow(b, e) == pow(b, r) * pow(b * b, h)) by (nonlinear_arith)
        requires
            pow(b, e) == pow(b * b, h) * pow(b, r),
    ;
}

/// `base` to the power `exp`, modulo `modulus`, by repeated squaring.
pub fn mod_pow(base: u64, exp: u64, modulus: u64) -> (r: u64)
    requires
        modulus > 0,
    ensures
        r as int == pow(base as int, exp as nat) % (modulus as int),
{
    if modulus == 1 {
        return 0;
    }
    let m = modulus as u128;
    let mut b: u128 = base as u128 % m;
    let mut e: u64 = exp;
    let mut result: u128 = 1;
    proof {
        lemma_pow_mod_noop(base as int, exp as nat, m as int);
        lemma_pow1(1);
    }
    while e > 0
        invariant
            m == modulus as u128,
            m > 1,
            b < m,
            result < m,
            (result * pow(b as int, e as nat)) % (m as int) == pow(base as int, exp as nat) % (m as int),
        decreases e,
    {
        let ghost (b0, e0, r0) = (b as int, e as nat, result as int);
        let odd = e % 2 == 1;
        proof {
            assert(b * b < m * m) by (nonlinear_arith)
                requires
                    b < m,
            ;
            assert(result * b < m * m) by (nonlinear_arith)
                requires
                    b < m, result < m,
            ;
            assert(m * m <= 0xffff_ffff_ffff_ffff_ffff_ffff_ffff_ffff) by (nonlinear_arith)
                requires
                    m <= 0xffff_ffff_ffff_ffff,
            ;
        }
        if odd {
            result = (result * b) % m;
        }
        b = (b * b) % m;
        e = e / 2;
        proof {
            let mi = m as int;
            lemma_square_step(b0, e0, mi);
            let p = pow(b0, e0 % 2);
            let q = pow(b as int, e as nat);
            if odd {
                lemma_pow1(b0);
                assert(p == b0);
            } else {
                lemma_pow0(b0);
                assert(p == 1);
            }
            // r0 * b0^e0 == r0 * (p * q) modulo m
            lemma_mul_mod_noop_general(r0, pow(b0, e0), mi);
            lemma_mul_mod_noop_general(r0, p * q, mi);
            lemma_mul_mod_noop_general(r0 * p, q, mi);
            assert(r0 * (p * q) == (r0 * p) * q) by (nonlinear_arith);
            if odd {
                assert(result as int == (r0 * p) % mi);
            } else {
                assert(r0 * p == r0);
                assert(result as int == r0);
                vstd::arithmetic::div_mod::lemma_small_mod(r0 as nat, mi as nat);
            }
        }
    }
    proof {
        lemma_pow0(b as int);
        vstd::arithmetic::div_mod::lemma_small_mod(result as nat, m as nat);
    }
    result as u64
}

/// Whether `r` is the integer square root of `n`: the largest number whose
/// square is at most `n`.
pub open spec fn is_isqrt(r: int, n: int) -> bool {
    0 <= r && r * r <= n < (r + 1) * (r + 1)
}

/// A Newton step from any positive `x` lands on or above the square root:
/// the step's successor squared exceeds `n`.
proof fn lemma_newton_step_stays_above(n: int, x: int)
    requires
        n >= 0,
        x > 0,
    ensures
        n < ((x + n / x) / 2 + 1) * ((x + n / x) / 2 + 1),
{
    let q = n / x;
    let t = (x + q) / 2 + 1;
    lemma_fundamental_div_mod(n, x);
    assert(n < (q + 1) * x) by (nonlinear_arith)
        requires
            n == x * q + n % x,
            0 <= n % x < x,
    ;
    if n >= t * t {
        assert(false) by (nonlinear_arith)
            requires
                n >= t * t,
                n < (q + 1) * x,
                2 * t >= x + q + 1,
                x > 0,
                q >= 0,
        ;
    }
}

/// Once a Newton step no longer decreases `x`, the square of `x` is at
/// most `n`.
proof fn lemma_newton_step_stops_below(n: int, x: int)
    requires
        n >= 0,
        x > 0,
        (x + n / x) / 2 >= x,
    ensures
        x * x <= n,
{
    let q = n / x;
    lemma_fundamental_div_mod(n, x);
    if x * x > n {
        assert(q < x) by (nonlinear_arith)
            requires
                n == x * q + n % x,
                0 <= n % x,
                x * x > n,
                x > 0,
        ;
    }
}

/// The integer square root of `n`, by Newton's iteration from `n` down.
pub fn isqrt(n: u64) -> (r: u64)
    ensures
        is_isqrt(r as int, n as int),
{
    if n <= 1 {
        proof {
            assert(n * n <= n < (n + 1) * (n + 1)) by (nonlinear_arith)
                requires
                    n <= 1,
            ;
        }
        return n;
    }
    let mut x: u64 = n;
    let mut y: u64 = ((n as u128 + 1) / 2) as u64;
    proof {
        assert(n < (x + 1) * (x + 1)) by (nonlinear_arith)
            requires
                x == n,
                n > 1,
        ;
        assert(n as int / n as int == 1) by (nonlinear_arith)
            requires
                n > 1,
        ;
        lemma_newton_step_stays_above(n as int, n as int);
    }
    while y < x
        invariant
            n > 1,
            (n as int) < (y + 1) * (y + 1),
            0 < x,
            (n as int) < (x + 1) * (x + 1),
            y as int == (x + n / x) / 2,
        decreases x,
    {
        x = y;
        proof {
            assert(x > 0) by (nonlinear_arith)
                requires
                    n < (x + 1) * (x + 1),
                    n > 1,
                    x >= 0,
            ;
        }
        y = ((x as u128 + (n / x) as u128) / 2) as u64;
        proof {
            lemma_newton_step_stays_above(n as int, x as int);
        }
    }
    proof {
        lemma_newton_step_stops_below(n as int, x as int);
    }
    x
}

/// Whether `p` is prime: at least two, with no divisor strictly between
/// one and itself.
pub open spec fn is_prime_number(p: int) -> bool {
    p >= 2 && forall|d: int| 2 <= d < p ==> #[trigger] (p % d) != 0
}

/// The product of the values of `s`.
pub open spec fn product(s: Seq<u64>) -> int
    decreases s.len(),
{
    if s.len() == 0 {
        1
    } else {
        product(s.drop_last()) * s.last()
    }
}

/// Whether the values of `s` never decrease.
pub open spec fn is_sorted(s: Seq<u64>) -> bool {
    forall|i: int, j: int| 0 <= i < j < s.len() ==> s[i] <= s[j]
}

/// A divisor of a divisor of `n` divides `n`.
proof fn lemma_divides_trans(d: int, i: int, n: int)
    requires
        d > 0,
        i > 0,
        n % i == 0,
        i % d == 0,
    ensures
        n % d == 0,
{
    lemma_fundamental_div_mod(n, i);
    lemma_fundamental_div_mod(i, d);
    let k = (n / i) * (i / d);
    assert(n == k * d) by (nonlinear_arith)
        requires
            n == i * (n / i) + n % i,
            i == d * (i / d) + i % d,
            n % i == 0,
            i % d == 0,
            k == (n / i) * (i / d),
    ;
    lemma_mod_multiples_basic(k, d);
}

/// A divisor of `n / i` divides `n` when `i` divides `n`.
proof fn lemma_divisor_of_quotient(n: int, i: int, d: int)
    requires
        d > 0,
        i > 0,
        n % i == 0,
        (n / i) % d == 0,
    ensures
        n % d == 0,
{
    lemma_fundamental_div_mod(n, i);
    lemma_fundamental_div_mod(n / i, d);
    let k = i * ((n / i) / d);
    assert(n == k * d) by (nonlinear_arith)
        requires
            n == i * (n / i) + n % i,
            n / i == d * ((n / i) / d) + (n / i) % d,
            n % i == 0,
            (n / i) % d == 0,
            k == i * ((n / i) / d),
    ;
    lemma_mod_multiples_basic(k, d);
}

/// A number of at least two with no divisor below `i`, where `i * i`
/// exceeds it, is prime.
proof fn lemma_no_small_divisor_is_prime(n: int, i: int)
    requires
        n >= 2,
        i >= 0,
        i * i > n,
        forall|d: int| 2 <= d < i ==> #[trigger] (n % d) != 0,
    ensures
        is_prime_number(n),
{
    assert forall|d: int| 2 <= d < n implies #[trigger] (n % d) != 0 by {
        if n % d == 0 {
            lemma_fundamental_div_mod(n, d);
            let e = n / d;
            assert(n == d * e);
            assert(e >= 2) by (nonlinear_arith)
                requires
                    n == d * e,
                    d < n,
                    d >= 2,
            ;
            lemma_mod_multiples_basic(d, e);
            assert(n % e == 0) by {
                assert(d * e == e * d) by (nonlinear_arith);
            }
            if d < i {
            } else {
                assert(e < i) by (nonlinear_arith)
                    requires
                        n == d * e,
                        d >= i,
                        i * i > n,
                        e >= 2,
                        i >= 0,
                ;
            }
        }
    }
}

/// A factor `i` of `n`, where `n` has no divisor below `i`, is prime.
proof fn lemma_least_divisor_is_prime(n: int, i: int)
    requires
        n > 0,
        i >= 2,
        n % i == 0,
        forall|d: int| 2 <= d < i ==> #[trigger] (n % d) != 0,
    ensures
        is_prime_number(i),
{
    assert forall|d: int| 2 <= d < i implies #[trigger] (i % d) != 0 by {
        if i % d == 0 {
            lemma_divides_trans(d, i, n);
        }
    }
}

/// The prime factors of `n`, each as often as it divides `n`, smallest
/// first: trial division by 2, by 3, then by the numbers `6k - 1` and
/// `6k + 1` up to the square root of what is left.
pub fn prime_factors(n: u64) -> (factors: Vec<u64>)
    requires
        n > 0,
    ensures
        product(factors@) == n,
        forall|k: int| 0 <= k < factors@.len() ==> is_prime_number(#[trigger] factors@[k] as int),
        is_sorted(factors@),
{
    let ghost n0 = n as int;
    let mut n = n;
    let mut factors: Vec<u64> = Vec::new();
    while n % 2 == 0
        invariant
            n > 0,
            product(factors@) * n == n0,
            forall|k: int| 0 <= k < factors@.len() ==> #[trigger] factors@[k] == 2,
        decreases n,
    {
        let ghost f = factors@;
        factors.push(2);
        proof {
            assert(factors@.drop_last() == f);
            lemma_fundamental_div_mod(n as int, 2);
        }
        n = n / 2;
        proof {
            assert(product(factors@) * n == n0) by (nonlinear_arith)
                requires
                    product(factors@) == product(f) * 2,
                    product(f) * (2 * n + 0) == n0,
            ;
        }
    }
    while n % 3 == 0
        invariant
            n > 0,
            n % 2 != 0,
            product(factors@) * n == n0,
            forall|k: int| 0 <= k < factors@.len() ==> #[trigger] factors@[k] == 2 || factors@[k] == 3,
            is_sorted(factors@),
        decreases n,
    {
        let ghost f = factors@;
        let ghost n1 = n as int;
        factors.push(3);
        proof {
            assert(factors@.drop_last() == f);
            lemma_fundamental_div_mod(n as int, 3);
        }
        n = n / 3;
        proof {
            assert(product(factors@) * n == n0) by (nonlinear_arith)
                requires
                    product(factors@) == product(f) * 3,
                    product(f) * (3 * n + 0) == n0,
            ;
            if n % 2 == 0 {
                lemma_divisor_of_quotient(n1, 3, 2);
            }
        }
    }
    let mut i: u64 = 5;
    let mut inc: u64 = 2;
    proof {
        if n % 4 == 0 {
            lemma_divides_trans(2, 4, n as int);
        }
    }
    while (i as u128) * (i as u128) <= n as u128
        invariant
            n > 0,
            n % 2 != 0,
            n % 3 != 0,
            product(factors@) * n == n0,
            5 <= i < 0x1_0000_0008,
            i * i < 0x2_0000_0000_0000_0000,
            (i % 6 == 5 && inc == 2) || (i % 6 == 1 && inc == 4),
            forall|d: int| 2 <= d < i ==> #[trigger] (n as int % d) != 0,
            forall|k: int| 0 <= k < factors@.len() ==> is_prime_number(#[trigger] factors@[k] as int),
            forall|k: int| 0 <= k < factors@.len() ==> #[trigger] factors@[k] <= i,
            is_sorted(factors@),
        decreases 0x1_0000_0008 - i,
    {
        proof {
            assert(i < 0x1_0000_0000) by (nonlinear_arith)
                requires
                    i * i <= n,
                    n <= 0xffff_ffff_ffff_ffff,
            ;
        }
        while n % i == 0
            invariant
                n > 0,
                n % 2 != 0,
                n % 3 != 0,
                5 <= i < 0x1_0000_0000,
                product(factors@) * n == n0,
                forall|d: int| 2 <= d < i ==> #[trigger] (n as int % d) != 0,
                forall|k: int| 0 <= k < factors@.len() ==> is_prime_number(#[trigger] factors@[k] as int),
                forall|k: int| 0 <= k < factors@.len() ==> #[trigger] factors@[k] <= i,
                is_sorted(factors@),
            decreases n,
        {
            let ghost f = factors@;
            let ghost n1 = n as int;
            proof {
                lemma_least_divisor_is_prime(n as int, i as int);
            }
            factors.push(i);
            proof {
                assert(factors@.drop_last() == f);
                lemma_fundamental_div_mod(n as int, i as int);
            }
            n = n / i;
            proof {
                assert(product(factors@) * n == n0) by (nonlinear_arith)
                    requires
                        product(factors@) == product(f) * i,
                        product(f) * (i * n + 0) == n0,
                ;
                assert(n > 0) by (nonlinear_arith)
                    requires
                        n1 == i * n,
                        n1 > 0,
                        i > 0,
                ;
                assert(n < n1) by (nonlinear_arith)
                    requires
                        n1 == i * n,
                        n > 0,
                        i >= 5,
                ;
                if n % 2 == 0 {
                    lemma_divisor_of_quotient(n1, i as int, 2);
                }
                if n % 3 == 0 {
                    lemma_divisor_of_quotient(n1, i as int, 3);
                }
                assert forall|d: int| 2 <= d < i implies #[trigger] (n as int % d) != 0 by {
                    if n as int % d == 0 {
                        lemma_divisor_of_quotient(n1, i as int, d);
                    }
                }
            }
        }
        let ghost old_i = i as int;
        i = i + inc;
        inc = 6 - inc;
        proof {
            assert(i * i < 0x2_0000_0000_0000_0000) by (nonlinear_arith)
                requires
                    i < 0x1_0000_0008,
            ;
            assert forall|d: int| 2 <= d < i implies #[trigger] (n as int % d) != 0 by {
                if d > old_i {
                    if d % 2 == 0 {
                        if n as int % d == 0 {
                            lemma_divides_trans(2, d, n as int);
                        }
                    } else {
                        assert(d % 3 == 0);
                        if n as int % d == 0 {
                            lemma_divides_trans(3, d, n as int);
                        }
                    }
                }
            }
        }
    }
    if n > 1 {
        let ghost f = factors@;
        proof {
            lemma_no_small_divisor_is_prime(n as int, i as int);
            if n < i {
                vstd::arithmetic::div_mod::lemma_mod_self_0(n as int);
            }
        }
        factors.push(n);
        proof {
            assert(factors@.drop_last() == f);
        }
    } else {
        proof {
            assert(n == 1);
        }
    }
    factors
}

/// `m` with every factor two removed (zero stays zero).
pub open spec fn odd_part(m: nat) -> nat
    decreases m,
{
    if m > 0 && m % 2 == 0 {
        odd_part(m / 2)
    } else {
        m
    }
}

/// How many times two divides `m` (none for zero).
pub open spec fn two_exponent(m: nat) -> nat
    decreases m,
{
    if m > 0 && m % 2 == 0 {
        two_exponent(m / 2) + 1
    } else {
        0
    }
}

/// Splits `n` into its odd part and the exponent of two: `n == d * 2^s`.
fn factor_power_of_two(n: u64) -> (r: (u64, u64))
    requires
        n > 0,
    ensures
        r.0 as nat == odd_part(n as nat),
        r.1 as nat == two_exponent(n as nat),
        r.0 as int * pow2(r.1 as nat) == n,
        r.0 % 2 == 1,
        r.1 < 64,
{
    let mut d: u64 = n;
    let mut s: u64 = 0;
    proof {
        vstd::arithmetic::power2::lemma2_to64();
    }
    while d % 2 == 0
        invariant
            d > 0,
            odd_part(d as nat) == odd_part(n as nat),
            two_exponent(d as nat) + s == two_exponent(n as nat),
            d * pow2(s as nat) == n,
            s < 64,
            d * pow2(s as nat) <= 0xffff_ffff_ffff_ffff,
        decreases d,
    {
        let ghost d0 = d;
        d = d / 2;
        proof {
            lemma_pow2_unfold((s + 1) as nat);
            lemma_fundamental_div_mod(d0 as int, 2);
            assert(d * pow2((s + 1) as nat) == n) by (nonlinear_arith)
                requires
                    d0 == 2 * d,
                    d0 * pow2(s as nat) == n,
                    pow2((s + 1) as nat) == 2 * pow2(s as nat),
            ;
            if s + 1 >= 64 {
                vstd::arithmetic::power2::lemma2_to64();
                if s + 1 > 64 {
                    vstd::arithmetic::power2::lemma_pow2_strictly_increases(64, (s + 1) as nat);
                }
                assert(d * pow2((s + 1) as nat) >= pow2((s + 1) as nat)) by (nonlinear_arith)
                    requires
                        d >= 1,
                        pow2((s + 1) as nat) >= 0,
                ;
            }
        }
        s = s + 1;
    }
    (d, s)
}

/// The witnesses of the primality test: the first twelve primes.
pub open spec fn witnesses() -> Seq<u64> {
    seq![2u64, 3, 5, 7, 11, 13, 17, 19, 23, 29, 31, 37]
}

/// Whether odd `n > 2` is a strong probable prime to base `a`: with
/// `n - 1 == d * 2^s` and `d` odd, either `a^d` is one modulo `n`, or
/// `a^(d * 2^r)` is minus one modulo `n` for some `r < s`.
pub open spec fn is_strong_probable_prime(n: nat, a: nat) -> bool {
    let d = odd_part((n - 1) as nat);
    let s = two_exponent((n - 1) as nat);
    pow(a as int, d) % (n as int) == 1 || exists|r: nat|
        r < s && #[trigger] (pow(a as int, d * pow2(r)) % (n as int)) == n - 1
}

/// The deterministic Miller-Rabin test: numbers up to three are decided
/// directly, multiples of two and three are composite, and any other `n`
/// passes when it is a strong probable prime to each witness below it.
pub open spec fn passes_prime_test(n: nat) -> bool {
    if n <= 1 {
        false
    } else if n <= 3 {
        true
    } else if n % 2 == 0 || n % 3 == 0 {
        false
    } else {
        forall|k: int|
            0 <= k < witnesses().len() && witnesses()[k] < n ==> is_strong_probable_prime(
                n,
                #[trigger] witnesses()[k] as nat,
            )
    }
}

/// Squaring `a^e mod n` gives `a^(2e) mod n`.
proof fn lemma_square_mod(a: int, e: nat, n: int)
    requires
        n > 0,
    ensures
        pow(pow(a, e) % n, 2) % n == pow(a, e * 2) % n,
{
    lemma_pow_mod_noop(pow(a, e), 2, n);
    lemma_pow_multiplies(a, e, 2);
}

/// Primality by the deterministic Miller-Rabin test with the first twelve
/// primes as witnesses. That this test decides primality for every `u64`
/// is a known result of number theory that is not proved here: the
/// contract states the test itself.
pub fn is_prime(n: u64) -> (r: bool)
    ensures
        r == passes_prime_test(n as nat),
{
    if n <= 1 {
        return false;
    }
    if n <= 3 {
        return true;
    }
    if n % 2 == 0 || n % 3 == 0 {
        return false;
    }
    let witness_list: [u64; 12] = [2, 3, 5, 7, 11, 13, 17, 19, 23, 29, 31, 37];
    proof {
        assert(witness_list@ == witnesses());
    }
    let (d, s) = factor_power_of_two(n - 1);
    let mut k: usize = 0;
    while k < 12 && witness_list[k] < n
        invariant
            n > 3,
            n % 2 == 1,
            witness_list@ == witnesses(),
            d as nat == odd_part((n - 1) as nat),
            s as nat == two_exponent((n - 1) as nat),
            k <= 12,
            forall|i: int| 0 <= i < k ==> is_strong_probable_prime(n as nat, #[trigger] witnesses()[i] as nat),
        decreases 12 - k,
    {
        let a = witness_list[k];
        let ghost dn: nat = d as nat;
        let mut x = mod_pow(a, d, n);
        let ghost x0 = x;
        proof {
            vstd::arithmetic::power2::lemma2_to64();
            assert(dn * pow2(0) == dn);
            assert((n - 1) as nat % 2 == 0);
            assert(two_exponent((n - 1) as nat) >= 1);
        }
        if x != 1 && x != n - 1 {
            let mut found = false;
            let mut j: u64 = 1;
            while j < s && !found
                invariant
                    n > 3,
                    1 <= j,
                    dn == d,
                    pow(a as int, dn) % (n as int) != 1,
                    !found ==> x as int == pow(a as int, dn * pow2((j - 1) as nat)) % (n as int),
                    !found ==> forall|r: nat| r < j ==> #[trigger] (pow(a as int, dn * pow2(r)) % (n as int)) != n - 1,
                    found ==> exists|r: nat| r < s && #[trigger] (pow(a as int, dn * pow2(r)) % (n as int)) == n - 1,
                decreases s - j,
            {
                let ghost e: nat = dn * pow2((j - 1) as nat);
                x = mod_pow(x, 2, n);
                proof {
                    lemma_square_mod(a as int, e, n as int);
                    lemma_pow2_unfold(j as nat);
                    assert(e * 2 == dn * pow2(j as nat)) by (nonlinear_arith)
                        requires
                            e == dn * pow2((j - 1) as nat),
                            pow2(j as nat) == 2 * pow2((j - 1) as nat),
                    ;
                }
                if x == n - 1 {
                    found = true;
                }
                j = j + 1;
            }
            if !found {
                proof {
                    assert forall|r: nat| r < two_exponent((n - 1) as nat) implies #[trigger] (pow(a as int, dn * pow2(r)) % (n as int)) != n - 1 by {
                        assert(r < j);
                    }
                    assert(!is_strong_probable_prime(n as nat, a as nat));
                }
                return false;
            }
        }
        proof {
            assert(a == witnesses()[k as int]);
            if x0 == n - 1 {
                assert(pow(a as int, dn * pow2(0)) % (n as int) == n - 1);
            }
            assert(is_strong_probable_prime(n as nat, a as nat));
        }
        k = k + 1;
    }
    proof {
        assert forall|i: int| 0 <= i < witnesses().len() && witnesses()[i] < n implies
            is_strong_probable_prime(n as nat, #[trigger] witnesses()[i] as nat) by {
            if i >= k {
                assert(witnesses()[k as int] >= n);
                assert(witnesses()[i] >= witnesses()[k as int]);
            }
        }
    }
    true
}

/// Rust's integer quotient, rounded toward zero.
pub open spec fn tdiv(b: int, a: int) -> int {
    if b == 0 {
        0
    } else if b > 0 && a > 0 {
        b / a
    } else if b < 0 && a < 0 {
        (-b) / (-a)
    } else if b < 0 {
        -((-b) / a)
    } else {
        -(b / (-a))
    }
}

/// Rust's integer remainder, which takes the sign of the dividend.
pub open spec fn trem(b: int, a: int) -> int {
    if b == 0 {
        0
    } else if b > 0 && a > 0 {
        b % a
    } else if b < 0 && a < 0 {
        -((-b) % (-a))
    } else if b < 0 {
        -((-b) % a)
    } else {
        b % (-a)
    }
}

/// The absolute value of `a`.
pub open spec fn abs(a: int) -> int {
    if a < 0 {
        -a
    } else {
        a
    }
}

/// Rust's quotient and remainder recombine into the dividend, and the
/// remainder is smaller in size than the divisor.
proof fn lemma_trunc_div_rem(b: int, a: int)
    requires
        a != 0,
    ensures
        b == a * tdiv(b, a) + trem(b, a),
        abs(trem(b, a)) < abs(a),
{
    let x = abs(b);
    let d = abs(a);
    lemma_fundamental_div_mod(x, d);
    let q = x / d;
    let r = x % d;
    assert(x == d * q + r);
    if b == 0 {
    } else if b > 0 && a > 0 {
    } else if b < 0 && a < 0 {
        assert(b == a * q + (-r)) by (nonlinear_arith)
            requires
                x == d * q + r,
                x == -b,
                d == -a,
        ;
    } else if b < 0 {
        assert(b == a * (-q) + (-r)) by (nonlinear_arith)
            requires
                x == d * q + r,
                x == -b,
                d == a,
        ;
    } else {
        assert(b == a * (-q) + r) by (nonlinear_arith)
            requires
                x == d * q + r,
                x == b,
                d == -a,
        ;
    }
}

/// The extended Euclidean recursion, step by step as `extended_gcd` takes
/// it: `(g, x, y)` with `a * x + b * y == g`. The remainder is always
/// smaller than the divisor (`lemma_trunc_div_rem`); the test on it only
/// shows that the recursion ends.
pub open spec fn egcd(a: int, b: int) -> (int, int, int)
    decreases abs(a),
{
    if a == 0 {
        (b, 0, 1)
    } else {
        let r = trem(b, a);
        if abs(r) < abs(a) {
            let (g, x1, y1) = egcd(r, a);
            (g, y1 - tdiv(b, a) * x1, x1)
        } else {
            (b, 0, 1)
        }
    }
}

/// Whether `v` fits in an `i64`.
pub open spec fn fits_i64(v: int) -> bool {
    i64::MIN <= v <= i64::MAX
}

/// Whether `extended_gcd(a, b)` computes without overflow at every step:
/// no step divides `i64::MIN` by `-1`, and every coefficient fits.
pub open spec fn egcd_fits(a: int, b: int) -> bool
    decreases abs(a),
{
    if a == 0 {
        true
    } else if b == i64::MIN && a == -1 {
        false
    } else {
        let r = trem(b, a);
        if abs(r) < abs(a) {
            let (g, x1, y1) = egcd(r, a);
            egcd_fits(r, a) && fits_i64(tdiv(b, a) * x1) && fits_i64(y1 - tdiv(b, a) * x1)
        } else {
            false
        }
    }
}

/// Whether `d` divides `a`.
pub open spec fn divides(d: int, a: int) -> bool {
    exists|k: int| #[trigger] (d * k) == a
}

/// The result of the recursion is a common divisor of its arguments and
/// their combination with its coefficients.
proof fn lemma_egcd_bezout(a: int, b: int)
    ensures
        a * egcd(a, b).1 + b * egcd(a, b).2 == egcd(a, b).0,
        a != 0 ==> divides(egcd(a, b).0, a) && divides(egcd(a, b).0, b),
        a == 0 ==> egcd(a, b).0 == b,
    decreases abs(a),
{
    if a != 0 {
        lemma_trunc_div_rem(b, a);
        let r = trem(b, a);
        let q = tdiv(b, a);
        let (g, x1, y1) = egcd(r, a);
        lemma_egcd_bezout(r, a);
        assert(a * (y1 - q * x1) + b * x1 == g) by (nonlinear_arith)
            requires
                r * x1 + a * y1 == g,
                b == a * q + r,
        ;
        if r == 0 {
            assert(g == a);
            assert(g * 1 == a);
            assert(g * q == b);
        } else {
            let ka = choose|k: int| #[trigger] (g * k) == a;
            let kr = choose|k: int| #[trigger] (g * k) == r;
            assert(g * (ka * q + kr) == b) by (nonlinear_arith)
                requires
                    g * ka == a,
                    g * kr == r,
                    b == a * q + r,
            ;
        }
    }
}

/// The extended Euclidean algorithm: `(g, x, y)` with `a * x + b * y == g`,
/// where `g` divides both `a` and `b` (so it is their greatest common
/// divisor up to sign).
pub fn extended_gcd(a: i64, b: i64) -> (r: (i64, i64, i64))
    requires
        egcd_fits(a as int, b as int),
    ensures
        (r.0 as int, r.1 as int, r.2 as int) == egcd(a as int, b as int),
        a * r.1 + b * r.2 == r.0,
        divides(r.0 as int, a as int),
        divides(r.0 as int, b as int),
    decreases abs(a as int),
{
    proof {
        lemma_egcd_bezout(a as int, b as int);
    }
    if a == 0 {
        proof {
            assert(b * 0 == a);
            assert(b * 1 == b);
        }
        return (b, 0, 1);
    }
    proof {
        lemma_trunc_div_rem(b as int, a as int);
    }
    let r = b.checked_rem(a).unwrap();
    let q = b.checked_div(a).unwrap();
    let (gcd, x1, y1) = extended_gcd(r, a);
    let x = y1 - q * x1;
    let y = x1;
    (gcd, x, y)
}

/// The inverse of `a` modulo `m`, in the range Rust's remainder gives, when
/// `a` and `m` have greatest common divisor one.
pub fn mod_inverse(a: i64, m: i64) -> (r: Option<i64>)
    requires
        egcd_fits(a as int, m as int),
        egcd(a as int, m as int).0 == 1 ==> m != 0 && !(egcd(a as int, m as int).1 == i64::MIN
            && m == -1) && fits_i64(trem(egcd(a as int, m as int).1, m as int) + m),
    ensures
        egcd(a as int, m as int).0 != 1 ==> r is None,
        egcd(a as int, m as int).0 == 1 ==> r == Some(
            trem(trem(egcd(a as int, m as int).1, m as int) + m, m as int) as i64,
        ),
        r is Some ==> (a * r->0) % (m as int) == 1int % (m as int),
{
    let (gcd, x, _) = extended_gcd(a, m);
    if gcd != 1 {
        None
    } else {
        proof {
            lemma_trunc_div_rem(x as int, m as int);
        }
        let xm = x.checked_rem(m).unwrap();
        proof {
            lemma_trunc_div_rem(xm + m, m as int);
        }
        let v = (xm + m).checked_rem(m).unwrap();
        proof {
            let y = egcd(a as int, m as int).2;
            let q1 = tdiv(x as int, m as int);
            let q2 = tdiv(xm + m, m as int);
            let k = q1 + q2 - 1;
            assert(v == x - m * k) by (nonlinear_arith)
                requires
                    x == m * q1 + xm,
                    xm + m == m * q2 + v,
                    k == q1 + q2 - 1,
            ;
            assert(a * v == m * (-y - a * k) + 1) by (nonlinear_arith)
                requires
                    a * x + m * y == 1,
                    v == x - m * k,
            ;
            lemma_mod_multiples_vanish_signed(-y - a * k, 1, m as int);
        }
        Some(v)
    }
}

/// Adding a multiple of a nonzero `m` keeps the remainder.
proof fn lemma_mod_multiples_vanish_signed(k: int, b: int, m: int)
    requires
        m != 0,
    ensures
        (m * k + b) % m == b % m,
{
    if m > 0 {
        vstd::arithmetic::div_mod::lemma_mod_multiples_vanish(k, b, m);
    } else {
        lemma_fundamental_div_mod(m * k + b, m);
        lemma_fundamental_div_mod(b, m);
        let r1 = (m * k + b) % m;
        let r2 = b % m;
        let q1 = (m * k + b) / m;
        let q2 = b / m;
        assert(m * (k - q1 + q2) == r1 - r2) by (nonlinear_arith)
            requires
                m * k + b == m * q1 + r1,
                b == m * q2 + r2,
        ;
        if r1 != r2 {
            let t = k - q1 + q2;
            assert(false) by (nonlinear_arith)
                requires
                    m * t == r1 - r2,
                    0 <= r1 < -m,
                    0 <= r2 < -m,
                    r1 != r2,
                    m < 0,
            ;
        }
    }
}

} // verus!

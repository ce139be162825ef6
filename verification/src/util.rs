//! Modular-inverse arithmetic for the inverse task, with the number
//! theory its contract rests on, and the wall-clock timer handle.

use vstd::prelude::*;
use vstd::arithmetic::div_mod::*;
use vstd::arithmetic::mul::lemma_mul_is_commutative;

verus! {

/// Euclid's greatest common divisor.
pub open spec fn gcd(a: int, b: int) -> int
    decreases b,
    when b >= 0
{
    if b <= 0 {
        a
    } else {
        gcd(b, a % b)
    }
}

/// The gcd divides both arguments and is positive when the first is.
pub proof fn lemma_gcd_divides(a: int, b: int)
    requires
        a >= 1,
        b >= 0,
    ensures
        gcd(a, b) >= 1,
        a % gcd(a, b) == 0,
        b % gcd(a, b) == 0,
    decreases b,
{
    if b == 0 {
        lemma_mod_self_0(a);
        lemma_small_mod(0, a as nat);
    } else {
        lemma_gcd_divides(b, a % b);
        let g = gcd(b, a % b);
        let q = a / b;
        lemma_fundamental_div_mod(a, b);
        assert(a == b * q + a % b);
        lemma_mul_mod_noop_right(q, b, g);
        assert((q * (b % g)) % g == (q * b) % g);
        assert((q * 0) % g == 0) by {
            lemma_small_mod(0, g as nat);
        }
        lemma_add_mod_noop(b * q, a % b, g);
        assert((b * q) % g == (q * b) % g) by {
            lemma_mul_is_commutative(b, q);
        }
        assert(a % g == ((b * q) % g + (a % b) % g) % g);
        lemma_small_mod(0, g as nat);
    }
}

/// A divisor of a positive number is no larger than it.
pub proof fn lemma_divisor_le(d: int, n: int)
    requires
        d >= 1,
        n >= 1,
        n % d == 0,
    ensures
        d <= n,
{
    if d > n {
        lemma_small_mod(n as nat, d as nat);
    }
}

/// Primality, stated by trial division.
pub open spec fn is_prime(p: int) -> bool {
    p >= 2 && forall|d: int| 2 <= d < p ==> #[trigger] (p % d) != 0
}

/// A composite number has a divisor whose square does not exceed it.
proof fn lemma_factor_below_sqrt(n: int, d: int)
    requires
        2 <= d < n,
        n % d == 0,
    ensures
        exists|e: int| 2 <= e && e * e <= n && #[trigger] (n % e) == 0,
{
    let q = n / d;
    lemma_fundamental_div_mod(n, d);
    assert(n == d * q);
    if d * d <= n {
        assert(2 <= d && d * d <= n && n % d == 0);
    } else {
        assert(q >= 2) by (nonlinear_arith)
            requires
                n == d * q,
                2 <= d < n,
        ;
        assert(q < d) by (nonlinear_arith)
            requires
                n == d * q,
                d * d > n,
                d >= 2,
                q >= 2,
        ;
        assert(q * q <= n) by (nonlinear_arith)
            requires
                n == d * q,
                q < d,
                q >= 2,
        ;
        assert(n % q == 0) by {
            lemma_mod_multiples_basic(d, q);
            lemma_mul_is_commutative(d, q);
        }
        assert(2 <= q && q * q <= n && n % q == 0);
    }
}

/// The task modulus 2^16 - 17 is prime: trial division up to its square
/// root, which is below 256, finds no divisor.
pub proof fn lemma_ecc_mod_prime()
    ensures
        is_prime(65519),
{
    assert(forall|d: u16| 2 <= d < 256 ==> #[trigger] (65519u16 % d) != 0) by (bit_vector);
    assert forall|d: int| 2 <= d < 65519 implies #[trigger] (65519int % d) != 0 by {
        if 65519int % d == 0 {
            lemma_factor_below_sqrt(65519, d);
            let e = choose|e: int| 2 <= e && e * e <= 65519 && #[trigger] (65519int % e) == 0;
            assert(e <= 255) by (nonlinear_arith)
                requires
                    2 <= e,
                    e * e <= 65519,
            ;
            assert(65519u16 % (e as u16) != 0);
        }
    }
}

/// For a prime `p`, every residue in 1..p is coprime with it.
pub proof fn lemma_prime_gcd(p: int, a: int)
    requires
        is_prime(p),
        1 <= a < p,
    ensures
        gcd(p, a) == 1,
{
    lemma_gcd_divides(p, a);
    let g = gcd(p, a);
    lemma_divisor_le(g, a);
    if g >= 2 {
        assert(p % g == 0);
    }
}

/// The coefficient track of the extended Euclidean algorithm, with every
/// coefficient kept reduced modulo `m`.
pub open spec fn inv_rec(r0: int, r1: int, x0: int, x1: int, m: int) -> int
    decreases r1,
    when r1 >= 0 && r0 >= 1
{
    if r1 <= 0 {
        x0
    } else {
        inv_rec(r1, r0 % r1, x1, (x0 - (r0 / r1) * x1) % m, m)
    }
}

/// The modular inverse that the extended Euclidean algorithm computes,
/// normalized into [0, m).
pub open spec fn inv_mod(a: int, m: int) -> int {
    inv_rec(m, a, 0, 1, m)
}

/// The algorithm's invariant: each remainder is congruent to its
/// coefficient times `a`; when the remainders reach gcd 1, the final
/// coefficient is an inverse of `a`.
proof fn lemma_inv_rec(a: int, r0: int, r1: int, x0: int, x1: int, m: int)
    requires
        m >= 2,
        r0 >= 1,
        r1 >= 0,
        0 <= x0 < m,
        0 <= x1 < m,
        (x0 * a) % m == r0 % m,
        (x1 * a) % m == r1 % m,
        gcd(r0, r1) == 1,
    ensures
        0 <= inv_rec(r0, r1, x0, x1, m) < m,
        (inv_rec(r0, r1, x0, x1, m) * a) % m == 1int % m,
    decreases r1,
{
    if r1 <= 0 {
        assert(gcd(r0, 0) == r0);
    } else {
        let q = r0 / r1;
        let x2 = (x0 - q * x1) % m;
        lemma_mod_bound(x0 - q * x1, m);
        assert((x2 * a) % m == ((x0 - q * x1) * a) % m) by {
            lemma_mul_mod_noop_left(x0 - q * x1, a, m);
        }
        assert((x0 - q * x1) * a == x0 * a - q * (x1 * a)) by (nonlinear_arith);
        assert((q * (x1 * a)) % m == (q * r1) % m) by {
            lemma_mul_mod_noop_right(q, x1 * a, m);
            lemma_mul_mod_noop_right(q, r1, m);
        }
        assert((x0 * a - q * (x1 * a)) % m == (r0 - q * r1) % m) by {
            lemma_sub_mod_noop(x0 * a, q * (x1 * a), m);
            lemma_sub_mod_noop(r0, q * r1, m);
        }
        lemma_fundamental_div_mod(r0, r1);
        assert(r0 - q * r1 == r0 % r1) by {
            lemma_mul_is_commutative(r1, q);
        }
        lemma_inv_rec(a, r1, r0 % r1, x1, x2, m);
    }
}

/// The final coefficient is always reduced into [0, m), coprime or not.
proof fn lemma_inv_rec_range(r0: int, r1: int, x0: int, x1: int, m: int)
    requires
        m >= 2,
        r0 >= 1,
        r1 >= 0,
        0 <= x0 < m,
        0 <= x1 < m,
    ensures
        0 <= inv_rec(r0, r1, x0, x1, m) < m,
    decreases r1,
{
    if r1 > 0 {
        lemma_mod_bound(x0 - (r0 / r1) * x1, m);
        lemma_inv_rec_range(r1, r0 % r1, x1, (x0 - (r0 / r1) * x1) % m, m);
    }
}

/// The normalized inverse lies in [0, m) for every input.
pub proof fn lemma_inv_mod_range(a: int, m: int)
    requires
        m >= 2,
        0 <= a,
    ensures
        0 <= inv_mod(a, m) < m,
{
    lemma_inv_rec_range(m, a, 0, 1, m);
}

/// The computed inverse is a true modular inverse whenever `a` is coprime
/// with the modulus.
pub proof fn lemma_inv_mod(a: int, m: int)
    requires
        m >= 2,
        0 <= a < m,
        gcd(m, a) == 1,
    ensures
        0 <= inv_mod(a, m) < m,
        (a * inv_mod(a, m)) % m == 1,
    decreases m,
{
    assert((0 * a) % m == m % m) by {
        lemma_small_mod(0, m as nat);
        lemma_mod_self_0(m);
    }
    assert((1 * a) % m == a % m);
    lemma_inv_rec(a, m, a, 0, 1, m);
    lemma_small_mod(1, m as nat);
    lemma_mul_is_commutative(a, inv_mod(a, m));
}

/// The modular multiplicative inverse of `a` under `module`, by the
/// extended Euclidean algorithm, normalized into [0, module). When `a`
/// and the modulus are coprime the result is a true inverse; otherwise
/// there is none, and the result is merely the final Bezout coefficient.
pub fn mod_inv(a: u64, module: u64) -> (r: u64)
    requires
        2 <= module <= 0x1_0000_0000,
        a < module,
    ensures
        r == inv_mod(a as int, module as int),
        r < module,
        gcd(module as int, a as int) == 1 ==> (a as int * r as int) % (module as int) == 1,
{
    let m = module;
    let mut mn0: u64 = module;
    let mut mn1: u64 = a;
    let mut xy0: u64 = 0;
    let mut xy1: u64 = 1;
    while mn1 != 0
        invariant
            2 <= m <= 0x1_0000_0000,
            1 <= mn0 <= 0x1_0000_0000,
            mn1 <= 0x1_0000_0000,
            xy0 < m,
            xy1 < m,
            inv_rec(mn0 as int, mn1 as int, xy0 as int, xy1 as int, m as int) == inv_mod(
                a as int,
                m as int,
            ),
        decreases mn1,
    {
        let q = mn0 / mn1;
        let rem = mn0 % mn1;
        proof {
            assert((q % m) as int * xy1 as int <= u64::MAX) by (nonlinear_arith)
                requires
                    (q % m) < m,
                    xy1 < m,
                    m <= 0x1_0000_0000,
            ;
        }
        let t = ((q % m) * xy1) % m;
        let x2 = (xy0 + m - t) % m;
        proof {
            let qi = mn0 as int / mn1 as int;
            assert(q == qi);
            assert(t as int == (qi * xy1) % (m as int)) by {
                lemma_mul_mod_noop_left(qi, xy1 as int, m as int);
            }
            assert(x2 as int == (xy0 - qi * xy1) % (m as int)) by {
                lemma_mod_add_multiples_vanish(xy0 - t, m as int);
                lemma_sub_mod_noop_right(xy0 as int, qi * xy1, m as int);
            }
        }
        xy0 = xy1;
        xy1 = x2;
        mn0 = mn1;
        mn1 = rem;
    }
    proof {
        assert(inv_rec(mn0 as int, 0, xy0 as int, xy1 as int, m as int) == xy0);
        if gcd(module as int, a as int) == 1 {
            lemma_inv_mod(a as int, module as int);
        }
    }
    xy0
}

/// The inverse task's modulus admits an inverse for every nonzero
/// residue: the modulus is prime, so every such residue is coprime
/// with it.
pub proof fn lemma_mod_inverse_works(a: int)
    requires
        1 <= a < 65519,
    ensures
        0 <= inv_mod(a, 65519) < 65519,
        (a * inv_mod(a, 65519)) % 65519 == 1,
{
    lemma_ecc_mod_prime();
    lemma_prime_gcd(65519, a);
    lemma_inv_mod(a, 65519);
}

#[verifier::external_type_specification]
#[verifier::external_body]
pub struct ExInstant(std::time::Instant);

/// Relies on std::time::Instant::now: an opaque timestamp; nothing can be
/// promised of a clock reading.
#[verifier::external_body]
fn instant_now() -> (r: std::time::Instant) {
    std::time::Instant::now()
}

/// A handle on the instant it was created or last observed. Reading the
/// elapsed seconds yields floating point and stays with unverified
/// callers, who can reach the held instant directly.
pub struct ResetableTimer {
    pub time: Option<std::time::Instant>,
}

impl ResetableTimer {
    pub fn new() -> (r: Self)
        ensures
            r.time is Some,
    {
        Self { time: Some(instant_now()) }
    }
}

} // verus!

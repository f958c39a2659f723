//! Election values: the random numbers a server campaigns with.
use vstd::prelude::*;
use rand::rngs::StdRng;
use rand::Rng;

verus! {

#[verifier::external_type_specification]
#[verifier::external_body]
pub struct ExStdRng(StdRng);

/// Election values lie in `0 .. ELECTION_MODULUS`.
pub const ELECTION_MODULUS: i32 = 100007;

/// `Rng::gen::<i32>` on a `StdRng`: the next number of the generator's
/// stream. Nothing is stated about it: it is whatever the generator gives.
#[verifier::external_body]
fn draw_i32(rng: &mut StdRng) -> i32 {
    rng.gen::<i32>()
}

proof fn lemma_negative_remainder(x: int, m: int, q: int)
    requires
        x < 0,
        m > 0,
        q == (-x) % m,
    ensures
        q == 0 ==> x % m == 0,
        q != 0 ==> x % m == m - q,
{
    let k = (-x) / m;
    assert(-x == k * m + q) by (nonlinear_arith)
        requires
            m > 0,
            k == (-x) / m,
            q == (-x) % m,
    ;
    if q == 0 {
        assert(x == (-k) * m) by (nonlinear_arith)
            requires
                -x == k * m + q,
                q == 0,
        ;
        vstd::arithmetic::div_mod::lemma_mod_multiples_basic(-k, m);
    } else {
        assert(x == (-k - 1) * m + (m - q)) by (nonlinear_arith)
            requires
                -x == k * m + q,
        ;
        vstd::arithmetic::div_mod::lemma_fundamental_div_mod_converse(x, m, -k - 1, m - q);
    }
}

/// Folds a raw random `i32` into `0 .. ELECTION_MODULUS` the way the servers
/// do, `(raw % m + m) % m`: the non-negative remainder of `raw` by `m`.
pub fn election_value_from(raw: i32) -> (v: i32)
    ensures
        v as int == (raw as int) % (ELECTION_MODULUS as int),
        0 <= v < ELECTION_MODULUS,
{
    let m: i64 = 100007;
    let x: i64 = raw as i64;
    if x >= 0 {
        (x % m) as i32
    } else {
        let q: i64 = (-x) % m;
        proof {
            lemma_negative_remainder(x as int, m as int, q as int);
        }
        if q == 0 {
            0
        } else {
            (m - q) as i32
        }
    }
}

/// Draws a fresh election value from `rng`.
pub fn election_value(rng: &mut StdRng) -> (v: i32)
    ensures
        0 <= v < ELECTION_MODULUS,
{
    let raw = draw_i32(rng);
    election_value_from(raw)
}

} // verus!

use crate::bignum::{be_value, BigNat};
use vstd::arithmetic::div_mod::{
    lemma_small_mod,
    lemma_add_mod_noop, lemma_fundamental_div_mod, lemma_mod_bound, lemma_sub_mod_noop, lemma_fundamental_div_mod_converse,
    lemma_mod_multiples_basic, lemma_mod_twice, lemma_mul_mod_noop, lemma_mul_mod_noop_right,
};
use vstd::arithmetic::power::{
    lemma1_pow, lemma_pow1, lemma_pow_adds, lemma_pow_mod_noop, lemma_pow_multiplies, pow,
};
use vstd::prelude::*;

verus! {

/// The 1024-bit prime modulus of the deployed group, in hexadecimal.
pub const P_1024_HEX: &'static str = "B10B8F96A080E01DDE92DE5EAE5D54EC52C99FBCFB06A3C69A6A9DCA52D23B616073E28675A23D189838EF1E2EE652C013ECB4AEA906112324975C3CD49B83BFACCBDD7D90C4BD7098488E9C219A73724EFFD6FAE5644738FAA31A4FF55BCCC0A151AF5F0DC8B4BD45BF37DF365C1A65E68CFDA76D4DA708DF1FB2BC2E4A4371";

/// The 160-bit prime order of the deployed subgroup, in hexadecimal.
pub const Q_1024_HEX: &'static str = "F518AA8781A8DF278ABA4E7D64B7CB9D49462353";

/// The generator `alpha` of the deployed subgroup, in hexadecimal.
pub const ALPHA_1024_HEX: &'static str = "A4D1CBD5C3FD34126765A442EFB99905F8104DD258AC507FD6406CFF14266D31266FEA1E5C41564B777E690F5504F213160217B4B01B886A5E91547F9E2749F4D7FBD7D3B9A92EE1909D0D2263F80A76A6A24C087A091F531DBF0A0169B6A28AD662A4D18E73AFA32D779D5918D08BC8858F4DCEF97C2A24855E6EEB22B3B2E5";

/// The exponent that makes `beta = alpha^w mod p` in the deployed group.
pub const BETA_EXPONENT: u32 = 1469131869;

/// An ASCII hexadecimal digit, in either case.
pub open spec fn is_hex_digit(ch: char) -> bool {
    ('0' <= ch && ch <= '9') || ('a' <= ch && ch <= 'f') || ('A' <= ch && ch <= 'F')
}

/// The value of a hexadecimal digit.
pub open spec fn hex_digit_value(ch: char) -> nat {
    if '0' <= ch && ch <= '9' {
        (ch as nat - '0' as nat) as nat
    } else if 'a' <= ch && ch <= 'f' {
        (ch as nat - 'a' as nat + 10) as nat
    } else {
        (ch as nat - 'A' as nat + 10) as nat
    }
}

/// An even number of hexadecimal digits.
pub open spec fn is_hex(s: Seq<char>) -> bool {
    &&& s.len() % 2 == 0
    &&& forall|i: int| 0 <= i < s.len() ==> #[trigger] is_hex_digit(s[i])
}

/// The bytes that a string of hexadecimal digits spells, two digits a byte,
/// the high digit first.
pub open spec fn hex_bytes(s: Seq<char>) -> Seq<u8> {
    Seq::new(
        s.len() / 2,
        |i: int| (hex_digit_value(s[2 * i]) * 16 + hex_digit_value(s[2 * i + 1])) as u8,
    )
}

/// A string of `n` bytes 0xFF is the number `256^n - 1`.
proof fn lemma_all_ones(n: nat)
    ensures
        be_value(Seq::new(n, |i: int| 255u8)) == pow(256, n) - 1,
    decreases n,
{
    reveal(pow);
    if n > 0 {
        let s = Seq::new(n, |i: int| 255u8);
        assert(s.drop_last() =~= Seq::new((n - 1) as nat, |i: int| 255u8));
        lemma_all_ones((n - 1) as nat);
    }
}

/// Relies on `hex::decode`, which turns each pair of hexadecimal digits into one
/// byte and fails only on an odd length or a character that is no digit.
#[verifier::external_body]
fn hex_decode(s: &str) -> (r: Vec<u8>)
    requires
        is_hex(s@),
    ensures
        r@ == hex_bytes(s@),
{
    hex::decode(s).expect("a string of hexadecimal digits")
}

/// `s = (k - c·x) mod q`, the prover's answer to challenge `c`.
pub open spec fn response(k: nat, c: nat, x: nat, q: nat) -> nat
    recommends
        q > 0,
{
    ((k - c * x) % (q as int)) as nat
}

/// `(alpha^s · y^c) mod p`, the commitment that an answer `s` to challenge `c` rebuilds.
pub open spec fn rebuilt(alpha: nat, y: nat, s: nat, c: nat, p: nat) -> int {
    (pow(alpha as int, s) * pow(y as int, c)) % (p as int)
}

/// Both verification equations hold: `r1 = alpha^s · y1^c mod p` and
/// `r2 = beta^s · y2^c mod p`.
pub open spec fn accepts(
    alpha: nat,
    beta: nat,
    p: nat,
    y1: nat,
    y2: nat,
    r1: nat,
    r2: nat,
    s: nat,
    c: nat,
) -> bool {
    &&& r1 == rebuilt(alpha, y1, s, c, p)
    &&& r2 == rebuilt(beta, y2, s, c, p)
}

/// If `g^q = 1 (mod p)`, then `g^(q·j) = 1 (mod p)`.
proof fn lemma_pow_order_multiple(g: int, p: int, q: nat, j: nat)
    requires
        p > 0,
        pow(g, q) % p == 1,
    ensures
        pow(g, q * j) % p == 1,
{
    assert(p > 1) by {
        if p == 1 {
            assert(pow(g, q) % p == 0);
        }
    }
    lemma_pow_multiplies(g, q, j);
    lemma_pow_mod_noop(pow(g, q), j, p);
    lemma1_pow(j);
    lemma_small_mod(1, p as nat);
}

/// If `g^q = 1 (mod p)`, exponents of `g` count modulo `q`: `g^(e + q·j) = g^e (mod p)`.
proof fn lemma_pow_exponent_shift(g: int, p: int, q: nat, e: nat, j: nat)
    requires
        p > 0,
        pow(g, q) % p == 1,
    ensures
        pow(g, e + q * j) % p == pow(g, e) % p,
{
    lemma_pow_order_multiple(g, p, q, j);
    lemma_pow_adds(g, e, q * j);
    lemma_mul_mod_noop_right(pow(g, e), pow(g, q * j), p);
}

/// If `g^q = 1 (mod p)`, then `g^e = g^(e mod q) (mod p)`.
proof fn lemma_pow_exponent_mod(g: int, p: int, q: nat, e: nat)
    requires
        p > 0,
        q > 0,
        pow(g, q) % p == 1,
    ensures
        pow(g, e) % p == pow(g, ((e as int) % (q as int)) as nat) % p,
{
    let ei = e as int;
    let qi = q as int;
    lemma_fundamental_div_mod(ei, qi);
    let j = (ei / qi) as nat;
    assert(ei == ei % qi + q * j);
    lemma_pow_exponent_shift(g, p, q, (ei % qi) as nat, j);
}

/// With `y = g^x mod p`, the rebuilt commitment `g^s · y^c mod p` is `g^(s + x·c) mod p`.
proof fn lemma_rebuilt_exponent(g: nat, p: nat, x: nat, s: nat, c: nat)
    requires
        p > 0,
    ensures
        rebuilt(g, (pow(g as int, x) % (p as int)) as nat, s, c, p) == pow(g as int, s + x * c) % (p as int),
{
    let pi = p as int;
    let y = pow(g as int, x) % pi;
    lemma_pow_mod_noop(pow(g as int, x), c, pi);
    lemma_pow_multiplies(g as int, x, c);
    lemma_mul_mod_noop_right(pow(g as int, s), pow(y, c), pi);
    lemma_mul_mod_noop_right(pow(g as int, s), pow(g as int, x * c), pi);
    lemma_pow_adds(g as int, s, x * c);
}

/// If `g^q = 1 (mod p)`, the honest answer rebuilds the commitment `g^k mod p`
/// from `y = g^x mod p`.
proof fn lemma_honest_equation(g: nat, p: nat, q: nat, x: nat, k: nat, c: nat)
    requires
        p > 0,
        q > 0,
        pow(g as int, q) % (p as int) == 1,
    ensures
        pow(g as int, k) % (p as int) == rebuilt(
            g,
            (pow(g as int, x) % (p as int)) as nat,
            response(k, c, x, q),
            c,
            p,
        ),
{
    let s = response(k, c, x, q);
    let qi = q as int;
    lemma_rebuilt_exponent(g, p, x, s, c);
    lemma_fundamental_div_mod(k - c * x, qi);
    let t = (k - c * x) / qi;
    assert(k - c * x == qi * t + s);
    if t >= 0 {
        assert(k == (s + x * c) + q * (t as nat)) by (nonlinear_arith)
            requires
                k - c * x == qi * t + s,
                qi == q,
                t >= 0,
        ;
        lemma_pow_exponent_shift(g as int, p as int, q, s + x * c, t as nat);
    } else {
        assert(s + x * c == k + q * ((-t) as nat)) by (nonlinear_arith)
            requires
                k - c * x == qi * t + s,
                qi == q,
                t < 0,
        ;
        lemma_pow_exponent_shift(g as int, p as int, q, k, (-t) as nat);
    }
}

/// Completeness: when `alpha^q = 1 (mod p)` and `beta = alpha^w mod p`, a prover
/// who registered `y1 = alpha^x mod p, y2 = beta^x mod p` and committed
/// `r1 = alpha^k mod p, r2 = beta^k mod p` is accepted with the answer
/// `solve(k, c, x)`, for every challenge `c`.
pub proof fn lemma_honest_prover_accepted(
    alpha: nat,
    beta: nat,
    p: nat,
    q: nat,
    w: nat,
    x: nat,
    k: nat,
    c: nat,
)
    requires
        p > 0,
        q > 0,
        pow(alpha as int, q) % (p as int) == 1,
        beta == pow(alpha as int, w) % (p as int),
    ensures
        accepts(
            alpha,
            beta,
            p,
            (pow(alpha as int, x) % (p as int)) as nat,
            (pow(beta as int, x) % (p as int)) as nat,
            (pow(alpha as int, k) % (p as int)) as nat,
            (pow(beta as int, k) % (p as int)) as nat,
            response(k, c, x, q),
            c,
        ),
{
    let pi = p as int;
    // beta has order dividing q as well: beta^q = (alpha^q)^w = 1 (mod p)
    lemma_pow_mod_noop(pow(alpha as int, w), q, pi);
    lemma_pow_multiplies(alpha as int, w, q);
    assert(w * q == q * w) by (nonlinear_arith);
    lemma_pow_order_multiple(alpha as int, pi, q, w);
    assert(pow(beta as int, q) % pi == pow(alpha as int, q * w) % pi);
    assert(pow(beta as int, q) % pi == 1);
    lemma_honest_equation(alpha, p, q, x, k, c);
    lemma_honest_equation(beta, p, q, x, k, c);
}

/// `q` is a prime number.
pub open spec fn is_prime(q: nat) -> bool {
    &&& q > 1
    &&& forall|d: nat| 1 < d < q ==> #[trigger] (q % d) != 0
}

/// A prime divides no product of two numbers in `(0, q)`.
proof fn lemma_prime_no_zero_divisors(q: nat, a: nat, b: nat)
    requires
        is_prime(q),
        0 < a < q,
        0 < b < q,
    ensures
        ((a * b) as int) % (q as int) != 0,
    decreases a,
{
    let qi = q as int;
    if a == 1 {
        lemma_small_mod(b, q);
    } else {
        assert(q % a != 0);
        let t = qi / (a as int);
        let r = qi % (a as int);
        lemma_fundamental_div_mod(qi, a as int);
        assert(0 < r < a);
        lemma_prime_no_zero_divisors(q, r as nat, b);
        if ((a * b) as int) % qi == 0 {
            lemma_fundamental_div_mod((a * b) as int, qi);
            let m = (a * b) as int / qi;
            assert(r * b == (b - t * m) * qi) by (nonlinear_arith)
                requires
                    qi == (a as int) * t + r,
                    (a * b) as int == qi * m + 0,
            ;
            lemma_mod_multiples_basic(b - t * m, qi);
        }
    }
}

/// Soundness over a prime-order group: when `q` is prime and `alpha` has
/// order exactly `q` modulo `p` (its powers `alpha^0 .. alpha^(q-1)` are
/// distinct and `alpha^q = 1`), an answer `solve(k, c, x_fake)` computed from
/// a secret that differs from the registered `x` modulo `q` is rejected for
/// every challenge `c` that is not a multiple of `q`; a challenge drawn
/// uniformly below `q` is such a multiple with probability `1/q` only.
pub proof fn lemma_wrong_secret_rejected(
    alpha: nat,
    beta: nat,
    p: nat,
    q: nat,
    x: nat,
    x_fake: nat,
    k: nat,
    c: nat,
)
    requires
        p > 0,
        is_prime(q),
        pow(alpha as int, q) % (p as int) == 1,
        forall|i: nat, j: nat|
            i < q && j < q && #[trigger] (pow(alpha as int, i) % (p as int)) == #[trigger] (pow(
                alpha as int,
                j,
            ) % (p as int)) ==> i == j,
        (x as int) % (q as int) != (x_fake as int) % (q as int),
        (c as int) % (q as int) != 0,
    ensures
        !accepts(
            alpha,
            beta,
            p,
            (pow(alpha as int, x) % (p as int)) as nat,
            (pow(beta as int, x) % (p as int)) as nat,
            (pow(alpha as int, k) % (p as int)) as nat,
            (pow(beta as int, k) % (p as int)) as nat,
            response(k, c, x_fake, q),
            c,
        ),
{
    let qi = q as int;
    let d = x - x_fake;
    lemma_sub_mod_noop(x as int, x_fake as int, qi);
    lemma_fundamental_div_mod(d, qi);
    assert(d % qi != 0) by {
        if d % qi == 0 {
            lemma_fundamental_div_mod(x as int, qi);
            lemma_fundamental_div_mod(x_fake as int, qi);
            lemma_mod_bound(x as int, qi);
            lemma_mod_bound(x_fake as int, qi);
            let u = (x as int) % qi - (x_fake as int) % qi;
            assert(-qi < u < qi);
            if u < 0 {
                lemma_fundamental_div_mod_converse(u, qi, -1, u + qi);
            } else if u > 0 {
                lemma_small_mod(u as nat, q);
            }
        }
    }
    lemma_mod_bound(c as int, qi);
    lemma_mod_bound(d, qi);
    lemma_prime_no_zero_divisors(q, ((c as int) % qi) as nat, (d % qi) as nat);
    lemma_mul_mod_noop(c as int, d, qi);
    lemma_wrong_secret_needs_multiple(alpha, beta, p, q, x, x_fake, k, c);
}

/// When `alpha` has order exactly `q` modulo `p`, an answer computed from a
/// secret `x_fake` other than `x` passes only when `q` divides `c·(x - x_fake)`.
proof fn lemma_wrong_secret_needs_multiple(
    alpha: nat,
    beta: nat,
    p: nat,
    q: nat,
    x: nat,
    x_fake: nat,
    k: nat,
    c: nat,
)
    requires
        p > 0,
        q > 0,
        pow(alpha as int, q) % (p as int) == 1,
        forall|i: nat, j: nat|
            i < q && j < q && #[trigger] (pow(alpha as int, i) % (p as int)) == #[trigger] (pow(
                alpha as int,
                j,
            ) % (p as int)) ==> i == j,
        (c * (x - x_fake)) % (q as int) != 0,
    ensures
        !accepts(
            alpha,
            beta,
            p,
            (pow(alpha as int, x) % (p as int)) as nat,
            (pow(beta as int, x) % (p as int)) as nat,
            (pow(alpha as int, k) % (p as int)) as nat,
            (pow(beta as int, k) % (p as int)) as nat,
            response(k, c, x_fake, q),
            c,
        ),
{
    let pi = p as int;
    let qi = q as int;
    let s = response(k, c, x_fake, q);
    lemma_rebuilt_exponent(alpha, p, x, s, c);
    lemma_pow_exponent_mod(alpha as int, pi, q, s + x * c);
    lemma_pow_exponent_mod(alpha as int, pi, q, k);
    let e1 = (((s + x * c) as int) % qi) as nat;
    let e2 = ((k as int) % qi) as nat;
    if pow(alpha as int, k) % pi == rebuilt(alpha, (pow(alpha as int, x) % pi) as nat, s, c, p) {
        assert(pow(alpha as int, e1) % pi == pow(alpha as int, e2) % pi);
        assert(e1 == e2);
        // (k - c·x_fake) mod q + x·c = k + c·(x - x_fake)  (mod q)
        lemma_mod_twice(k - c * x_fake, qi);
        lemma_add_mod_noop(k - c * x_fake, (x * c) as int, qi);
        lemma_mod_twice((x * c) as int, qi);
        lemma_add_mod_noop(s as int, (x * c) as int, qi);
        assert(k - c * x_fake + x * c == k + c * (x - x_fake)) by (nonlinear_arith);
        assert(((s + x * c) as int) % qi == (k - c * x_fake + x * c) % qi);
        assert((k + c * (x - x_fake)) % qi == (k as int) % qi);
        lemma_fundamental_div_mod(k + c * (x - x_fake), qi);
        lemma_fundamental_div_mod(k as int, qi);
        let a1 = (k + c * (x - x_fake)) / qi;
        let a2 = (k as int) / qi;
        assert(c * (x - x_fake) == (a1 - a2) * qi) by (nonlinear_arith)
            requires
                k + c * (x - x_fake) == qi * a1 + (k + c * (x - x_fake)) % qi,
                k == qi * a2 + (k as int) % qi,
                (k + c * (x - x_fake)) % qi == (k as int) % qi,
        ;
        lemma_mod_multiples_basic(a1 - a2, qi);
    }
}

/// The group parameters of the proof: generators `alpha` and `beta` of a
/// subgroup of order `q` modulo the prime `p`, and the bound below which
/// random exponents are drawn.
#[derive(Clone, Debug)]
pub struct ZKP {
    pub alpha: BigNat,
    pub beta: BigNat,
    pub p: BigNat,
    pub q: BigNat,
    pub rng_upper_bound: BigNat,
}

impl ZKP {
    pub fn new(alpha: BigNat, beta: BigNat, p: BigNat, q: BigNat, rng_upper_bound: BigNat) -> (r: ZKP)
        ensures
            r.alpha == alpha,
            r.beta == beta,
            r.p == p,
            r.q == q,
            r.rng_upper_bound == rng_upper_bound,
    {
        ZKP { alpha, beta, p, q, rng_upper_bound }
    }

    /// The parameters `(alpha, beta, p, q, rng_upper_bound)` of the deployed
    /// 1024-bit group, with `beta = alpha^w mod p` for a fixed `w` and random
    /// exponents drawn below `2^128 - 1`.
    pub fn get_1024_bits_config() -> (r: (BigNat, BigNat, BigNat, BigNat, BigNat))
        ensures
            r.0@ == be_value(hex_bytes(ALPHA_1024_HEX@)),
            r.2@ == be_value(hex_bytes(P_1024_HEX@)),
            r.3@ == be_value(hex_bytes(Q_1024_HEX@)),
            r.1@ == pow(r.0@ as int, BETA_EXPONENT as nat) % (r.2@ as int),
            r.4@ == pow(256, 16) - 1,
    {
        proof {
            reveal_strlit("B10B8F96A080E01DDE92DE5EAE5D54EC52C99FBCFB06A3C69A6A9DCA52D23B616073E28675A23D189838EF1E2EE652C013ECB4AEA906112324975C3CD49B83BFACCBDD7D90C4BD7098488E9C219A73724EFFD6FAE5644738FAA31A4FF55BCCC0A151AF5F0DC8B4BD45BF37DF365C1A65E68CFDA76D4DA708DF1FB2BC2E4A4371");
            reveal_strlit("F518AA8781A8DF278ABA4E7D64B7CB9D49462353");
            reveal_strlit("A4D1CBD5C3FD34126765A442EFB99905F8104DD258AC507FD6406CFF14266D31266FEA1E5C41564B777E690F5504F213160217B4B01B886A5E91547F9E2749F4D7FBD7D3B9A92EE1909D0D2263F80A76A6A24C087A091F531DBF0A0169B6A28AD662A4D18E73AFA32D779D5918D08BC8858F4DCEF97C2A24855E6EEB22B3B2E5");
            lemma_all_ones(16);
        }
        assert(is_hex(P_1024_HEX@));
        assert(is_hex(Q_1024_HEX@));
        assert(is_hex(ALPHA_1024_HEX@));
        let p = BigNat::from_bytes_be(hex_decode(P_1024_HEX).as_slice());
        let q = BigNat::from_bytes_be(hex_decode(Q_1024_HEX).as_slice());
        let alpha = BigNat::from_bytes_be(hex_decode(ALPHA_1024_HEX).as_slice());
        let beta = alpha.modpow(&BigNat::from_u32(BETA_EXPONENT), &p);
        let ones: Vec<u8> = vec![255u8; 16];
        assert(ones@ =~= Seq::new(16, |i: int| 255u8));
        let rng_upper_bound = BigNat::from_bytes_be(ones.as_slice());
        (alpha, beta, p, q, rng_upper_bound)
    }

    /// The pair `(alpha^e mod p, beta^e mod p)`: the public values of a secret
    /// `e` at registration, or the commitment of a one-time exponent `e`.
    pub fn commit(&self, exponent: &BigNat) -> (r: (BigNat, BigNat))
        requires
            self.p@ > 0,
        ensures
            r.0@ == pow(self.alpha@ as int, exponent@) % (self.p@ as int),
            r.1@ == pow(self.beta@ as int, exponent@) % (self.p@ as int),
    {
        (self.alpha.modpow(exponent, &self.p), self.beta.modpow(exponent, &self.p))
    }

    /// The answer `s = (k - c·x) mod q`, computed without negative intermediates.
    pub fn solve(&self, k: &BigNat, c: &BigNat, x: &BigNat) -> (s: BigNat)
        requires
            self.q@ > 0,
        ensures
            s@ == response(k@, c@, x@, self.q@),
            s@ < self.q@,
    {
        let cx = c.mul(x);
        let one = BigNat::from_u32(1);
        proof {
            lemma_pow1(k@ - cx@);
            lemma_pow1(cx@ - k@);
        }
        if k.ge(&cx) {
            return k.sub(&cx).modpow(&one, &self.q);
        }
        let m = cx.sub(k).modpow(&one, &self.q);
        let zero = BigNat::from_u32(0);
        if m.equals(&zero) {
            proof {
                let q = self.q@ as int;
                let d = cx@ - k@;
                let t = d / q;
                lemma_fundamental_div_mod(d, q);
                assert(k@ - cx@ == (-t) * q + 0) by (nonlinear_arith)
                    requires
                        d == q * t + d % q,
                        d % q == 0,
                        d == cx@ - k@,
                ;
                lemma_fundamental_div_mod_converse(k@ - cx@, q, -t, 0);
            }
            return zero;
        }
        proof {
            let q = self.q@ as int;
            let d = cx@ - k@;
            let t = d / q;
            lemma_fundamental_div_mod(d, q);
            assert(k@ - cx@ == (-t - 1) * q + (q - m@)) by (nonlinear_arith)
                requires
                    d == q * t + d % q,
                    d % q == m@,
                    d == cx@ - k@,
            ;
            lemma_fundamental_div_mod_converse(k@ - cx@, q, -t - 1, q - m@);
        }
        self.q.sub(&m)
    }

    /// Whether `(r1, r2)` is rebuilt from the public values `(y1, y2)`, the answer
    /// `s` and the challenge `c`: both equations must hold.
    pub fn verify(
        &self,
        y1: &BigNat,
        y2: &BigNat,
        r1: &BigNat,
        r2: &BigNat,
        s: &BigNat,
        c: &BigNat,
    ) -> (b: bool)
        requires
            self.p@ > 0,
        ensures
            b == accepts(self.alpha@, self.beta@, self.p@, y1@, y2@, r1@, r2@, s@, c@),
    {
        let one = BigNat::from_u32(1);
        let t1 = self.alpha.modpow(s, &self.p).mul(&y1.modpow(c, &self.p)).modpow(&one, &self.p);
        let t2 = self.beta.modpow(s, &self.p).mul(&y2.modpow(c, &self.p)).modpow(&one, &self.p);
        proof {
            let p = self.p@ as int;
            lemma_pow1((pow(self.alpha@ as int, s@) % p) * (pow(y1@ as int, c@) % p));
            lemma_pow1((pow(self.beta@ as int, s@) % p) * (pow(y2@ as int, c@) % p));
            lemma_mul_mod_noop(pow(self.alpha@ as int, s@), pow(y1@ as int, c@), p);
            lemma_mul_mod_noop(pow(self.beta@ as int, s@), pow(y2@ as int, c@), p);
        }
        let r1_verified = r1.equals(&t1);
        let r2_verified = r2.equals(&t2);
        r1_verified && r2_verified
    }

    /// A random exponent (a commitment `k` or a challenge `c`) strictly below
    /// `rng_upper_bound`.
    pub fn generate_random(&self) -> (r: BigNat)
        requires
            self.rng_upper_bound@ > 0,
        ensures
            r@ < self.rng_upper_bound@,
    {
        BigNat::random_below(&self.rng_upper_bound)
    }
}

} // verus!

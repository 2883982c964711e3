//! Unbounded natural numbers held as little-endian bit vectors, with the
//! few operations that exact decimal arithmetic needs.
use vstd::prelude::*;

verus! {

pub open spec fn pow2(n: nat) -> nat
    decreases n,
{
    if n == 0 {
        1
    } else {
        2 * pow2((n - 1) as nat)
    }
}

pub open spec fn pow10(n: nat) -> nat
    decreases n,
{
    if n == 0 {
        1
    } else {
        10 * pow10((n - 1) as nat)
    }
}

pub open spec fn bit(b: bool) -> nat {
    if b {
        1
    } else {
        0
    }
}

/// The number that a little-endian bit sequence denotes.
pub open spec fn bits_val(s: Seq<bool>) -> nat
    decreases s.len(),
{
    if s.len() == 0 {
        0
    } else {
        bit(s[0]) + 2 * bits_val(s.drop_first())
    }
}

pub proof fn lemma_pow10_pos(n: nat)
    ensures
        pow10(n) >= 1,
    decreases n,
{
    if n > 0 {
        lemma_pow10_pos((n - 1) as nat);
    }
}

pub proof fn lemma_pow10_add(a: nat, b: nat)
    ensures
        pow10(a + b) == pow10(a) * pow10(b),
    decreases a,
{
    if a > 0 {
        let a1 = (a - 1) as nat;
        lemma_pow10_add(a1, b);
        let p = pow10(a1);
        let q = pow10(b);
        assert(pow10(a) == 10 * p);
        assert((a1 + b) as nat == (a + b - 1) as nat);
        assert(pow10(a + b) == 10 * pow10(a1 + b));
        assert(10 * (p * q) == (10 * p) * q) by (nonlinear_arith);
    } else {
        assert(pow10(0) == 1);
        assert(1 * pow10(b) == pow10(b));
    }
}

pub proof fn lemma_bit_mul(b: bool, p: nat)
    ensures
        bit(b) * p == (if b {
            p
        } else {
            0
        }),
{
    if b {
        assert(1 * p == p);
    } else {
        assert(0 * p == 0);
    }
}

pub proof fn lemma_pow2_add(a: nat, b: nat)
    ensures
        pow2(a + b) == pow2(a) * pow2(b),
    decreases a,
{
    if a > 0 {
        let a1 = (a - 1) as nat;
        lemma_pow2_add(a1, b);
        let p = pow2(a1);
        let q = pow2(b);
        assert(pow2(a) == 2 * p);
        assert(pow2(a + b) == 2 * pow2(a1 + b));
        assert(2 * (p * q) == (2 * p) * q) by (nonlinear_arith);
    } else {
        assert(pow2(0) == 1);
        assert(1 * pow2(b) == pow2(b));
    }
}

pub proof fn lemma_pow2_128()
    ensures
        pow2(128) == 0x1_0000_0000_0000_0000_0000_0000_0000_0000,
{
    reveal_with_fuel(pow2, 9);
    assert(pow2(8) == 256);
    lemma_pow2_add(8, 8);
    assert(pow2(16) == 65536);
    lemma_pow2_add(16, 16);
    assert(pow2(32) == 65536 * 65536);
    lemma_pow2_add(32, 32);
    assert(pow2(64) == 0x1_0000_0000 * 0x1_0000_0000);
    lemma_pow2_add(64, 64);
    assert(pow2(128) == 0x1_0000_0000_0000_0000 * 0x1_0000_0000_0000_0000);
}

pub proof fn lemma_bits_push(s: Seq<bool>, b: bool)
    ensures
        bits_val(s.push(b)) == bits_val(s) + bit(b) * pow2(s.len()),
    decreases s.len(),
{
    lemma_bit_mul(b, pow2(s.len()));
    if s.len() == 0 {
        assert(s.push(b).drop_first() =~= Seq::<bool>::empty());
        assert(pow2(0) == 1);
        assert(bits_val(s.push(b)) == bit(s.push(b)[0]) + 2 * bits_val(s.push(b).drop_first()));
    } else {
        let t = s.drop_first();
        lemma_bits_push(t, b);
        lemma_bit_mul(b, pow2(t.len()));
        assert(s.push(b).drop_first() =~= t.push(b));
        assert(s.push(b)[0] == s[0]);
        assert(t.len() == s.len() - 1);
        let p1 = pow2(t.len());
        assert(pow2(s.len()) == 2 * p1);
        assert(bits_val(s.push(b)) == bit(s[0]) + 2 * bits_val(t.push(b)));
        assert(bits_val(s) == bit(s[0]) + 2 * bits_val(t));
        if b {
            assert(bits_val(t.push(b)) == bits_val(t) + p1);
        } else {
            assert(bits_val(t.push(b)) == bits_val(t));
        }
    }
}

pub proof fn lemma_bits_bound(s: Seq<bool>)
    ensures
        bits_val(s) < pow2(s.len()),
    decreases s.len(),
{
    if s.len() > 0 {
        lemma_bits_bound(s.drop_first());
    }
}

pub proof fn lemma_bits_skip_le(s: Seq<bool>, i: int)
    requires
        0 <= i <= s.len(),
    ensures
        bits_val(s.skip(i)) <= bits_val(s),
    decreases i,
{
    if i > 0 {
        lemma_bits_skip_le(s, i - 1);
        assert(s.skip(i - 1).drop_first() =~= s.skip(i));
    } else {
        assert(s.skip(0) =~= s);
    }
}

proof fn lemma_full_adder(x: bool, y: bool, c: bool, p: nat)
    ensures
        bit(x) * p + bit(y) * p + bit(c) * p == bit(x ^ y ^ c) * p + bit((x && y) || (c && (x
            ^ y))) * (2 * p),
{
}

proof fn lemma_full_subtractor(x: bool, y: bool, c: bool, p: nat)
    ensures
        bit(x) * p + bit((!x && y) || (!(x ^ y) && c)) * (2 * p) == bit(x ^ y ^ c) * p + bit(y) * p
            + bit(c) * p,
{
}

/// A copy of `a`, extended with zero bits to length `n`.
fn padded(a: &Vec<bool>, n: usize) -> (r: Vec<bool>)
    requires
        a@.len() <= n,
    ensures
        r@.len() == n,
        bits_val(r@) == bits_val(a@),
{
    let mut r = a.clone();
    assert(r@ =~= a@);
    while r.len() < n
        invariant
            r@.len() <= n,
            bits_val(r@) == bits_val(a@),
        decreases n - r@.len(),
    {
        proof {
            lemma_bits_push(r@, false);
        }
        r.push(false);
    }
    r
}

/// The sum of two numbers.
pub fn nat_add(a: &Vec<bool>, b: &Vec<bool>) -> (r: Vec<bool>)
    ensures
        bits_val(r@) == bits_val(a@) + bits_val(b@),
{
    let n = if a.len() < b.len() {
        b.len()
    } else {
        a.len()
    };
    let x = padded(a, n);
    let y = padded(b, n);
    let mut out: Vec<bool> = Vec::new();
    let mut carry = false;
    let mut i: usize = 0;
    assert(x@.take(0) =~= Seq::<bool>::empty());
    assert(y@.take(0) =~= Seq::<bool>::empty());
    while i < n
        invariant
            x@.len() == n,
            y@.len() == n,
            0 <= i <= n,
            out@.len() == i,
            bits_val(x@.take(i as int)) + bits_val(y@.take(i as int)) == bits_val(out@) + bit(
                carry,
            ) * pow2(i as nat),
        decreases n - i,
    {
        let xi = x[i];
        let yi = y[i];
        let s = xi ^ yi ^ carry;
        let c2 = (xi && yi) || (carry && (xi ^ yi));
        proof {
            assert(x@.take(i + 1) =~= x@.take(i as int).push(xi));
            assert(y@.take(i + 1) =~= y@.take(i as int).push(yi));
            lemma_bits_push(x@.take(i as int), xi);
            lemma_bits_push(y@.take(i as int), yi);
            lemma_bits_push(out@, s);
            lemma_full_adder(xi, yi, carry, pow2(i as nat));
        }
        out.push(s);
        carry = c2;
        i = i + 1;
    }
    proof {
        assert(x@.take(n as int) =~= x@);
        assert(y@.take(n as int) =~= y@);
        lemma_bits_push(out@, carry);
    }
    out.push(carry);
    out
}

/// Whether `a < b`, and, when not, the difference `a - b`.
pub fn nat_sub(a: &Vec<bool>, b: &Vec<bool>) -> (r: (Vec<bool>, bool))
    ensures
        r.1 <==> bits_val(a@) < bits_val(b@),
        !r.1 ==> bits_val(r.0@) + bits_val(b@) == bits_val(a@),
{
    let n = if a.len() < b.len() {
        b.len()
    } else {
        a.len()
    };
    let x = padded(a, n);
    let y = padded(b, n);
    let mut out: Vec<bool> = Vec::new();
    let mut borrow = false;
    let mut i: usize = 0;
    assert(x@.take(0) =~= Seq::<bool>::empty());
    assert(y@.take(0) =~= Seq::<bool>::empty());
    while i < n
        invariant
            x@.len() == n,
            y@.len() == n,
            0 <= i <= n,
            out@.len() == i,
            bits_val(x@.take(i as int)) + bit(borrow) * pow2(i as nat) == bits_val(out@)
                + bits_val(y@.take(i as int)),
        decreases n - i,
    {
        let xi = x[i];
        let yi = y[i];
        let s = xi ^ yi ^ borrow;
        let b2 = (!xi && yi) || (!(xi ^ yi) && borrow);
        proof {
            assert(x@.take(i + 1) =~= x@.take(i as int).push(xi));
            assert(y@.take(i + 1) =~= y@.take(i as int).push(yi));
            lemma_bits_push(x@.take(i as int), xi);
            lemma_bits_push(y@.take(i as int), yi);
            lemma_bits_push(out@, s);
            lemma_full_subtractor(xi, yi, borrow, pow2(i as nat));
        }
        out.push(s);
        borrow = b2;
        i = i + 1;
    }
    proof {
        assert(x@.take(n as int) =~= x@);
        assert(y@.take(n as int) =~= y@);
        lemma_bits_bound(out@);
        lemma_bits_bound(x@);
        lemma_bits_bound(y@);
    }
    (out, borrow)
}

/// Twice `a`, plus one when `low` is set.
pub fn nat_shift_in(a: &mut Vec<bool>, low: bool)
    ensures
        bits_val(final(a)@) == bit(low) + 2 * bits_val(old(a)@),
{
    a.insert(0, low);
    assert(a@.drop_first() =~= old(a)@);
}

/// The number `x`.
pub fn nat_from_u128(x: u128) -> (r: Vec<bool>)
    ensures
        bits_val(r@) == x,
        r@.len() == 128,
{
    let mut r: Vec<bool> = Vec::new();
    let mut y = x;
    let mut i: usize = 0;
    proof {
        lemma_pow2_128();
        assert(bits_val(r@) == 0);
        assert(pow2(0) == 1);
        assert(1 * (y as nat) == y);
    }
    while i < 128
        invariant
            0 <= i <= 128,
            r@.len() == i,
            x == bits_val(r@) + pow2(i as nat) * y,
            y < pow2((128 - i) as nat),
        decreases 128 - i,
    {
        let b = y % 2 == 1;
        proof {
            lemma_bits_push(r@, b);
            let p = pow2(i as nat);
            let yy = y as nat;
            assert(pow2((i + 1) as nat) == 2 * p);
            assert(p * yy == bit(b) * p + (2 * p) * (yy / 2)) by (nonlinear_arith)
                requires
                    bit(b) == yy % 2,
            ;
            assert(pow2((128 - i) as nat) == 2 * pow2((128 - i - 1) as nat));
        }
        r.push(b);
        y = y / 2;
        i = i + 1;
    }
    proof {
        assert(pow2(0) == 1);
    }
    r
}

/// `a` as a `u128`, where it fits.
pub fn nat_to_u128(a: &Vec<bool>) -> (r: u128)
    requires
        bits_val(a@) <= u128::MAX,
    ensures
        r == bits_val(a@),
{
    let mut acc: u128 = 0;
    let mut i: usize = a.len();
    assert(a@.skip(a@.len() as int) =~= Seq::<bool>::empty());
    while i > 0
        invariant
            0 <= i <= a@.len(),
            acc == bits_val(a@.skip(i as int)),
            bits_val(a@) <= u128::MAX,
        decreases i,
    {
        proof {
            assert(a@.skip(i - 1).drop_first() =~= a@.skip(i as int));
            lemma_bits_skip_le(a@, i - 1);
        }
        let b: u128 = if a[i - 1] {
            1
        } else {
            0
        };
        acc = b + 2 * acc;
        i = i - 1;
    }
    assert(a@.skip(0) =~= a@);
    acc
}

/// The product of `a` and `k`.
pub fn nat_mul_u128(a: &Vec<bool>, k: u128) -> (r: Vec<bool>)
    ensures
        bits_val(r@) == bits_val(a@) * k,
{
    let mut acc: Vec<bool> = Vec::new();
    let mut cur = a.clone();
    let mut kk = k;
    assert(cur@ =~= a@);
    while kk > 0
        invariant
            bits_val(acc@) + bits_val(cur@) * kk == bits_val(a@) * k,
        decreases kk,
    {
        let ghost c0 = bits_val(cur@);
        let ghost a0 = bits_val(acc@);
        let ghost k0 = kk as nat;
        if kk % 2 == 1 {
            acc = nat_add(&acc, &cur);
            assert(k0 % 2 == 1);
            assert(1 * c0 == c0);
        } else {
            assert(k0 % 2 == 0);
            assert(0 * c0 == 0);
        }
        nat_shift_in(&mut cur, false);
        assert(bits_val(cur@) == 2 * c0);
        kk = kk / 2;
        proof {
            assert(c0 * k0 == (k0 % 2) * c0 + (2 * c0) * (k0 / 2)) by (nonlinear_arith);
        }
    }
    acc
}

/// `a` times ten to the power `e`.
pub fn nat_mul_pow10(a: &Vec<bool>, e: u32) -> (r: Vec<bool>)
    ensures
        bits_val(r@) == bits_val(a@) * pow10(e as nat),
{
    let mut r = a.clone();
    let mut j: u32 = 0;
    assert(r@ =~= a@);
    assert(pow10(0) == 1);
    assert(bits_val(a@) * 1 == bits_val(a@));
    while j < e
        invariant
            j <= e,
            bits_val(r@) == bits_val(a@) * pow10(j as nat),
        decreases e - j,
    {
        r = nat_mul_u128(&r, 10);
        proof {
            let x = bits_val(a@);
            let p = pow10(j as nat);
            assert(pow10((j + 1) as nat) == 10 * p);
            assert((x * p) * 10 == x * (10 * p)) by (nonlinear_arith);
        }
        j = j + 1;
    }
    r
}

/// Quotient and remainder of `n` divided by `d`.
pub fn nat_divmod(n: &Vec<bool>, d: &Vec<bool>) -> (r: (Vec<bool>, Vec<bool>))
    requires
        bits_val(d@) > 0,
    ensures
        bits_val(n@) == bits_val(r.0@) * bits_val(d@) + bits_val(r.1@),
        bits_val(r.1@) < bits_val(d@),
{
    let ghost dv = bits_val(d@);
    let mut q: Vec<bool> = Vec::new();
    let mut rem: Vec<bool> = Vec::new();
    let mut i: usize = n.len();
    assert(n@.skip(n@.len() as int) =~= Seq::<bool>::empty());
    assert(bits_val(q@) == 0);
    assert(bits_val(rem@) == 0);
    assert(0 * dv == 0);
    while i > 0
        invariant
            0 <= i <= n@.len(),
            dv == bits_val(d@),
            dv > 0,
            bits_val(n@.skip(i as int)) == bits_val(q@) * dv + bits_val(rem@),
            bits_val(rem@) < dv,
        decreases i,
    {
        let ghost q0 = bits_val(q@);
        let ghost r0 = bits_val(rem@);
        let b = n[i - 1];
        proof {
            assert(n@.skip(i - 1).drop_first() =~= n@.skip(i as int));
            assert(n@.skip(i - 1)[0] == b);
        }
        nat_shift_in(&mut rem, b);
        let (diff, lt) = nat_sub(&rem, d);
        if !lt {
            rem = diff;
            nat_shift_in(&mut q, true);
            proof {
                assert((2 * q0 + 1) * dv == 2 * (q0 * dv) + dv) by (nonlinear_arith);
            }
        } else {
            nat_shift_in(&mut q, false);
            proof {
                assert((2 * q0) * dv == 2 * (q0 * dv)) by (nonlinear_arith);
            }
        }
        i = i - 1;
    }
    assert(n@.skip(0) =~= n@);
    (q, rem)
}

pub proof fn lemma_pow10_le(a: nat, b: nat)
    requires
        a <= b,
    ensures
        pow10(a) <= pow10(b),
    decreases b - a,
{
    if a < b {
        lemma_pow10_le(a, (b - 1) as nat);
        lemma_pow10_pos((b - 1) as nat);
    }
}

/// An unbounded natural number.
pub struct Natural {
    pub bits: Vec<bool>,
}

impl View for Natural {
    type V = nat;

    open spec fn view(&self) -> nat {
        bits_val(self.bits@)
    }
}

impl Natural {
    /// The number `x`.
    pub fn from_u128(x: u128) -> (r: Natural)
        ensures
            r@ == x,
    {
        Natural { bits: nat_from_u128(x) }
    }

    /// The number as a `u128`, where it fits.
    pub fn to_u128(&self) -> (r: Option<u128>)
        ensures
            r == (if self@ <= u128::MAX {
                Some(self@ as u128)
            } else {
                None
            }),
    {
        let max = nat_from_u128(u128::MAX);
        let (_, below) = nat_sub(&max, &self.bits);
        if below {
            None
        } else {
            Some(nat_to_u128(&self.bits))
        }
    }

    /// Whether two numbers are equal.
    pub fn equals(&self, other: &Natural) -> (r: bool)
        ensures
            r == (self@ == other@),
    {
        let (_, lt) = nat_sub(&self.bits, &other.bits);
        let (_, gt) = nat_sub(&other.bits, &self.bits);
        !lt && !gt
    }

    /// The product with `k`.
    pub fn mul_u128(&self, k: u128) -> (r: Natural)
        ensures
            r@ == self@ * k,
    {
        Natural { bits: nat_mul_u128(&self.bits, k) }
    }

    /// The sum with `other`.
    pub fn add(&self, other: &Natural) -> (r: Natural)
        ensures
            r@ == self@ + other@,
    {
        Natural { bits: nat_add(&self.bits, &other.bits) }
    }

    /// Ten to the power `e`.
    pub fn ten_pow(e: u32) -> (r: Natural)
        ensures
            r@ == pow10(e as nat),
    {
        let one = nat_from_u128(1);
        let r = nat_mul_pow10(&one, e);
        assert(1 * pow10(e as nat) == pow10(e as nat));
        Natural { bits: r }
    }
}

} // verus!

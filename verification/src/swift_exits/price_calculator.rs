//! How much a validator must supply, in the matter token, to back a swift
//! exit of some amount of another token.
use vstd::prelude::*;
use crate::natural::{
    Natural, bits_val, lemma_pow10_add, lemma_pow10_pos, nat_add, nat_divmod, nat_from_u128,
    nat_mul_pow10, nat_mul_u128, nat_sub, nat_to_u128, pow10,
};
use crate::swift_exits::governance_interactor::Governance;
use crate::types::{
    Address, Amount, Decimal, Error, ExactDecimal, TokenId, find_entry,
    lookup_by_address, lookup_by_token,
};

verus! {

/// A snapshot of the price oracle: the underlying price of each cToken.
pub struct PriceOracle {
    pub prices: Vec<(Address, Amount)>,
}

/// A snapshot of the comptroller: the collateral factor of each cToken.
pub struct Comptroller {
    pub collateral_factors: Vec<(Address, Amount)>,
}

/// Further divisor of the supply, beside the supply token's price and the
/// collateral factor.
pub const SUPPLY_COEFF: u128 = 1;

/// Number of significant digits after which a quotient that does not end
/// is cut.
pub const SIGNIFICANT_DIGITS: u32 = 100;

/// Mantissas of cut quotients stay below this bound.
pub open spec fn digit_limit() -> nat {
    pow10(SIGNIFICANT_DIGITS as nat)
}

/// `n / d * 10^r`, rounded down.
pub open spec fn scaled_quotient(n: nat, d: nat, r: nat) -> nat {
    (n * pow10(r)) / d
}

/// The number of decimal places kept of `n / d`: none when its integer part
/// already has `SIGNIFICANT_DIGITS` digits, else as many as keep the
/// mantissa below `digit_limit()`.
pub open spec fn cut_scale(n: nat, d: nat) -> nat {
    if scaled_quotient(n, d, 0) >= digit_limit() {
        0
    } else {
        choose|r: nat|
            #![trigger scaled_quotient(n, d, r)]
            scaled_quotient(n, d, r) < digit_limit() && scaled_quotient(n, d, r + 1) >= digit_limit()
    }
}

/// `(m, s)` with trailing zero digits of the mantissa dropped.
pub open spec fn normalize(m: nat, s: nat) -> (nat, nat)
    decreases s,
{
    if s > 0 && m % 10 == 0 {
        normalize(m / 10, (s - 1) as nat)
    } else {
        (m, s)
    }
}

/// The exact value of `amount * matter_price / (supply_price * collateral_factor
/// * SUPPLY_COEFF)` is `n / d` with these two numbers.
pub open spec fn formula_numerator(
    amount: Decimal,
    matter_price: Decimal,
    supply_price: Decimal,
    collateral_factor: Decimal,
) -> nat {
    (amount.mantissa as nat) * (matter_price.mantissa as nat) * pow10(
        (supply_price.scale + collateral_factor.scale) as nat,
    )
}

pub open spec fn formula_denominator(
    amount: Decimal,
    matter_price: Decimal,
    supply_price: Decimal,
    collateral_factor: Decimal,
) -> nat {
    (supply_price.mantissa as nat) * (collateral_factor.mantissa as nat) * (SUPPLY_COEFF as nat)
        * pow10((amount.scale + matter_price.scale) as nat)
}

/// `amount * matter_price / (supply_price * collateral_factor * SUPPLY_COEFF)`
/// as (mantissa, scale): the integer part exactly, and of the fraction as
/// many digits as keep `SIGNIFICANT_DIGITS` significant digits, rounded
/// down, with no trailing zeros; so exactly the quotient whenever it ends
/// within those digits. Refused only where the divisor is zero.
pub open spec fn supply_formula(
    amount: Decimal,
    matter_price: Decimal,
    supply_price: Decimal,
    collateral_factor: Decimal,
) -> Result<(nat, nat), Error> {
    let n = formula_numerator(amount, matter_price, supply_price, collateral_factor);
    let d = formula_denominator(amount, matter_price, supply_price, collateral_factor);
    if d == 0 {
        Err(Error::ZeroDenominator)
    } else if n == 0 {
        Ok((0, 0))
    } else {
        let r = cut_scale(n, d);
        Ok(normalize(scaled_quotient(n, d, r), r))
    }
}

/// The cToken of a token id: the token's address from governance, then the
/// cToken that governance records for that address.
pub open spec fn c_token_of(gov: &Governance, token_id: TokenId) -> Result<Address, Error> {
    match find_entry(gov.tokens@, token_id) {
        None => Err(Error::UnknownToken),
        Some(token_address) => match find_entry(gov.c_tokens@, token_address) {
            None => Err(Error::NoCToken),
            Some(c_address) => Ok(c_address),
        },
    }
}

/// The supply for `amount` of token `token_id`, with the queries made in the
/// order: matter token's cToken, supply token's cToken, matter price, supply
/// price, matter collateral factor; the first that fails decides the error.
pub open spec fn spec_supply_amount(
    gov: &Governance,
    oracle: &PriceOracle,
    comptroller: &Comptroller,
    token_id: TokenId,
    amount: Amount,
) -> Result<(nat, nat), Error> {
    if gov.matter_token_id == token_id {
        Ok((amount.mantissa as nat, amount.scale as nat))
    } else {
        match c_token_of(gov, gov.matter_token_id) {
            Err(e) => Err(e),
            Ok(c_matter) => match c_token_of(gov, token_id) {
                Err(e) => Err(e),
                Ok(c_supply) => match find_entry(oracle.prices@, c_matter) {
                    None => Err(Error::NoPrice),
                    Some(matter_price) => match find_entry(oracle.prices@, c_supply) {
                        None => Err(Error::NoPrice),
                        Some(supply_price) => match find_entry(
                            comptroller.collateral_factors@,
                            c_matter,
                        ) {
                            None => Err(Error::NoCollateralFactor),
                            Some(cf) => supply_formula(amount, matter_price, supply_price, cf),
                        },
                    },
                },
            },
        }
    }
}

fn get_c_token_address(gov: &Governance, token_id: TokenId) -> (r: Result<Address, Error>)
    ensures
        r == c_token_of(gov, token_id),
{
    match lookup_by_token(&gov.tokens, token_id) {
        None => Err(Error::UnknownToken),
        Some(token_address) => match lookup_by_address(&gov.c_tokens, &token_address) {
            None => Err(Error::NoCToken),
            Some(c_address) => Ok(c_address),
        },
    }
}

proof fn lemma_next_digit(x: nat, d: nat, q: nat, r: nat, digit: nat, t: nat)
    requires
        d > 0,
        x == q * d + r,
        r < d,
        10 * r == digit * d + t,
        t < d,
    ensures
        (x * 10) / d == 10 * q + digit,
        (x * 10) % d == t,
        digit < 10,
{
    assert(x * 10 == (10 * q + digit) * d + t) by (nonlinear_arith)
        requires
            x == q * d + r,
            10 * r == digit * d + t,
    ;
    vstd::arithmetic::div_mod::lemma_fundamental_div_mod_converse(
        (x * 10) as int,
        d as int,
        (10 * q + digit) as int,
        t as int,
    );
    assert(digit < 10) by (nonlinear_arith)
        requires
            10 * r == digit * d + t,
            r < d,
            d > 0,
    ;
}

/// One more decimal place multiplies the rounded quotient by ten and adds a digit.
proof fn lemma_scaled_quotient_step(n: nat, d: nat, r: nat)
    requires
        d > 0,
    ensures
        10 * scaled_quotient(n, d, r) <= scaled_quotient(n, d, r + 1),
        scaled_quotient(n, d, r + 1) <= 10 * scaled_quotient(n, d, r) + 9,
{
    let x = n * pow10(r);
    assert(n * pow10(r + 1) == x * 10) by (nonlinear_arith)
        requires
            x == n * pow10(r),
            pow10(r + 1) == 10 * pow10(r),
    ;
    let q = x / d;
    let rem = x % d;
    vstd::arithmetic::div_mod::lemma_fundamental_div_mod(x as int, d as int);
    let t = (10 * rem) % d;
    let digit = (10 * rem) / d;
    vstd::arithmetic::div_mod::lemma_fundamental_div_mod((10 * rem) as int, d as int);
    lemma_next_digit(x, d, q, rem, digit, t);
}

proof fn lemma_scaled_quotient_scale_up(n: nat, d: nat, r: nat, k: nat)
    requires
        d > 0,
    ensures
        scaled_quotient(n, d, r) * pow10(k) <= scaled_quotient(n, d, r + k),
    decreases k,
{
    if k == 0 {
        assert(pow10(0) == 1);
        assert(scaled_quotient(n, d, r) * 1 == scaled_quotient(n, d, r));
    } else {
        let k1 = (k - 1) as nat;
        lemma_scaled_quotient_scale_up(n, d, r, k1);
        lemma_scaled_quotient_step(n, d, r + k1);
        let q = scaled_quotient(n, d, r);
        assert(pow10(k) == 10 * pow10(k1));
        assert(q * pow10(k) == 10 * (q * pow10(k1))) by (nonlinear_arith)
            requires
                pow10(k) == 10 * pow10(k1),
        ;
        assert(r + k1 + 1 == r + k);
    }
}

/// Rounded-down quotients of larger fractions are no smaller.
proof fn lemma_quotient_monotone(n1: nat, d1: nat, n2: nat, d2: nat, p: nat)
    requires
        d1 > 0,
        d2 > 0,
        n1 * d2 <= n2 * d1,
    ensures
        (n1 * p) / d1 <= (n2 * p) / d2,
{
    let q = (n1 * p) / d1;
    vstd::arithmetic::div_mod::lemma_fundamental_div_mod((n1 * p) as int, d1 as int);
    assert(q * d2 <= n2 * p) by (nonlinear_arith)
        requires
            q * d1 <= n1 * p,
            n1 * d2 <= n2 * d1,
            d1 > 0,
            d2 > 0,
    ;
    vstd::arithmetic::div_mod::lemma_fundamental_div_mod((n2 * p) as int, d2 as int);
    assert(q <= (n2 * p) / d2) by (nonlinear_arith)
        requires
            q * d2 <= n2 * p,
            n2 * p == d2 * ((n2 * p) / d2) + (n2 * p) % d2,
            (n2 * p) % d2 < d2,
            d2 > 0,
    ;
}

proof fn lemma_normalize_value(m: nat, s: nat)
    ensures
        normalize(m, s).1 <= s,
        m == normalize(m, s).0 * pow10((s - normalize(m, s).1) as nat),
    decreases s,
{
    if s > 0 && m % 10 == 0 {
        let s1 = (s - 1) as nat;
        lemma_normalize_value(m / 10, s1);
        let (m2, s2) = normalize(m / 10, s1);
        let k = (s1 - s2) as nat;
        assert(m == 10 * (m / 10));
        assert((s - s2) as nat == k + 1);
        assert(pow10(k + 1) == 10 * pow10(k));
        assert(m == m2 * pow10(k + 1)) by (nonlinear_arith)
            requires
                m == 10 * (m / 10),
                m / 10 == m2 * pow10(k),
                pow10(k + 1) == 10 * pow10(k),
        ;
    } else {
        assert(pow10(0) == 1);
        assert(m * 1 == m);
    }
}

proof fn lemma_normalize_le(m1: nat, s1: nat, m2: nat, s2: nat)
    requires
        m1 * pow10(s2) <= m2 * pow10(s1),
    ensures
        normalize(m1, s1).0 * pow10(normalize(m2, s2).1) <= normalize(m2, s2).0 * pow10(
            normalize(m1, s1).1,
        ),
{
    lemma_normalize_value(m1, s1);
    lemma_normalize_value(m2, s2);
    let (a, t1) = normalize(m1, s1);
    let (b, t2) = normalize(m2, s2);
    let k1 = (s1 - t1) as nat;
    let k2 = (s2 - t2) as nat;
    lemma_pow10_add(t1, k1);
    lemma_pow10_add(t2, k2);
    lemma_pow10_add(k1, k2);
    lemma_pow10_pos(k1 + k2);
    assert(s1 == t1 + k1);
    assert(s2 == t2 + k2);
    assert(a * pow10(t2) <= b * pow10(t1)) by (nonlinear_arith)
        requires
            m1 == a * pow10(k1),
            m2 == b * pow10(k2),
            pow10(s1) == pow10(t1) * pow10(k1),
            pow10(s2) == pow10(t2) * pow10(k2),
            pow10(k1 + k2) == pow10(k1) * pow10(k2),
            pow10(k1 + k2) >= 1,
            m1 * pow10(s2) <= m2 * pow10(s1),
    ;
}

/// The value of the decimal `x` is at most the value of `y`.
pub open spec fn dec_le(x: (nat, nat), y: (nat, nat)) -> bool {
    x.0 * pow10(y.1) <= y.0 * pow10(x.1)
}

proof fn lemma_cut_unique(n: nat, d: nat, r1: nat, r2: nat)
    requires
        d > 0,
        scaled_quotient(n, d, r1) < digit_limit(),
        scaled_quotient(n, d, r1 + 1) >= digit_limit(),
        scaled_quotient(n, d, r2) < digit_limit(),
        scaled_quotient(n, d, r2 + 1) >= digit_limit(),
    ensures
        r1 == r2,
{
    if r1 < r2 {
        let k = (r2 - r1 - 1) as nat;
        lemma_scaled_quotient_scale_up(n, d, r1 + 1, k);
        lemma_pow10_pos(k);
        assert(scaled_quotient(n, d, r1 + 1) <= scaled_quotient(n, d, r1 + 1) * pow10(k))
            by (nonlinear_arith)
            requires
                pow10(k) >= 1,
        ;
        assert(r1 + 1 + k == r2);
    } else if r2 < r1 {
        let k = (r1 - r2 - 1) as nat;
        lemma_scaled_quotient_scale_up(n, d, r2 + 1, k);
        lemma_pow10_pos(k);
        assert(scaled_quotient(n, d, r2 + 1) <= scaled_quotient(n, d, r2 + 1) * pow10(k))
            by (nonlinear_arith)
            requires
                pow10(k) >= 1,
        ;
        assert(r2 + 1 + k == r1);
    }
}

/// The cut scale has a mantissa below the limit (unless the integer part
/// alone reaches it) and one more place would reach the limit.
proof fn lemma_cut_scale_props(n: nat, d: nat)
    requires
        d > 0,
        n > 0,
        exists|r: nat|
            #![trigger scaled_quotient(n, d, r)]
            scaled_quotient(n, d, r) < digit_limit() && scaled_quotient(n, d, r + 1) >= digit_limit()
            || scaled_quotient(n, d, 0) >= digit_limit(),
    ensures
        scaled_quotient(n, d, cut_scale(n, d) + 1) >= digit_limit(),
        cut_scale(n, d) == 0 || scaled_quotient(n, d, cut_scale(n, d)) < digit_limit(),
{
    if scaled_quotient(n, d, 0) >= digit_limit() {
        lemma_scaled_quotient_step(n, d, 0);
    }
}

proof fn lemma_numerator_zero(x: nat, y: nat, p: nat)
    ensures
        x * y * p == 0 <==> (x == 0 || y == 0 || p == 0),
{
    assert(x * y * p == 0 <==> (x == 0 || y == 0 || p == 0)) by (nonlinear_arith);
}

proof fn lemma_denominator_bound(x: nat, y: nat, e: nat)
    requires
        x <= u128::MAX,
        y <= u128::MAX,
        e <= 510,
    ensures
        x * y * (SUPPLY_COEFF as nat) * pow10(e) < pow10(588),
{
    reveal_with_fuel(pow10, 40);
    lemma_pow10_pos(39);
    assert(pow10(39) == 1_000_000_000_000_000_000_000_000_000_000_000_000_000);
    crate::natural::lemma_pow10_le(e, 510);
    lemma_pow10_add(39, 39);
    lemma_pow10_add(78, 510);
    lemma_pow10_pos(510);
    lemma_pow10_pos(e);
    assert(x * y * (SUPPLY_COEFF as nat) * pow10(e) < pow10(39) * pow10(39) * pow10(510))
        by (nonlinear_arith)
        requires
            x < pow10(39),
            y < pow10(39),
            SUPPLY_COEFF == 1,
            pow10(e) <= pow10(510),
            pow10(e) >= 1,
    ;
}

fn apply_supply_formula(
    amount: Decimal,
    matter_price: Decimal,
    supply_price: Decimal,
    collateral_factor: Decimal,
) -> (r: Result<ExactDecimal, Error>)
    ensures
        match supply_formula(amount, matter_price, supply_price, collateral_factor) {
            Err(e) => r == Err::<ExactDecimal, Error>(e),
            Ok(v) => r matches Ok(x) && x@ == v,
        },
{
    let ghost nv = formula_numerator(amount, matter_price, supply_price, collateral_factor);
    let ghost dv = formula_denominator(amount, matter_price, supply_price, collateral_factor);
    let ghost de = (amount.scale + matter_price.scale) as nat;
    proof {
        lemma_pow10_pos(de);
        lemma_pow10_pos((supply_price.scale + collateral_factor.scale) as nat);
    }
    if supply_price.mantissa == 0 || collateral_factor.mantissa == 0 {
        proof {
            lemma_numerator_zero(
                supply_price.mantissa as nat,
                collateral_factor.mantissa as nat,
                (SUPPLY_COEFF as nat) * pow10(de),
            );
            assert(dv == 0) by (nonlinear_arith)
                requires
                    dv == (supply_price.mantissa as nat) * (collateral_factor.mantissa as nat) * (
                    SUPPLY_COEFF as nat) * pow10(de),
                    supply_price.mantissa == 0 || collateral_factor.mantissa == 0,
            ;
        }
        return Err(Error::ZeroDenominator);
    }
    proof {
        assert(dv > 0) by (nonlinear_arith)
            requires
                dv == (supply_price.mantissa as nat) * (collateral_factor.mantissa as nat) * (
                SUPPLY_COEFF as nat) * pow10(de),
                supply_price.mantissa > 0,
                collateral_factor.mantissa > 0,
                SUPPLY_COEFF > 0,
                pow10(de) > 0,
        ;
        lemma_numerator_zero(
            amount.mantissa as nat,
            matter_price.mantissa as nat,
            pow10((supply_price.scale + collateral_factor.scale) as nat),
        );
        lemma_denominator_bound(supply_price.mantissa as nat, collateral_factor.mantissa as nat, de);
    }
    if amount.mantissa == 0 || matter_price.mantissa == 0 {
        return Ok(ExactDecimal { mantissa: Natural::from_u128(0), scale: 0 });
    }
    let n = nat_mul_pow10(
        &nat_mul_u128(&nat_from_u128(amount.mantissa), matter_price.mantissa),
        (supply_price.scale as u32) + (collateral_factor.scale as u32),
    );
    let d = nat_mul_pow10(
        &nat_mul_u128(
            &nat_mul_u128(&nat_from_u128(supply_price.mantissa), collateral_factor.mantissa),
            SUPPLY_COEFF,
        ),
        (amount.scale as u32) + (matter_price.scale as u32),
    );
    assert(bits_val(n@) == nv);
    assert(bits_val(d@) == dv);
    let (q0, rem0) = nat_divmod(&n, &d);
    proof {
        assert(pow10(0) == 1);
        assert(nv * 1 == nv);
        vstd::arithmetic::div_mod::lemma_fundamental_div_mod_converse(
            nv as int,
            dv as int,
            bits_val(q0@) as int,
            bits_val(rem0@) as int,
        );
    }
    let limit = Natural::ten_pow(SIGNIFICANT_DIGITS);
    let (_, below) = nat_sub(&q0, &limit.bits);
    if !below {
        proof {
            lemma_scaled_quotient_step(nv, dv, 0);
            lemma_cut_scale_props(nv, dv);
        }
        return Ok(ExactDecimal { mantissa: Natural { bits: q0 }, scale: 0 });
    }
    let mut q = q0;
    let mut rem = rem0;
    let mut scale: u32 = 0;
    proof {
        // n * 10^0 < L * d, since floor(n / d) < L
        assert(nv < digit_limit() * dv) by (nonlinear_arith)
            requires
                nv == bits_val(q@) * dv + bits_val(rem@),
                bits_val(rem@) < dv,
                bits_val(q@) < digit_limit(),
        ;
        lemma_pow10_add(SIGNIFICANT_DIGITS as nat, 588);
    }
    loop
        invariant
            dv > 0,
            nv > 0,
            bits_val(d@) == dv,
            dv < pow10(588),
            bits_val(limit.bits@) == digit_limit(),
            pow10((SIGNIFICANT_DIGITS + 588) as nat) == digit_limit() * pow10(588),
            bits_val(q@) == scaled_quotient(nv, dv, scale as nat),
            bits_val(q@) < digit_limit(),
            bits_val(rem@) == (nv * pow10(scale as nat)) % dv,
            nv * pow10(scale as nat) < digit_limit() * dv,
        ensures
            bits_val(q@) == scaled_quotient(nv, dv, scale as nat),
            bits_val(q@) < digit_limit(),
            scaled_quotient(nv, dv, (scale + 1) as nat) >= digit_limit(),
        decreases digit_limit() * dv - nv * pow10(scale as nat),
    {
        let ghost x = nv * pow10(scale as nat);
        let ghost r0 = bits_val(rem@);
        proof {
            vstd::arithmetic::div_mod::lemma_fundamental_div_mod(x as int, dv as int);
            lemma_pow10_pos(scale as nat);
            // pow10(scale) <= n * pow10(scale) < L * d < 10^(100 + 588)
            assert(pow10(scale as nat) <= x) by (nonlinear_arith)
                requires
                    x == nv * pow10(scale as nat),
                    nv >= 1,
            ;
            assert(digit_limit() * dv < digit_limit() * pow10(588)) by (nonlinear_arith)
                requires
                    dv < pow10(588),
                    digit_limit() > 0,
            ;
            if scale >= 688 {
                crate::natural::lemma_pow10_le(688, scale as nat);
            }
            assert(scale < 688);
        }
        let mut t = nat_mul_u128(&rem, 10);
        let mut digit: u128 = 0;
        loop
            invariant
                dv > 0,
                bits_val(d@) == dv,
                r0 < dv,
                10 * r0 == digit * dv + bits_val(t@),
                digit <= 10,
            ensures
                10 * r0 == digit * dv + bits_val(t@),
                bits_val(t@) < dv,
            decreases bits_val(t@),
        {
            let (diff, lt) = nat_sub(&t, &d);
            if lt {
                break;
            }
            proof {
                assert(digit < 10) by (nonlinear_arith)
                    requires
                        10 * r0 == digit * dv + bits_val(t@),
                        bits_val(t@) >= dv,
                        r0 < dv,
                ;
                assert((digit + 1) * dv == digit * dv + dv) by (nonlinear_arith);
            }
            t = diff;
            digit = digit + 1;
        }
        proof {
            lemma_next_digit(x, dv, bits_val(q@), r0, digit as nat, bits_val(t@));
            assert(x * 10 == nv * pow10((scale + 1) as nat)) by (nonlinear_arith)
                requires
                    x == nv * pow10(scale as nat),
                    pow10((scale + 1) as nat) == 10 * pow10(scale as nat),
            ;
        }
        let next = nat_add(&nat_mul_u128(&q, 10), &nat_from_u128(digit));
        let (_, next_below) = nat_sub(&next, &limit.bits);
        if !next_below {
            break;
        }
        proof {
            let x1 = nv * pow10((scale + 1) as nat);
            vstd::arithmetic::div_mod::lemma_fundamental_div_mod(x1 as int, dv as int);
            assert(bits_val(next@) == (x * 10) / dv);
            assert(x1 < digit_limit() * dv) by (nonlinear_arith)
                requires
                    x1 == bits_val(next@) * dv + bits_val(t@),
                    bits_val(t@) < dv,
                    bits_val(next@) < digit_limit(),
            ;
            assert(x1 > x) by (nonlinear_arith)
                requires
                    x1 == x * 10,
                    x >= 1,
            ;
        }
        q = next;
        rem = t;
        scale = scale + 1;
    }
    proof {
        lemma_cut_scale_props(nv, dv);
        lemma_cut_unique(nv, dv, cut_scale(nv, dv), scale as nat);
    }
    let ghost before = normalize(bits_val(q@), scale as nat);
    let ten = nat_from_u128(10);
    loop
        invariant
            normalize(bits_val(q@), scale as nat) == before,
            bits_val(ten@) == 10,
        ensures
            normalize(bits_val(q@), scale as nat) == before,
            scale == 0 || bits_val(q@) % 10 != 0,
        decreases scale,
    {
        if scale == 0 {
            break;
        }
        let (q10, r10) = nat_divmod(&q, &ten);
        proof {
            vstd::arithmetic::div_mod::lemma_fundamental_div_mod_converse(
                bits_val(q@) as int,
                10,
                bits_val(q10@) as int,
                bits_val(r10@) as int,
            );
        }
        let r = nat_to_u128(&r10);
        if r != 0 {
            break;
        }
        q = q10;
        scale = scale - 1;
    }
    Ok(ExactDecimal { mantissa: Natural { bits: q }, scale })
}

/// The amount of the matter token that backs `amount` of token `token_id`.
pub fn calc_supply_amount(
    gov: &Governance,
    oracle: &PriceOracle,
    comptroller: &Comptroller,
    token_id: TokenId,
    amount: Amount,
) -> (r: Result<ExactDecimal, Error>)
    ensures
        match spec_supply_amount(gov, oracle, comptroller, token_id, amount) {
            Err(e) => r == Err::<ExactDecimal, Error>(e),
            Ok(v) => r matches Ok(x) && x@ == v,
        },
        gov.matter_token_id == token_id ==> (r matches Ok(x) && x@ == (
            amount.mantissa as nat,
            amount.scale as nat,
        )),
{
    let matter_token_id = gov.matter_token_id;
    if matter_token_id == token_id {
        return Ok(ExactDecimal::from_decimal(amount));
    }
    let c_matter = get_c_token_address(gov, matter_token_id)?;
    let c_supply = get_c_token_address(gov, token_id)?;
    let matter_price = match lookup_by_address(&oracle.prices, &c_matter) {
        Some(p) => p,
        None => return Err(Error::NoPrice),
    };
    let supply_price = match lookup_by_address(&oracle.prices, &c_supply) {
        Some(p) => p,
        None => return Err(Error::NoPrice),
    };
    let collateral_factor = match lookup_by_address(&comptroller.collateral_factors, &c_matter) {
        Some(f) => f,
        None => return Err(Error::NoCollateralFactor),
    };
    apply_supply_formula(amount, matter_price, supply_price, collateral_factor)
}

/// A larger amount never needs a smaller supply: with a positive divisor,
/// the supply for `a1` is at most the supply for `a2` when `a1 <= a2`.
pub proof fn lemma_supply_monotone(
    a1: Decimal,
    a2: Decimal,
    matter_price: Decimal,
    supply_price: Decimal,
    collateral_factor: Decimal,
)
    requires
        dec_le((a1.mantissa as nat, a1.scale as nat), (a2.mantissa as nat, a2.scale as nat)),
        supply_price.mantissa > 0,
        collateral_factor.mantissa > 0,
    ensures
        supply_formula(a1, matter_price, supply_price, collateral_factor) is Ok,
        supply_formula(a2, matter_price, supply_price, collateral_factor) is Ok,
        dec_le(
            supply_formula(a1, matter_price, supply_price, collateral_factor)->Ok_0,
            supply_formula(a2, matter_price, supply_price, collateral_factor)->Ok_0,
        ),
{
    let n1 = formula_numerator(a1, matter_price, supply_price, collateral_factor);
    let d1 = formula_denominator(a1, matter_price, supply_price, collateral_factor);
    let n2 = formula_numerator(a2, matter_price, supply_price, collateral_factor);
    let d2 = formula_denominator(a2, matter_price, supply_price, collateral_factor);
    let e = (supply_price.scale + collateral_factor.scale) as nat;
    let c = (supply_price.mantissa as nat) * (collateral_factor.mantissa as nat) * (
    SUPPLY_COEFF as nat);
    let mm = matter_price.mantissa as nat;
    let ms = matter_price.scale as nat;
    let x1 = a1.mantissa as nat;
    let x2 = a2.mantissa as nat;
    let s1 = a1.scale as nat;
    let s2 = a2.scale as nat;
    lemma_pow10_add(s1, ms);
    lemma_pow10_add(s2, ms);
    let pe = pow10(e);
    let pm = pow10(ms);
    let p1 = pow10(s1);
    let p2 = pow10(s2);
    lemma_pow10_pos(e);
    lemma_pow10_pos(ms);
    lemma_pow10_pos(s1);
    lemma_pow10_pos(s2);
    let kk = mm * pe * c * pm;
    assert(n1 * d2 == (x1 * p2) * kk) by (nonlinear_arith)
        requires
            n1 == x1 * mm * pe,
            d2 == c * (p2 * pm),
            kk == mm * pe * c * pm,
    ;
    assert(n2 * d1 == (x2 * p1) * kk) by (nonlinear_arith)
        requires
            n2 == x2 * mm * pe,
            d1 == c * (p1 * pm),
            kk == mm * pe * c * pm,
    ;
    assert((x1 * p2) * kk <= (x2 * p1) * kk) by (nonlinear_arith)
        requires
            x1 * p2 <= x2 * p1,
    ;
    assert(c > 0) by (nonlinear_arith)
        requires
            c == (supply_price.mantissa as nat) * (collateral_factor.mantissa as nat) * (
            SUPPLY_COEFF as nat),
            supply_price.mantissa > 0,
            collateral_factor.mantissa > 0,
            SUPPLY_COEFF > 0,
    ;
    assert(d1 > 0 && d2 > 0) by (nonlinear_arith)
        requires
            d1 == c * (p1 * pm),
            d2 == c * (p2 * pm),
            c > 0,
            p1 > 0,
            p2 > 0,
            pm > 0,
    ;
    if n1 > 0 {
        assert(n2 > 0) by (nonlinear_arith)
            requires
                n1 * d2 <= n2 * d1,
                n1 > 0,
                d2 > 0,
        ;
        if scaled_quotient(n1, d1, 0) < digit_limit() {
            lemma_cut_exists(n1, d1, 0);
        }
        if scaled_quotient(n2, d2, 0) < digit_limit() {
            lemma_cut_exists(n2, d2, 0);
        }
        lemma_cut_scale_props(n1, d1);
        lemma_cut_scale_props(n2, d2);
        let r1 = cut_scale(n1, d1);
        let r2 = cut_scale(n2, d2);
        let q1 = scaled_quotient(n1, d1, r1);
        let q2 = scaled_quotient(n2, d2, r2);
        lemma_pow10_pos(r1);
        lemma_pow10_pos(r2);
        if r1 <= r2 {
            let k = (r2 - r1) as nat;
            lemma_scaled_quotient_scale_up(n1, d1, r1, k);
            assert(r1 + k == r2);
            lemma_quotient_monotone(n1, d1, n2, d2, pow10(r2));
            lemma_pow10_add(r1, k);
            assert(q1 * pow10(r2) <= q2 * pow10(r1)) by (nonlinear_arith)
                requires
                    q1 * pow10(k) <= scaled_quotient(n1, d1, r2),
                    scaled_quotient(n1, d1, r2) <= q2,
                    pow10(r2) == pow10(r1) * pow10(k),
            ;
        } else {
            let k = (r1 - r2) as nat;
            lemma_scaled_quotient_step(n2, d2, r2);
            let p99 = pow10(99);
            assert(digit_limit() == 10 * p99);
            assert(q2 >= p99);
            assert(q1 < 10 * p99);
            lemma_pow10_add(r2, k);
            lemma_pow10_pos((k - 1) as nat);
            assert(pow10(k) == 10 * pow10((k - 1) as nat));
            assert(q1 * pow10(r2) <= q2 * pow10(r1)) by (nonlinear_arith)
                requires
                    q1 < 10 * p99,
                    q2 >= p99,
                    pow10(k) == 10 * pow10((k - 1) as nat),
                    pow10((k - 1) as nat) >= 1,
                    pow10(r1) == pow10(r2) * pow10(k),
                    pow10(r2) >= 1,
            ;
        }
        lemma_normalize_le(q1, r1, q2, r2);
    } else {
        let y = supply_formula(a2, matter_price, supply_price, collateral_factor)->Ok_0;
        assert(pow10(0) == 1);
        assert(0 * pow10(y.1) == 0);
    }
}

proof fn lemma_below_limit(n: nat, d: nat, r: nat)
    requires
        d > 0,
        scaled_quotient(n, d, r) < digit_limit(),
    ensures
        n * pow10(r) < digit_limit() * d,
{
    let x = n * pow10(r);
    let q = x / d;
    let m = x % d;
    vstd::arithmetic::div_mod::lemma_fundamental_div_mod(x as int, d as int);
    assert(x == d * q + m);
    assert(x < digit_limit() * d) by (nonlinear_arith)
        requires
            x == d * q + m,
            m < d,
            q < digit_limit(),
    ;
}

/// From a scale whose mantissa is below the limit, a scale is reached at
/// which one more place reaches the limit.
proof fn lemma_cut_exists(n: nat, d: nat, r: nat)
    requires
        n > 0,
        d > 0,
        scaled_quotient(n, d, r) < digit_limit(),
    ensures
        exists|r2: nat|
            #![trigger scaled_quotient(n, d, r2)]
            scaled_quotient(n, d, r2) < digit_limit() && scaled_quotient(n, d, r2 + 1)
                >= digit_limit(),
    decreases digit_limit() * d - n * pow10(r),
{
    lemma_below_limit(n, d, r);
    if scaled_quotient(n, d, r + 1) >= digit_limit() {
        assert(scaled_quotient(n, d, r) < digit_limit() && scaled_quotient(n, d, r + 1)
            >= digit_limit());
    } else {
        lemma_below_limit(n, d, r + 1);
        lemma_pow10_pos(r);
        assert(n * pow10(r + 1) > n * pow10(r)) by (nonlinear_arith)
            requires
                pow10(r + 1) == 10 * pow10(r),
                n > 0,
                pow10(r) >= 1,
        ;
        lemma_cut_exists(n, d, r + 1);
    }
}

/// What the cut quotient of `n / d` is, without reference to how it is cut.
proof fn lemma_cut_quotient_bounds(n: nat, d: nat)
    requires
        n > 0,
        d > 0,
    ensures
        ({
            let r = cut_scale(n, d);
            let (m, s) = normalize(scaled_quotient(n, d, r), r);
            &&& m * d <= n * pow10(s)
            &&& n * pow10(s) < (m + 1) * d
            &&& s == 0 || m < pow10(100)
            &&& forall|t: nat|
                (#[trigger] ((n * pow10(t)) / d)) < pow10(100) ==> ((n * pow10(t)) / d) * pow10(s)
                    <= m * pow10(t)
        }),
{
    if scaled_quotient(n, d, 0) < digit_limit() {
        lemma_cut_exists(n, d, 0);
    }
    lemma_cut_scale_props(n, d);
    let r = cut_scale(n, d);
    let q = scaled_quotient(n, d, r);
    lemma_normalize_value(q, r);
    let (m, s) = normalize(q, r);
    let k = (r - s) as nat;
    assert(s + k == r);
    lemma_pow10_add(s, k);
    lemma_pow10_pos(k);
    lemma_pow10_pos(s);
    let x = n * pow10(r);
    vstd::arithmetic::div_mod::lemma_fundamental_div_mod(x as int, d as int);
    let rem = x % d;
    assert(x == d * q + rem);
    // q * d <= n * 10^r < (q + 1) * d, with q == m * 10^k and 10^r == 10^s * 10^k
    assert(m * d <= n * pow10(s)) by (nonlinear_arith)
        requires
            x == d * q + rem,
            rem >= 0,
            q == m * pow10(k),
            x == n * pow10(r),
            pow10(r) == pow10(s) * pow10(k),
            pow10(k) >= 1,
    ;
    assert(n * pow10(s) < (m + 1) * d) by (nonlinear_arith)
        requires
            x == d * q + rem,
            rem < d,
            q == m * pow10(k),
            x == n * pow10(r),
            pow10(r) == pow10(s) * pow10(k),
            pow10(k) >= 1,
            d > 0,
    ;
    if s != 0 {
        assert(r != 0);
        assert(q < pow10(100));
        assert(m <= q) by (nonlinear_arith)
            requires
                q == m * pow10(k),
                pow10(k) >= 1,
        ;
    }
    assert forall|t: nat|
        (#[trigger] ((n * pow10(t)) / d)) < pow10(100) implies ((n * pow10(t)) / d) * pow10(s)
        <= m * pow10(t) by {
        let qt = scaled_quotient(n, d, t);
        if t > r {
            let j = (t - r - 1) as nat;
            lemma_scaled_quotient_scale_up(n, d, r + 1, j);
            lemma_pow10_pos(j);
            assert(r + 1 + j == t);
            assert(scaled_quotient(n, d, r + 1) <= scaled_quotient(n, d, r + 1) * pow10(j))
                by (nonlinear_arith)
                requires
                    pow10(j) >= 1,
            ;
            assert(false);
        } else if r == 0 && scaled_quotient(n, d, 0) >= digit_limit() {
            assert(t == 0);
            assert(false);
        } else {
            let j = (r - t) as nat;
            lemma_scaled_quotient_scale_up(n, d, t, j);
            assert(t + j == r);
            lemma_pow10_add(t, j);
            lemma_pow10_pos(t);
            lemma_pow10_pos(j);
            // qt * 10^j <= q == m * 10^k, and 10^r == 10^t * 10^j == 10^s * 10^k
            assert(qt * pow10(s) <= m * pow10(t)) by (nonlinear_arith)
                requires
                    qt * pow10(j) <= q,
                    q == m * pow10(k),
                    pow10(r) == pow10(t) * pow10(j),
                    pow10(r) == pow10(s) * pow10(k),
                    pow10(k) >= 1,
                    pow10(j) >= 1,
            ;
        }
    }
}

/// The supply for a token other than the matter token, when every lookup
/// succeeds and the divisor is positive: with the amount `a`, the matter
/// token's price `pm` and collateral factor `f` (both read at the matter
/// token's cToken) and the supply token's price `ps` (read at its own
/// cToken), the exact supply is `n / d` for `n = a * pm` and
/// `d = ps * f * SUPPLY_COEFF` over a common denominator. The result
/// `m / 10^s` is never above it and less than one unit of its last place
/// below it; it has at most 100 digits unless it is an integer; and it is at
/// least every cut of `n / d` to a whole number of decimal places that has at
/// most 100 digits, so it is exact whenever the quotient ends within them.
pub proof fn lemma_supply_amount_value(
    gov: &Governance,
    oracle: &PriceOracle,
    comptroller: &Comptroller,
    token_id: TokenId,
    amount: Decimal,
    matter_address: Address,
    c_matter: Address,
    token_address: Address,
    c_supply: Address,
    matter_price: Decimal,
    supply_price: Decimal,
    factor: Decimal,
)
    requires
        token_id != gov.matter_token_id,
        find_entry(gov.tokens@, gov.matter_token_id) == Some(matter_address),
        find_entry(gov.c_tokens@, matter_address) == Some(c_matter),
        find_entry(gov.tokens@, token_id) == Some(token_address),
        find_entry(gov.c_tokens@, token_address) == Some(c_supply),
        find_entry(oracle.prices@, c_matter) == Some(matter_price),
        find_entry(oracle.prices@, c_supply) == Some(supply_price),
        find_entry(comptroller.collateral_factors@, c_matter) == Some(factor),
        supply_price.mantissa > 0,
        factor.mantissa > 0,
    ensures
        spec_supply_amount(gov, oracle, comptroller, token_id, amount) is Ok,
        ({
            let (m, s) = spec_supply_amount(gov, oracle, comptroller, token_id, amount)->Ok_0;
            let n = (amount.mantissa as nat) * (matter_price.mantissa as nat) * pow10(
                (supply_price.scale + factor.scale) as nat,
            );
            let d = (supply_price.mantissa as nat) * (factor.mantissa as nat) * (
            SUPPLY_COEFF as nat) * pow10((amount.scale + matter_price.scale) as nat);
            &&& m * d <= n * pow10(s)
            &&& n * pow10(s) < (m + 1) * d
            &&& s == 0 || m < pow10(100)
            &&& forall|t: nat|
                (#[trigger] ((n * pow10(t)) / d)) < pow10(100) ==> ((n * pow10(t)) / d) * pow10(s)
                    <= m * pow10(t)
        }),
{
    assert(c_token_of(gov, gov.matter_token_id) == Ok::<Address, Error>(c_matter));
    assert(c_token_of(gov, token_id) == Ok::<Address, Error>(c_supply));
    assert(spec_supply_amount(gov, oracle, comptroller, token_id, amount) == supply_formula(
        amount,
        matter_price,
        supply_price,
        factor,
    ));
    lemma_formula_value(amount, matter_price, supply_price, factor);
}

#[verifier::rlimit(40)]
proof fn lemma_formula_value(amount: Decimal, matter_price: Decimal, supply_price: Decimal, factor: Decimal)
    requires
        supply_price.mantissa > 0,
        factor.mantissa > 0,
    ensures
        supply_formula(amount, matter_price, supply_price, factor) is Ok,
        ({
            let (m, s) = supply_formula(amount, matter_price, supply_price, factor)->Ok_0;
            let n = (amount.mantissa as nat) * (matter_price.mantissa as nat) * pow10(
                (supply_price.scale + factor.scale) as nat,
            );
            let d = (supply_price.mantissa as nat) * (factor.mantissa as nat) * (
            SUPPLY_COEFF as nat) * pow10((amount.scale + matter_price.scale) as nat);
            &&& m * d <= n * pow10(s)
            &&& n * pow10(s) < (m + 1) * d
            &&& s == 0 || m < pow10(100)
            &&& forall|t: nat|
                (#[trigger] ((n * pow10(t)) / d)) < pow10(100) ==> ((n * pow10(t)) / d) * pow10(s)
                    <= m * pow10(t)
        }),
{
    let n = formula_numerator(amount, matter_price, supply_price, factor);
    let d = formula_denominator(amount, matter_price, supply_price, factor);
    let e = (amount.scale + matter_price.scale) as nat;
    lemma_pow10_pos(e);
    assert(d > 0) by (nonlinear_arith)
        requires
            d == (supply_price.mantissa as nat) * (factor.mantissa as nat) * (SUPPLY_COEFF as nat)
                * pow10(e),
            supply_price.mantissa > 0,
            factor.mantissa > 0,
            SUPPLY_COEFF > 0,
            pow10(e) > 0,
    ;
    assert(n == (amount.mantissa as nat) * (matter_price.mantissa as nat) * pow10(
        (supply_price.scale + factor.scale) as nat,
    ));
    assert(d == (supply_price.mantissa as nat) * (factor.mantissa as nat) * (SUPPLY_COEFF as nat)
        * pow10((amount.scale + matter_price.scale) as nat));
    if n > 0 {
        assert(supply_formula(amount, matter_price, supply_price, factor) == Ok::<(nat, nat), Error>(
            normalize(scaled_quotient(n, d, cut_scale(n, d)), cut_scale(n, d)),
        ));
        lemma_cut_quotient_bounds(n, d);
    } else {
        assert(supply_formula(amount, matter_price, supply_price, factor) == Ok::<(nat, nat), Error>(
            (0, 0),
        ));
        assert(pow10(0) == 1);
        assert(0 * d == 0);
        assert(n * pow10(0) == 0);
        assert((0 + 1) * d == d) by (nonlinear_arith);
        assert forall|t: nat|
            (#[trigger] ((n * pow10(t)) / d)) < pow10(100) implies ((n * pow10(t)) / d) * pow10(0)
            <= 0 * pow10(t) by {
            assert(n * pow10(t) == 0);
            vstd::arithmetic::div_mod::lemma_fundamental_div_mod_converse(0, d as int, 0, 0);
        }
    }
}

} // verus!

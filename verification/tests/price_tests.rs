use lib::natural::Natural;
use lib::swift_exits::governance_interactor::Governance;
use lib::swift_exits::price_calculator::{calc_supply_amount, Comptroller, PriceOracle};
use lib::types::{Address, Decimal, Error, ExactDecimal};

fn addr(b: u8) -> Address {
    [b; 20]
}

fn dec(mantissa: u128, scale: u8) -> Decimal {
    Decimal { mantissa, scale }
}

fn parts(x: &ExactDecimal) -> (u128, u32) {
    (x.mantissa.to_u128().expect("mantissa fits u128"), x.scale)
}

// Token 0 is the matter token, token 1 a supply token; 2 has no cToken;
// 3 has a cToken without a price.
fn setup(matter_price: Decimal, supply_price: Decimal, factor: Decimal) -> (Governance, PriceOracle, Comptroller) {
    let gov = Governance {
        validators: vec![],
        matter_token_id: 0,
        tokens: vec![(0, addr(10)), (1, addr(11)), (2, addr(12)), (3, addr(13))],
        c_tokens: vec![(addr(10), addr(20)), (addr(11), addr(21)), (addr(13), addr(23))],
    };
    let oracle = PriceOracle { prices: vec![(addr(20), matter_price), (addr(21), supply_price)] };
    let comptroller =
        Comptroller { collateral_factors: vec![(addr(20), factor), (addr(21), dec(8, 1))] };
    (gov, oracle, comptroller)
}

fn basic() -> (Governance, PriceOracle, Comptroller) {
    setup(dec(3, 0), dec(2, 0), dec(5, 0))
}

fn supply(c: &(Governance, PriceOracle, Comptroller), token: u16, amount: Decimal) -> Result<(u128, u32), Error> {
    calc_supply_amount(&c.0, &c.1, &c.2, token, amount).map(|x| parts(&x))
}

#[test]
fn matter_token_supply_is_the_amount() {
    let c = basic();
    assert_eq!(supply(&c, 0, dec(1234, 2)), Ok((1234, 2)));
    let empty = Governance { validators: vec![], matter_token_id: 4, tokens: vec![], c_tokens: vec![] };
    let r = calc_supply_amount(&empty, &c.1, &c.2, 4, dec(99, 0)).unwrap();
    assert_eq!(parts(&r), (99, 0));
}

#[test]
fn supply_formula_value() {
    let c = basic();
    // 1000 * 3 / (2 * 5 * 1) = 300
    assert_eq!(supply(&c, 1, dec(1000, 0)), Ok((300, 0)));
    // 7 * 3 / 10 = 2.1, exactly
    assert_eq!(supply(&c, 1, dec(7, 0)), Ok((21, 1)));
}

#[test]
fn supply_uses_matter_collateral_factor_below_one() {
    // 10 * 8 / (2 * 0.5 * 1) = 80; the supply token's factor 0.8 is not used
    let c = setup(dec(8, 0), dec(2, 0), dec(5, 1));
    assert_eq!(supply(&c, 1, dec(10, 0)), Ok((80, 0)));
}

#[test]
fn supply_with_decimal_inputs() {
    // 1.5 * 0.02 / (0.4 * 0.75) = 0.1
    let c = setup(dec(2, 2), dec(4, 1), dec(75, 2));
    assert_eq!(supply(&c, 1, dec(15, 1)), Ok((1, 1)));
}

#[test]
fn non_terminating_supply_keeps_100_digits() {
    let c = setup(dec(1, 0), dec(3, 0), dec(1, 0));
    let third = calc_supply_amount(&c.0, &c.1, &c.2, 1, dec(1, 0)).unwrap();
    assert_eq!(third.scale, 100);
    // 3 * mantissa + 1 == 10^100: the mantissa is one hundred threes
    let back = third.mantissa.mul_u128(3).add(&Natural::from_u128(1));
    assert!(back.equals(&Natural::ten_pow(100)));
}

#[test]
fn zero_amount_gives_zero_supply() {
    let c = setup(dec(3, 0), dec(u128::MAX, 0), dec(u128::MAX, 0));
    assert_eq!(supply(&c, 1, dec(0, 0)), Ok((0, 0)));
    assert_eq!(supply(&c, 1, dec(0, 200)), Ok((0, 0)));
}

#[test]
fn large_supply_is_exact() {
    // 10^30 * 1 / (1 * 1) = 10^30
    let c = setup(dec(1, 0), dec(1, 0), dec(1, 0));
    assert_eq!(supply(&c, 1, dec(10u128.pow(30), 0)), Ok((10u128.pow(30), 0)));
    // u128::MAX * 2 / (2 * 1) = u128::MAX
    let c = setup(dec(2, 0), dec(2, 0), dec(1, 0));
    assert_eq!(supply(&c, 1, dec(u128::MAX, 0)), Ok((u128::MAX, 0)));
    // 2^100 * 2^100 / 1 = 2^200, wider than u128
    let p = 1u128 << 100;
    let c = setup(dec(p, 0), dec(1, 0), dec(1, 0));
    let r = calc_supply_amount(&c.0, &c.1, &c.2, 1, dec(p, 0)).unwrap();
    assert_eq!(r.scale, 0);
    assert!(r.mantissa.equals(&Natural::from_u128(p).mul_u128(p)));
    assert_eq!(r.mantissa.to_u128(), None);
}

#[test]
fn large_intermediate_products_are_exact() {
    // 2^100 * 2^100 / (2^100 * 2^100) = 1
    let p = 1u128 << 100;
    let c = setup(dec(p, 0), dec(p, 0), dec(p, 0));
    assert_eq!(supply(&c, 1, dec(p, 0)), Ok((1, 0)));
    // u128::MAX * 2 / (2 * u128::MAX * 10^30) = 10^-30
    let c = setup(dec(2, 0), dec(2, 0), dec(u128::MAX, 0));
    assert_eq!(supply(&c, 1, dec(u128::MAX, 30)), Ok((1, 30)));
    // 1 / 10^250: far below any fixed scale
    let c = setup(dec(1, 0), dec(1, 0), dec(1, 0));
    assert_eq!(supply(&c, 1, dec(1, 250)), Ok((1, 250)));
}

#[test]
fn supply_grows_with_amount() {
    let c = setup(dec(7, 0), dec(3, 0), dec(9, 1));
    // 7 / 2.7 = 2.592592...: the results are cut after 100 significant
    // digits, so compare them as numbers, scaled to a common scale
    let mut last: Option<ExactDecimal> = None;
    for a in [1u128, 2, 10, 77, 1000, 123456] {
        let s = calc_supply_amount(&c.0, &c.1, &c.2, 1, dec(a, 0)).unwrap();
        if let Some(prev) = &last {
            // prev <= s  <=>  prev.m * 10^s.scale <= s.m * 10^prev.scale
            let l = mul_pow10(&prev.mantissa, s.scale);
            let r = mul_pow10(&s.mantissa, prev.scale);
            assert!(le(&l, &r));
        }
        last = Some(s);
    }
}

fn mul_pow10(x: &Natural, e: u32) -> Natural {
    let mut r = x.mul_u128(1);
    for _ in 0..e {
        r = r.mul_u128(10);
    }
    r
}

fn le(a: &Natural, b: &Natural) -> bool {
    // a <= b  <=>  a == b or (b - a) exists: test by comparing from the top bit
    let n = a.bits.len().max(b.bits.len());
    for i in (0..n).rev() {
        let x = *a.bits.get(i).unwrap_or(&false);
        let y = *b.bits.get(i).unwrap_or(&false);
        if x != y {
            return y;
        }
    }
    true
}

#[test]
fn unknown_token_is_refused() {
    let c = basic();
    assert_eq!(supply(&c, 9, dec(1, 0)), Err(Error::UnknownToken));
}

#[test]
fn unknown_matter_token_is_refused() {
    let (mut gov, oracle, comptroller) = basic();
    gov.matter_token_id = 8;
    assert_eq!(supply(&(gov, oracle, comptroller), 1, dec(1, 0)), Err(Error::UnknownToken));
}

#[test]
fn token_without_c_token_is_refused() {
    let c = basic();
    assert_eq!(supply(&c, 2, dec(1, 0)), Err(Error::NoCToken));
}

#[test]
fn token_without_price_is_refused() {
    let c = basic();
    assert_eq!(supply(&c, 3, dec(1, 0)), Err(Error::NoPrice));
}

#[test]
fn matter_without_collateral_factor_is_refused() {
    let (gov, oracle, _) = basic();
    let comptroller = Comptroller { collateral_factors: vec![(addr(21), dec(7, 0))] };
    assert_eq!(supply(&(gov, oracle, comptroller), 1, dec(1, 0)), Err(Error::NoCollateralFactor));
}

#[test]
fn zero_divisor_is_refused() {
    let c = setup(dec(3, 0), dec(0, 0), dec(5, 0));
    assert_eq!(supply(&c, 1, dec(5, 0)), Err(Error::ZeroDenominator));
}

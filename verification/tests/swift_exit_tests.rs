use lib::models::swift_exit::{SwiftExit, SWIFT_EXIT_LENGTH};
use lib::swift_exits::governance_interactor::{Governance, ValidatorInfo};
use lib::swift_exits::price_calculator::{Comptroller, PriceOracle};
use lib::natural::Natural;
use lib::types::{Address, Decimal, Error, ExactDecimal, Pubkey, Signature};

fn addr(b: u8) -> Address {
    [b; 20]
}

fn dec(mantissa: u128, scale: u8) -> Decimal {
    Decimal { mantissa, scale }
}

fn ed(mantissa: u128, scale: u32) -> ExactDecimal {
    ExactDecimal { mantissa: Natural::from_u128(mantissa), scale }
}

fn parts(x: &ExactDecimal) -> (u128, u32) {
    (x.mantissa.to_u128().unwrap(), x.scale)
}

fn request() -> SwiftExit {
    SwiftExit {
        block_number: 0x0102_0304,
        operation_id: 0x1112_1314_1516_1718,
        account_id: 0x2122_2324,
        token_id: 1,
        token_amount: dec(1000, 0),
        fee: dec(2, 1),
        swift_exit_fee: dec(3, 2),
        owner: addr(0xaa),
        recipient: addr(0xbb),
        supply_amount: ed(0, 0),
        aggr_signature: None,
        signers_bitmask: 0,
    }
}

fn governance() -> Governance {
    Governance {
        validators: vec![
            (addr(1), ValidatorInfo { id: 2, active: true, supply: dec(10, 0), pubkey: Pubkey { bytes: vec![] } }),
            (addr(2), ValidatorInfo { id: 4, active: false, supply: dec(10, 0), pubkey: Pubkey { bytes: vec![] } }),
            (addr(3), ValidatorInfo { id: 30, active: true, supply: dec(10, 0), pubkey: Pubkey { bytes: vec![] } }),
        ],
        matter_token_id: 0,
        tokens: vec![(0, addr(10)), (1, addr(11))],
        c_tokens: vec![(addr(10), addr(20)), (addr(11), addr(21))],
    }
}

fn be(x: u128, n: usize) -> Vec<u8> {
    x.to_be_bytes()[16 - n..].to_vec()
}

#[test]
fn into_bytes_layout() {
    let mut r = request();
    r.supply_amount = ed(0x0506, 63);
    let bytes = r.into_bytes();
    assert_eq!(bytes.len(), SWIFT_EXIT_LENGTH);
    assert_eq!(SWIFT_EXIT_LENGTH, 109);
    let mut expected = Vec::new();
    expected.extend(be(0x0102_0304, 4));
    expected.extend(be(0x1112_1314_1516_1718, 8));
    expected.extend(be(0x2122_2324, 4));
    expected.extend(be(1, 2));
    expected.extend(be(1000, 12));
    expected.extend(be(2, 12));
    expected.extend(be(3, 12));
    expected.extend([0xaa; 20]);
    expected.extend([0xbb; 20]);
    expected.extend(be(0x0506, 12));
    // scales 0, 1, 2, 63 in six bits each
    expected.extend(be((((0 * 64 + 1) * 64 + 2) * 64) + 63, 3));
    assert_eq!(bytes, expected);
    assert_eq!(&bytes[0..4], &[1, 2, 3, 4]);
}

#[test]
fn into_bytes_distinguishes_requests() {
    let a = request();
    let mut b = request();
    b.fee = dec(2, 2);
    assert_ne!(a.into_bytes(), b.into_bytes());
    let mut c = request();
    c.fee = dec(20, 2);
    assert_ne!(a.into_bytes(), c.into_bytes());
}

#[test]
fn save_new_request_prices_the_request() {
    let gov = governance();
    let oracle = PriceOracle { prices: vec![(addr(20), dec(3, 0)), (addr(21), dec(2, 0))] };
    let comptroller = Comptroller { collateral_factors: vec![(addr(20), dec(5, 1))] };
    let mut r = request();
    assert_eq!(r.save_new_request(&gov, &oracle, &comptroller), Ok(()));
    assert_eq!(parts(&r.supply_amount), (3000, 0));
    assert_eq!(r.token_amount, dec(1000, 0));
}

#[test]
fn save_new_request_failure_leaves_request() {
    let gov = governance();
    let oracle = PriceOracle { prices: vec![(addr(20), dec(3, 0))] };
    let comptroller = Comptroller { collateral_factors: vec![(addr(20), dec(5, 0))] };
    let mut r = request();
    r.supply_amount = ed(7, 0);
    assert_eq!(r.save_new_request(&gov, &oracle, &comptroller), Err(Error::NoPrice));
    assert_eq!(parts(&r.supply_amount), (7, 0));
}

#[test]
fn add_aggr_signature_sets_signature_and_mask() {
    let gov = governance();
    let mut r = request();
    let before = r.into_bytes();
    assert_eq!(r.add_aggr_signature(&gov, Signature { bytes: vec![9, 8] }, vec![addr(1), addr(2)]), Ok(()));
    assert_eq!(r.signers_bitmask, 0b100);
    assert_eq!(r.aggr_signature.as_ref().unwrap().bytes, vec![9, 8]);
    assert_eq!(r.into_bytes(), before);
}

#[test]
fn add_aggr_signature_failure_leaves_request() {
    let gov = governance();
    let mut r = request();
    assert_eq!(
        r.add_aggr_signature(&gov, Signature { bytes: vec![1] }, vec![addr(1), addr(9)]),
        Err(Error::UnknownValidator)
    );
    assert!(r.aggr_signature.is_none());
    assert_eq!(r.signers_bitmask, 0);
}

#[test]
fn commit_without_signature_is_refused() {
    let r = request();
    assert!(matches!(r.commit_swift_exit(), Err(Error::MissingSignature)));
}

#[test]
fn commit_without_signers_is_refused() {
    let mut r = request();
    r.aggr_signature = Some(Signature { bytes: vec![1] });
    assert!(matches!(r.commit_swift_exit(), Err(Error::NoSigners)));
    let gov = governance();
    assert_eq!(r.add_aggr_signature(&gov, Signature { bytes: vec![1] }, vec![addr(2)]), Ok(()));
    assert!(matches!(r.commit_swift_exit(), Err(Error::NoSigners)));
    // a signer with id 30 is accepted but sets no bit of the 16-bit mask
    assert_eq!(r.add_aggr_signature(&gov, Signature { bytes: vec![1] }, vec![addr(3)]), Ok(()));
    assert_eq!(r.signers_bitmask, 0);
    assert!(matches!(r.commit_swift_exit(), Err(Error::NoSigners)));
}

#[test]
fn commit_after_signing_sends_bytes_signature_and_mask() {
    let gov = governance();
    let mut r = request();
    assert_eq!(r.add_aggr_signature(&gov, Signature { bytes: vec![7, 7] }, vec![addr(1)]), Ok(()));
    let c = r.commit_swift_exit().unwrap();
    assert_eq!(c.bytes, r.into_bytes());
    assert_eq!(c.aggr_signature.bytes, vec![7, 7]);
    assert_eq!(c.signers_bitmask, 0b100);
}

#[test]
fn encodable_amounts_are_the_ones_the_bytes_hold() {
    let mut r = request();
    assert!(r.amounts_encodable());
    r.token_amount = dec(1, 64);
    assert!(!r.amounts_encodable());
    r.token_amount = dec(1 << 96, 0);
    assert!(!r.amounts_encodable());
    r.token_amount = dec((1 << 96) - 1, 63);
    assert!(r.amounts_encodable());
    r.supply_amount = ed(10u128.pow(30), 0);
    assert!(!r.amounts_encodable());
    r.supply_amount = ed(1, 64);
    assert!(!r.amounts_encodable());
}

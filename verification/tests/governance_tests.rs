use lib::swift_exits::governance_interactor::{
    flags_into_u16, get_bitmask, get_signer_flags, get_validator_id, get_validator_pubkey,
    get_validator_supply, is_validator_active, Governance, ValidatorInfo,
};
use lib::types::{Address, Decimal, Error, Pubkey};

fn addr(b: u8) -> Address {
    [b; 20]
}

fn dec(mantissa: u128, scale: u8) -> Decimal {
    Decimal { mantissa, scale }
}

fn validator(b: u8, id: u16, active: bool, supply: u128) -> (Address, ValidatorInfo) {
    (
        addr(b),
        ValidatorInfo { id, active, supply: dec(supply, 2), pubkey: Pubkey { bytes: vec![b, b, id as u8] } },
    )
}

fn governance() -> Governance {
    Governance {
        validators: vec![
            validator(1, 0, true, 100),
            validator(2, 3, true, 50),
            validator(3, 5, false, 70),
            validator(4, 7, true, 0),
            validator(5, 15, true, 1),
            validator(6, 16, true, 10),
            validator(7, 20, false, 10),
            validator(8, 65535, true, 10),
        ],
        matter_token_id: 0,
        tokens: vec![],
        c_tokens: vec![],
    }
}

#[test]
fn validator_queries_read_the_record() {
    let gov = governance();
    assert_eq!(is_validator_active(&gov, &addr(2)), Ok(true));
    assert_eq!(is_validator_active(&gov, &addr(3)), Ok(false));
    assert_eq!(get_validator_supply(&gov, &addr(3)), Ok(dec(70, 2)));
    assert_eq!(get_validator_id(&gov, &addr(5)), Ok(15));
    let pk = get_validator_pubkey(&gov, &addr(2)).unwrap();
    assert_eq!(pk.bytes, vec![2, 2, 3]);
}

#[test]
fn validator_queries_refuse_unknown_address() {
    let gov = governance();
    assert_eq!(is_validator_active(&gov, &addr(9)), Err(Error::UnknownValidator));
    assert_eq!(get_validator_supply(&gov, &addr(9)), Err(Error::UnknownValidator));
    assert_eq!(get_validator_id(&gov, &addr(9)), Err(Error::UnknownValidator));
    assert!(matches!(get_validator_pubkey(&gov, &addr(9)), Err(Error::UnknownValidator)));
}

#[test]
fn first_record_of_an_address_answers() {
    let mut gov = governance();
    gov.validators.push(validator(1, 9, false, 0));
    assert_eq!(get_validator_id(&gov, &addr(1)), Ok(0));
    assert_eq!(is_validator_active(&gov, &addr(1)), Ok(true));
}

#[test]
fn bitmask_sets_bit_of_each_active_supplying_signer() {
    let gov = governance();
    assert_eq!(get_bitmask(&gov, vec![addr(1), addr(2)]), Ok(0b1001));
    assert_eq!(get_bitmask(&gov, vec![addr(5)]), Ok(0x8000));
    assert_eq!(get_bitmask(&gov, vec![addr(2), addr(2), addr(1)]), Ok(0b1001));
}

#[test]
fn bitmask_ignores_inactive_or_empty_supply() {
    let gov = governance();
    assert_eq!(get_bitmask(&gov, vec![addr(3), addr(4)]), Ok(0));
    assert_eq!(get_bitmask(&gov, vec![addr(3), addr(7), addr(2)]), Ok(0b1000));
}

#[test]
fn bitmask_of_no_signers_is_zero() {
    let gov = governance();
    assert_eq!(get_bitmask(&gov, vec![]), Ok(0));
}

#[test]
fn bitmask_refuses_unknown_signer() {
    let gov = governance();
    assert_eq!(get_bitmask(&gov, vec![addr(1), addr(9)]), Err(Error::UnknownValidator));
    assert_eq!(get_bitmask(&gov, vec![addr(9), addr(6)]), Err(Error::UnknownValidator));
}

#[test]
fn wide_ids_are_flagged_but_set_no_mask_bit() {
    let gov = governance();
    assert_eq!(get_bitmask(&gov, vec![addr(6)]), Ok(0));
    assert_eq!(get_bitmask(&gov, vec![addr(6), addr(8), addr(1)]), Ok(1));
    let flags = get_signer_flags(&gov, &vec![addr(6), addr(8), addr(7)]).unwrap();
    assert_eq!(flags.len(), 65536);
    assert!(flags[16]);
    assert!(flags[65535]);
    assert!(!flags[20]);
    assert_eq!(flags.iter().filter(|f| **f).count(), 2);
}

#[test]
fn flags_into_u16_reads_the_first_sixteen_flags() {
    let mut flags = vec![false; 40];
    flags[0] = true;
    flags[15] = true;
    flags[16] = true;
    flags[39] = true;
    assert_eq!(flags_into_u16(&flags), 0x8001);
}

#[test]
fn bitmask_bit_set_iff_some_signer_has_that_id() {
    let gov = governance();
    let signers = vec![addr(1), addr(3), addr(5)];
    let mask = get_bitmask(&gov, signers).unwrap();
    for b in 0..16u16 {
        let expected = b == 0 || b == 15;
        assert_eq!(mask & (1u16 << b) != 0, expected);
    }
}

#[test]
fn bitmask_ignores_order_and_repetition_of_signers() {
    let gov = governance();
    let a = get_bitmask(&gov, vec![addr(1), addr(2), addr(5), addr(3)]);
    let b = get_bitmask(&gov, vec![addr(3), addr(5), addr(5), addr(2), addr(1), addr(1)]);
    assert_eq!(a, Ok(0x8009));
    assert_eq!(a, b);
}

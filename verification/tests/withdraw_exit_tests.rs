use lib::swift_exits::swift_exit::{SwiftExit, Withdraw, SWIFT_EXIT_LENGTH};
use lib::types::Signature;

fn withdraw() -> Withdraw {
    Withdraw {
        account_id: 7,
        from: [1; 20],
        to: [2; 20],
        token: 0x0304,
        amount: 0x0102,
        fee: 5,
        nonce: 0x0a0b0c0d,
    }
}

#[test]
fn submit_starts_unsigned() {
    let w = withdraw();
    let r = SwiftExit::submit_swift_exit(11, 22, &w);
    assert_eq!(r.block_number, 11);
    assert_eq!(r.operation_id, 22);
    assert_eq!(r.withdraw_op.amount, 0x0102);
    assert!(r.aggr_signature.bytes.is_empty());
    assert_eq!(r.signers_bitmask, [0u8; 32]);
}

#[test]
fn withdraw_exit_bytes_layout() {
    let r = SwiftExit::submit_swift_exit(0x01020304, 9, &withdraw());
    let b = r.into_bytes();
    assert_eq!(b.len(), SWIFT_EXIT_LENGTH);
    assert_eq!(&b[0..4], &[1, 2, 3, 4]);
    assert_eq!(&b[4..12], &[0, 0, 0, 0, 0, 0, 0, 9]);
    assert_eq!(&b[12..16], &[0, 0, 0, 7]);
    assert_eq!(&b[16..36], &[1; 20]);
    assert_eq!(&b[36..56], &[2; 20]);
    assert_eq!(&b[56..58], &[3, 4]);
    let mut amount = [0u8; 16];
    amount[14] = 1;
    amount[15] = 2;
    assert_eq!(&b[58..74], &amount);
    let mut fee = [0u8; 16];
    fee[15] = 5;
    assert_eq!(&b[74..90], &fee);
    assert_eq!(&b[90..94], &[0x0a, 0x0b, 0x0c, 0x0d]);
    assert_eq!(&b[94..109], &[0u8; 15]);
    assert_eq!(SWIFT_EXIT_LENGTH, 109);
}

#[test]
fn withdraw_exit_add_signature() {
    let mut r = SwiftExit::submit_swift_exit(1, 2, &withdraw());
    let before = r.into_bytes();
    let mut mask = [0u8; 32];
    mask[31] = 0b101;
    r.add_aggr_signature(Signature { bytes: vec![4, 4, 4] }, mask);
    assert_eq!(r.aggr_signature.bytes, vec![4, 4, 4]);
    assert_eq!(r.signers_bitmask, mask);
    assert_eq!(r.into_bytes(), before);
}

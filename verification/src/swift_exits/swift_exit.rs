//! A swift-exit request built around a withdraw operation, as the
//! swift-exit contract takes it.
use vstd::prelude::*;
use crate::encoding::{
    be_bytes, lemma_be_bytes_injective, lemma_be_bytes_len, lemma_pow256_values, lemma_split_suffix,
    push_all, push_be,
};
use crate::types::{AccountId, Address, BlockNumber, OperationId, Signature, TokenId};

verus! {

/// A 256-bit unsigned number held as its 32 bytes, most significant first.
pub type U256 = [u8; 32];

/// A withdraw operation: `amount` of token `token` leaves account
/// `account_id` at address `from` for address `to`.
#[derive(Clone, Copy)]
pub struct Withdraw {
    pub account_id: AccountId,
    pub from: Address,
    pub to: Address,
    pub token: TokenId,
    /// Amount withdrawn, in the token's smallest unit.
    pub amount: u128,
    /// Fee, in the token's smallest unit.
    pub fee: u128,
    pub nonce: u32,
}

/// A swift-exit request for the withdraw operation `withdraw_op`, found at
/// `operation_id` in block `block_number`.
pub struct SwiftExit {
    pub block_number: BlockNumber,
    pub operation_id: OperationId,
    pub withdraw_op: Withdraw,
    pub aggr_signature: Signature,
    pub signers_bitmask: U256,
}

/// Length of the encoding of a request.
pub const SWIFT_EXIT_LENGTH: usize = 109;

/// Number of zero bytes that close the encoding.
pub const PADDING_LENGTH: usize = 15;

/// The encoding of a withdraw operation: its fields in declaration order,
/// integers big-endian at their full width.
pub open spec fn withdraw_bytes(w: Withdraw) -> Seq<u8> {
    be_bytes(w.account_id as nat, 4) + w.from@ + w.to@ + be_bytes(w.token as nat, 2) + be_bytes(
        w.amount as nat,
        16,
    ) + be_bytes(w.fee as nat, 16) + be_bytes(w.nonce as nat, 4)
}

impl SwiftExit {
    /// The encoding: block number, operation id, the withdraw operation,
    /// then zero bytes up to `SWIFT_EXIT_LENGTH`.
    pub open spec fn spec_into_bytes(&self) -> Seq<u8> {
        be_bytes(self.block_number as nat, 4) + be_bytes(self.operation_id as nat, 8)
            + withdraw_bytes(self.withdraw_op) + Seq::new(PADDING_LENGTH as nat, |i: int| 0u8)
    }

    /// A new request for a withdraw operation: no signature yet, no signers.
    pub fn submit_swift_exit(
        block_number: BlockNumber,
        operation_id: OperationId,
        withdraw_op: &Withdraw,
    ) -> (r: Self)
        ensures
            r.block_number == block_number,
            r.operation_id == operation_id,
            r.withdraw_op == *withdraw_op,
            r.aggr_signature@ == Seq::<u8>::empty(),
            r.signers_bitmask@ == Seq::new(32, |i: int| 0u8),
    {
        let r = SwiftExit {
            block_number,
            operation_id,
            withdraw_op: *withdraw_op,
            aggr_signature: Signature { bytes: Vec::new() },
            signers_bitmask: [0u8; 32],
        };
        assert(r.signers_bitmask@ =~= Seq::new(32, |i: int| 0u8));
        r
    }

    /// The request's bytes, as the swift-exit contract reads them.
    pub fn into_bytes(&self) -> (r: Vec<u8>)
        ensures
            r@ == self.spec_into_bytes(),
            r@.len() == SWIFT_EXIT_LENGTH,
    {
        let w = &self.withdraw_op;
        let mut out: Vec<u8> = Vec::new();
        push_be(&mut out, self.block_number as u128, 4);
        push_be(&mut out, self.operation_id as u128, 8);
        push_be(&mut out, w.account_id as u128, 4);
        push_all(&mut out, &w.from);
        push_all(&mut out, &w.to);
        push_be(&mut out, w.token as u128, 2);
        push_be(&mut out, w.amount, 16);
        push_be(&mut out, w.fee, 16);
        push_be(&mut out, w.nonce as u128, 4);
        push_be(&mut out, 0, PADDING_LENGTH);
        proof {
            lemma_be_bytes_zero(PADDING_LENGTH as nat);
            lemma_into_bytes_len(self);
        }
        out
    }

    /// Attaches the validators' aggregated signature and the signers bitmask.
    pub fn add_aggr_signature(&mut self, aggr_signature: Signature, signers_bitmask: U256)
        ensures
            final(self).block_number == old(self).block_number,
            final(self).operation_id == old(self).operation_id,
            final(self).withdraw_op == old(self).withdraw_op,
            final(self).aggr_signature == aggr_signature,
            final(self).signers_bitmask == signers_bitmask,
            final(self).spec_into_bytes() == old(self).spec_into_bytes(),
    {
        self.aggr_signature = aggr_signature;
        self.signers_bitmask = signers_bitmask;
    }
}

/// Every request encodes to exactly `SWIFT_EXIT_LENGTH` bytes.
pub proof fn lemma_into_bytes_len(s: &SwiftExit)
    ensures
        s.spec_into_bytes().len() == SWIFT_EXIT_LENGTH,
{
    let w = s.withdraw_op;
    lemma_be_bytes_len(s.block_number as nat, 4);
    lemma_be_bytes_len(s.operation_id as nat, 8);
    lemma_be_bytes_len(w.account_id as nat, 4);
    lemma_be_bytes_len(w.token as nat, 2);
    lemma_be_bytes_len(w.amount as nat, 16);
    lemma_be_bytes_len(w.fee as nat, 16);
    lemma_be_bytes_len(w.nonce as nat, 4);
}

proof fn lemma_be_bytes_zero(n: nat)
    ensures
        be_bytes(0, n) == Seq::new(n, |i: int| 0u8),
    decreases n,
{
    if n > 0 {
        lemma_be_bytes_zero((n - 1) as nat);
        assert(be_bytes(0, n) =~= Seq::new(n, |i: int| 0u8));
    } else {
        assert(be_bytes(0, n) =~= Seq::new(n, |i: int| 0u8));
    }
}

/// Two requests with the same bytes agree on block number, operation id and
/// withdraw operation: the encoding loses nothing of them.
pub proof fn lemma_into_bytes_injective(a: &SwiftExit, b: &SwiftExit)
    requires
        a.spec_into_bytes() == b.spec_into_bytes(),
    ensures
        a.block_number == b.block_number,
        a.operation_id == b.operation_id,
        a.withdraw_op == b.withdraw_op,
{
    lemma_pow256_values();
    let (v, w) = (a.withdraw_op, b.withdraw_op);
    let a1 = be_bytes(a.block_number as nat, 4);
    let a2 = a1 + be_bytes(a.operation_id as nat, 8);
    let b1 = be_bytes(b.block_number as nat, 4);
    let b2 = b1 + be_bytes(b.operation_id as nat, 8);
    let v1 = be_bytes(v.account_id as nat, 4);
    let v2 = v1 + v.from@;
    let v3 = v2 + v.to@;
    let v4 = v3 + be_bytes(v.token as nat, 2);
    let v5 = v4 + be_bytes(v.amount as nat, 16);
    let v6 = v5 + be_bytes(v.fee as nat, 16);
    let w1 = be_bytes(w.account_id as nat, 4);
    let w2 = w1 + w.from@;
    let w3 = w2 + w.to@;
    let w4 = w3 + be_bytes(w.token as nat, 2);
    let w5 = w4 + be_bytes(w.amount as nat, 16);
    let w6 = w5 + be_bytes(w.fee as nat, 16);
    lemma_be_bytes_len(a.block_number as nat, 4);
    lemma_be_bytes_len(a.operation_id as nat, 8);
    lemma_be_bytes_len(b.block_number as nat, 4);
    lemma_be_bytes_len(b.operation_id as nat, 8);
    lemma_be_bytes_len(v.account_id as nat, 4);
    lemma_be_bytes_len(v.token as nat, 2);
    lemma_be_bytes_len(v.amount as nat, 16);
    lemma_be_bytes_len(v.fee as nat, 16);
    lemma_be_bytes_len(v.nonce as nat, 4);
    lemma_be_bytes_len(w.account_id as nat, 4);
    lemma_be_bytes_len(w.token as nat, 2);
    lemma_be_bytes_len(w.amount as nat, 16);
    lemma_be_bytes_len(w.fee as nat, 16);
    lemma_be_bytes_len(w.nonce as nat, 4);
    let pad = Seq::new(PADDING_LENGTH as nat, |i: int| 0u8);
    assert(a.spec_into_bytes() =~= a2 + (v6 + be_bytes(v.nonce as nat, 4)) + pad);
    assert(b.spec_into_bytes() =~= b2 + (w6 + be_bytes(w.nonce as nat, 4)) + pad);
    lemma_split_suffix(a2 + (v6 + be_bytes(v.nonce as nat, 4)), pad, b2 + (w6 + be_bytes(w.nonce as nat, 4)), pad);
    lemma_split_suffix(a2, v6 + be_bytes(v.nonce as nat, 4), b2, w6 + be_bytes(w.nonce as nat, 4));
    lemma_split_suffix(a1, be_bytes(a.operation_id as nat, 8), b1, be_bytes(b.operation_id as nat, 8));
    lemma_split_suffix(v6, be_bytes(v.nonce as nat, 4), w6, be_bytes(w.nonce as nat, 4));
    lemma_split_suffix(v5, be_bytes(v.fee as nat, 16), w5, be_bytes(w.fee as nat, 16));
    lemma_split_suffix(v4, be_bytes(v.amount as nat, 16), w4, be_bytes(w.amount as nat, 16));
    lemma_split_suffix(v3, be_bytes(v.token as nat, 2), w3, be_bytes(w.token as nat, 2));
    lemma_split_suffix(v2, v.to@, w2, w.to@);
    lemma_split_suffix(v1, v.from@, w1, w.from@);
    lemma_be_bytes_injective(a.block_number as nat, b.block_number as nat, 4);
    lemma_be_bytes_injective(a.operation_id as nat, b.operation_id as nat, 8);
    lemma_be_bytes_injective(v.account_id as nat, w.account_id as nat, 4);
    lemma_be_bytes_injective(v.token as nat, w.token as nat, 2);
    lemma_be_bytes_injective(v.amount as nat, w.amount as nat, 16);
    lemma_be_bytes_injective(v.fee as nat, w.fee as nat, 16);
    lemma_be_bytes_injective(v.nonce as nat, w.nonce as nat, 4);
    assert(v.from =~= w.from);
    assert(v.to =~= w.to);
}

} // verus!

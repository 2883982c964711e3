//! A swift-exit request as the operator stores it.
use vstd::prelude::*;
use crate::encoding::{
    be_bytes, lemma_be_bytes_injective, lemma_be_bytes_len, lemma_pow256_values, lemma_split_suffix,
    push_all, push_be,
};
use crate::swift_exits::governance_interactor::{
    BITMASK_WIDTH, Governance, get_bitmask, has_signer, lemma_bitmask_nonzero, spec_bitmask,
};
use crate::swift_exits::price_calculator::{Comptroller, PriceOracle, calc_supply_amount, spec_supply_amount};
use crate::types::{
    AccountId, Address, Amount, BlockNumber, Decimal, ENCODED_MANTISSA_LIMIT, ENCODED_SCALE_LIMIT,
    Error, ExactDecimal, OperationId, Signature, TokenId,
};
use crate::natural::nat_to_u128;

verus! {

/// A request to exit funds fast, backed by validators' supply.
pub struct SwiftExit {
    pub block_number: BlockNumber,
    pub operation_id: OperationId,
    pub account_id: AccountId,
    pub token_id: TokenId,
    pub token_amount: Amount,
    pub fee: Amount,
    pub swift_exit_fee: Amount,
    pub owner: Address,
    pub recipient: Address,
    pub supply_amount: ExactDecimal,
    pub aggr_signature: Option<Signature>,
    pub signers_bitmask: u16,
}

/// What is sent to the swift-exit contract to commit a request.
pub struct SwiftExitCommit {
    pub bytes: Vec<u8>,
    pub aggr_signature: Signature,
    pub signers_bitmask: u16,
}

/// Length of the encoding of a request.
pub const SWIFT_EXIT_LENGTH: usize = 109;

/// Four scales, six bits each, as one 24-bit number.
pub open spec fn packed_scales(a: nat, b: nat, c: nat, d: nat) -> nat {
    (((a % 64) * 64 + b % 64) * 64 + c % 64) * 64 + d % 64
}

/// The twelve low-order bytes of a mantissa, most significant first.
pub open spec fn mantissa_bytes(m: nat) -> Seq<u8> {
    be_bytes(m, 12)
}

impl SwiftExit {
    /// The encoding: every field but the signature and the bitmask, in
    /// declaration order, integers big-endian at their full width and each
    /// decimal by its mantissa in twelve bytes; then the four decimals'
    /// scales, six bits each, in three bytes.
    pub open spec fn spec_into_bytes(&self) -> Seq<u8> {
        be_bytes(self.block_number as nat, 4) + be_bytes(self.operation_id as nat, 8) + be_bytes(
            self.account_id as nat,
            4,
        ) + be_bytes(self.token_id as nat, 2) + mantissa_bytes(self.token_amount.mantissa as nat)
            + mantissa_bytes(self.fee.mantissa as nat) + mantissa_bytes(
            self.swift_exit_fee.mantissa as nat,
        ) + self.owner@ + self.recipient@ + mantissa_bytes(self.supply_amount.mantissa@) + be_bytes(
            self.packed_scales(),
            3,
        )
    }

    /// The scales of the four decimals, packed.
    pub open spec fn packed_scales(&self) -> nat {
        packed_scales(
            self.token_amount.scale as nat,
            self.fee.scale as nat,
            self.swift_exit_fee.scale as nat,
            self.supply_amount.scale as nat,
        )
    }

    /// `self` and `other` agree on every field but the supply amount.
    pub open spec fn same_but_supply(&self, other: &SwiftExit) -> bool {
        &&& self.block_number == other.block_number
        &&& self.operation_id == other.operation_id
        &&& self.account_id == other.account_id
        &&& self.token_id == other.token_id
        &&& self.token_amount == other.token_amount
        &&& self.fee == other.fee
        &&& self.swift_exit_fee == other.swift_exit_fee
        &&& self.owner == other.owner
        &&& self.recipient == other.recipient
        &&& self.aggr_signature == other.aggr_signature
        &&& self.signers_bitmask == other.signers_bitmask
    }

    /// Whether the request's decimals are ones that its encoding holds.
    pub fn amounts_encodable(&self) -> (r: bool)
        ensures
            r == self.amounts_valid(),
            r == (self.token_amount.mantissa < 0x1_0000_0000_0000_0000_0000_0000
                && self.token_amount.scale < 64 && self.fee.mantissa
                < 0x1_0000_0000_0000_0000_0000_0000 && self.fee.scale < 64
                && self.swift_exit_fee.mantissa < 0x1_0000_0000_0000_0000_0000_0000
                && self.swift_exit_fee.scale < 64 && self.supply_amount.mantissa@
                < 0x1_0000_0000_0000_0000_0000_0000nat && self.supply_amount.scale < 64),
    {
        let supply_fits = match self.supply_amount.mantissa.to_u128() {
            Some(m) => m < ENCODED_MANTISSA_LIMIT,
            None => false,
        };
        self.token_amount.mantissa < ENCODED_MANTISSA_LIMIT && self.token_amount.scale
            < ENCODED_SCALE_LIMIT && self.fee.mantissa < ENCODED_MANTISSA_LIMIT && self.fee.scale
            < ENCODED_SCALE_LIMIT && self.swift_exit_fee.mantissa < ENCODED_MANTISSA_LIMIT
            && self.swift_exit_fee.scale < ENCODED_SCALE_LIMIT && supply_fits
            && self.supply_amount.scale < ENCODED_SCALE_LIMIT as u32
    }

    /// The decimals of the request are ones that its encoding holds.
    pub open spec fn amounts_valid(&self) -> bool {
        &&& self.token_amount.valid()
        &&& self.fee.valid()
        &&& self.swift_exit_fee.valid()
        &&& self.supply_amount.valid()
    }

    /// The encoding holds a request exactly when each of its four mantissas is
    /// below 2^96, so that it fits in twelve bytes, and each of its four scales
    /// is below 64, so that it fits in six bits.
    pub proof fn lemma_amounts_valid_meaning(&self)
        ensures
            self.amounts_valid() <==> (self.token_amount.mantissa
                < 0x1_0000_0000_0000_0000_0000_0000 && self.token_amount.scale < 64
                && self.fee.mantissa < 0x1_0000_0000_0000_0000_0000_0000 && self.fee.scale < 64
                && self.swift_exit_fee.mantissa < 0x1_0000_0000_0000_0000_0000_0000
                && self.swift_exit_fee.scale < 64 && self.supply_amount.mantissa@
                < 0x1_0000_0000_0000_0000_0000_0000nat && self.supply_amount.scale < 64),
    {
    }

    /// Whether a commit of the request is refused, and why.
    pub open spec fn commit_check(&self) -> Result<(), Error> {
        if self.aggr_signature is None {
            Err(Error::MissingSignature)
        } else if self.signers_bitmask == 0 {
            Err(Error::NoSigners)
        } else {
            Ok(())
        }
    }

    /// Prices the request: its supply amount becomes what backs its token
    /// amount, in the matter token. Where pricing fails the request is unchanged.
    pub fn save_new_request(
        &mut self,
        gov: &Governance,
        oracle: &PriceOracle,
        comptroller: &Comptroller,
    ) -> (r: Result<(), Error>)
        ensures
            match spec_supply_amount(gov, oracle, comptroller, old(self).token_id, old(self).token_amount) {
                Ok(supply) => r is Ok && final(self).same_but_supply(old(self)) && final(self).supply_amount@ == supply,
                Err(e) => r == Err::<(), Error>(e) && *final(self) == *old(self),
            },
    {
        let supply_amount = calc_supply_amount(gov, oracle, comptroller, self.token_id, self.token_amount)?;
        self.supply_amount = supply_amount;
        Ok(())
    }

    /// The request's bytes, as the swift-exit contract reads them.
    pub fn into_bytes(&self) -> (r: Vec<u8>)
        requires
            self.amounts_valid(),
        ensures
            r@ == self.spec_into_bytes(),
            r@.len() == SWIFT_EXIT_LENGTH,
    {
        let mut out: Vec<u8> = Vec::new();
        push_be(&mut out, self.block_number as u128, 4);
        push_be(&mut out, self.operation_id as u128, 8);
        push_be(&mut out, self.account_id as u128, 4);
        push_be(&mut out, self.token_id as u128, 2);
        push_be(&mut out, self.token_amount.mantissa, 12);
        push_be(&mut out, self.fee.mantissa, 12);
        push_be(&mut out, self.swift_exit_fee.mantissa, 12);
        push_all(&mut out, &self.owner);
        push_all(&mut out, &self.recipient);
        push_be(&mut out, nat_to_u128(&self.supply_amount.mantissa.bits), 12);
        let scales: u128 = ((((self.token_amount.scale % 64) as u128) * 64 + ((self.fee.scale % 64)
            as u128)) * 64 + ((self.swift_exit_fee.scale % 64) as u128)) * 64 + ((
        self.supply_amount.scale % 64) as u128);
        push_be(&mut out, scales, 3);
        proof {
            lemma_into_bytes_len(self);
        }
        out
    }

    /// Attaches the validators' aggregated signature and the bitmask of the
    /// signers. Where the bitmask cannot be formed the request is unchanged.
    pub fn add_aggr_signature(
        &mut self,
        gov: &Governance,
        aggr_signature: Signature,
        signers: Vec<Address>,
    ) -> (r: Result<(), Error>)
        ensures
            match spec_bitmask(gov, signers@) {
                Ok(mask) => r is Ok && *final(self) == (SwiftExit {
                    aggr_signature: Some(aggr_signature),
                    signers_bitmask: mask,
                    ..*old(self)
                }),
                Err(e) => r == Err::<(), Error>(e) && *final(self) == *old(self),
            },
            final(self).spec_into_bytes() == old(self).spec_into_bytes(),
    {
        let signers_bitmask = get_bitmask(gov, signers)?;
        self.aggr_signature = Some(aggr_signature);
        self.signers_bitmask = signers_bitmask;
        Ok(())
    }

    /// What to send to the swift-exit contract: refused without a signature,
    /// then refused with an empty signers bitmask.
    pub fn commit_swift_exit(&self) -> (r: Result<SwiftExitCommit, Error>)
        requires
            self.amounts_valid(),
        ensures
            r is Ok <==> self.commit_check() is Ok,
            r matches Err(e) ==> self.commit_check() == Err::<(), Error>(e),
            r matches Ok(c) ==> {
                &&& c.bytes@ == self.spec_into_bytes()
                &&& self.aggr_signature matches Some(sig) && c.aggr_signature@ == sig@
                &&& c.signers_bitmask == self.signers_bitmask
            },
    {
        let sig = match &self.aggr_signature {
            None => return Err(Error::MissingSignature),
            Some(sig) => sig.duplicate(),
        };
        if self.signers_bitmask == 0 {
            return Err(Error::NoSigners);
        }
        let bytes = self.into_bytes();
        Ok(SwiftExitCommit { bytes, aggr_signature: sig, signers_bitmask: self.signers_bitmask })
    }
}

/// Every request encodes to exactly `SWIFT_EXIT_LENGTH` bytes.
pub proof fn lemma_into_bytes_len(s: &SwiftExit)
    ensures
        s.spec_into_bytes().len() == SWIFT_EXIT_LENGTH,
{
    lemma_be_bytes_len(s.block_number as nat, 4);
    lemma_be_bytes_len(s.operation_id as nat, 8);
    lemma_be_bytes_len(s.account_id as nat, 4);
    lemma_be_bytes_len(s.token_id as nat, 2);
    lemma_be_bytes_len(s.token_amount.mantissa as nat, 12);
    lemma_be_bytes_len(s.fee.mantissa as nat, 12);
    lemma_be_bytes_len(s.swift_exit_fee.mantissa as nat, 12);
    lemma_be_bytes_len(s.supply_amount.mantissa@, 12);
    lemma_be_bytes_len(s.packed_scales(), 3);
}

proof fn lemma_split_64(a: nat, b: nat, c: nat, d: nat)
    requires
        a * 64 + b == c * 64 + d,
        b < 64,
        d < 64,
    ensures
        a == c,
        b == d,
{
    vstd::arithmetic::div_mod::lemma_fundamental_div_mod_converse(
        (a * 64 + b) as int,
        64,
        a as int,
        b as int,
    );
    vstd::arithmetic::div_mod::lemma_fundamental_div_mod_converse(
        (c * 64 + d) as int,
        64,
        c as int,
        d as int,
    );
}

proof fn lemma_packed_scales_injective(a: nat, b: nat, c: nat, d: nat, w: nat, x: nat, y: nat, z: nat)
    requires
        packed_scales(a, b, c, d) == packed_scales(w, x, y, z),
        a < 64,
        b < 64,
        c < 64,
        d < 64,
        w < 64,
        x < 64,
        y < 64,
        z < 64,
    ensures
        a == w,
        b == x,
        c == y,
        d == z,
{
    let p1 = a * 64 + b;
    let q1 = w * 64 + x;
    let p2 = p1 * 64 + c;
    let q2 = q1 * 64 + y;
    lemma_split_64(p2, d, q2, z);
    lemma_split_64(p1, c, q1, y);
    lemma_split_64(a, b, w, x);
}

proof fn lemma_packed_scales_bound(a: nat, b: nat, c: nat, d: nat)
    ensures
        packed_scales(a, b, c, d) < 0x100_0000,
{
    let sa = a % 64;
    let sb = b % 64;
    let sc = c % 64;
    let sd = d % 64;
    assert((((sa * 64 + sb) * 64 + sc) * 64 + sd) < 0x100_0000) by (nonlinear_arith)
        requires
            sa < 64,
            sb < 64,
            sc < 64,
            sd < 64,
    ;
}

/// Two requests whose decimals the encoding holds, and whose bytes are
/// equal, agree on every field that the encoding holds: it loses nothing.
pub proof fn lemma_into_bytes_injective(a: &SwiftExit, b: &SwiftExit)
    requires
        a.amounts_valid(),
        b.amounts_valid(),
        a.spec_into_bytes() == b.spec_into_bytes(),
    ensures
        a.block_number == b.block_number,
        a.operation_id == b.operation_id,
        a.account_id == b.account_id,
        a.token_id == b.token_id,
        a.token_amount == b.token_amount,
        a.fee == b.fee,
        a.swift_exit_fee == b.swift_exit_fee,
        a.owner == b.owner,
        a.recipient == b.recipient,
        a.supply_amount@ == b.supply_amount@,
{
    lemma_pow256_values();
    let a1 = be_bytes(a.block_number as nat, 4);
    let a2 = a1 + be_bytes(a.operation_id as nat, 8);
    let a3 = a2 + be_bytes(a.account_id as nat, 4);
    let a4 = a3 + be_bytes(a.token_id as nat, 2);
    let a5 = a4 + mantissa_bytes(a.token_amount.mantissa as nat);
    let a6 = a5 + mantissa_bytes(a.fee.mantissa as nat);
    let a7 = a6 + mantissa_bytes(a.swift_exit_fee.mantissa as nat);
    let a8 = a7 + a.owner@;
    let a9 = a8 + a.recipient@;
    let a10 = a9 + mantissa_bytes(a.supply_amount.mantissa@);
    let b1 = be_bytes(b.block_number as nat, 4);
    let b2 = b1 + be_bytes(b.operation_id as nat, 8);
    let b3 = b2 + be_bytes(b.account_id as nat, 4);
    let b4 = b3 + be_bytes(b.token_id as nat, 2);
    let b5 = b4 + mantissa_bytes(b.token_amount.mantissa as nat);
    let b6 = b5 + mantissa_bytes(b.fee.mantissa as nat);
    let b7 = b6 + mantissa_bytes(b.swift_exit_fee.mantissa as nat);
    let b8 = b7 + b.owner@;
    let b9 = b8 + b.recipient@;
    let b10 = b9 + mantissa_bytes(b.supply_amount.mantissa@);
    let pa = a.packed_scales();
    let pb = b.packed_scales();
    lemma_be_bytes_len(a.block_number as nat, 4);
    lemma_be_bytes_len(a.operation_id as nat, 8);
    lemma_be_bytes_len(a.account_id as nat, 4);
    lemma_be_bytes_len(a.token_id as nat, 2);
    lemma_be_bytes_len(a.token_amount.mantissa as nat, 12);
    lemma_be_bytes_len(a.fee.mantissa as nat, 12);
    lemma_be_bytes_len(a.swift_exit_fee.mantissa as nat, 12);
    lemma_be_bytes_len(a.supply_amount.mantissa@, 12);
    lemma_be_bytes_len(pa, 3);
    lemma_be_bytes_len(b.block_number as nat, 4);
    lemma_be_bytes_len(b.operation_id as nat, 8);
    lemma_be_bytes_len(b.account_id as nat, 4);
    lemma_be_bytes_len(b.token_id as nat, 2);
    lemma_be_bytes_len(b.token_amount.mantissa as nat, 12);
    lemma_be_bytes_len(b.fee.mantissa as nat, 12);
    lemma_be_bytes_len(b.swift_exit_fee.mantissa as nat, 12);
    lemma_be_bytes_len(b.supply_amount.mantissa@, 12);
    lemma_be_bytes_len(pb, 3);
    lemma_split_suffix(a10, be_bytes(pa, 3), b10, be_bytes(pb, 3));
    lemma_split_suffix(a9, mantissa_bytes(a.supply_amount.mantissa@), b9, mantissa_bytes(b.supply_amount.mantissa@));
    lemma_split_suffix(a8, a.recipient@, b8, b.recipient@);
    lemma_split_suffix(a7, a.owner@, b7, b.owner@);
    lemma_split_suffix(a6, mantissa_bytes(a.swift_exit_fee.mantissa as nat), b6, mantissa_bytes(b.swift_exit_fee.mantissa as nat));
    lemma_split_suffix(a5, mantissa_bytes(a.fee.mantissa as nat), b5, mantissa_bytes(b.fee.mantissa as nat));
    lemma_split_suffix(a4, mantissa_bytes(a.token_amount.mantissa as nat), b4, mantissa_bytes(b.token_amount.mantissa as nat));
    lemma_split_suffix(a3, be_bytes(a.token_id as nat, 2), b3, be_bytes(b.token_id as nat, 2));
    lemma_split_suffix(a2, be_bytes(a.account_id as nat, 4), b2, be_bytes(b.account_id as nat, 4));
    lemma_split_suffix(a1, be_bytes(a.operation_id as nat, 8), b1, be_bytes(b.operation_id as nat, 8));
    lemma_be_bytes_injective(a.block_number as nat, b.block_number as nat, 4);
    lemma_be_bytes_injective(a.operation_id as nat, b.operation_id as nat, 8);
    lemma_be_bytes_injective(a.account_id as nat, b.account_id as nat, 4);
    lemma_be_bytes_injective(a.token_id as nat, b.token_id as nat, 2);
    lemma_be_bytes_injective(a.token_amount.mantissa as nat, b.token_amount.mantissa as nat, 12);
    lemma_be_bytes_injective(a.fee.mantissa as nat, b.fee.mantissa as nat, 12);
    lemma_be_bytes_injective(a.swift_exit_fee.mantissa as nat, b.swift_exit_fee.mantissa as nat, 12);
    lemma_be_bytes_injective(a.supply_amount.mantissa@, b.supply_amount.mantissa@, 12);
    lemma_packed_scales_bound(a.token_amount.scale as nat, a.fee.scale as nat, a.swift_exit_fee.scale as nat, a.supply_amount.scale as nat);
    lemma_packed_scales_bound(b.token_amount.scale as nat, b.fee.scale as nat, b.swift_exit_fee.scale as nat, b.supply_amount.scale as nat);
    lemma_be_bytes_injective(pa, pb, 3);
    lemma_packed_scales_injective(
        a.token_amount.scale as nat,
        a.fee.scale as nat,
        a.swift_exit_fee.scale as nat,
        a.supply_amount.scale as nat,
        b.token_amount.scale as nat,
        b.fee.scale as nat,
        b.swift_exit_fee.scale as nat,
        b.supply_amount.scale as nat,
    );
    assert(a.owner =~= b.owner);
    assert(a.recipient =~= b.recipient);
}

/// A request whose signature was attached with at least one signing
/// validator of id below 16 among its signers can be committed.
pub proof fn lemma_signed_request_commits(
    s: SwiftExit,
    gov: &Governance,
    aggr_signature: Signature,
    signers: Seq<Address>,
    b: u16,
)
    requires
        spec_bitmask(gov, signers) is Ok,
        b < BITMASK_WIDTH,
        has_signer(gov, signers, b),
    ensures
        (SwiftExit {
            aggr_signature: Some(aggr_signature),
            signers_bitmask: spec_bitmask(gov, signers)->Ok_0,
            ..s
        }).commit_check() is Ok,
{
    lemma_bitmask_nonzero(gov, signers, spec_bitmask(gov, signers)->Ok_0);
}

} // verus!

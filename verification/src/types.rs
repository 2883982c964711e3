//! Plain data types shared by the swift-exit logic.
use vstd::prelude::*;
use crate::natural::Natural;

verus! {

/// A 20-byte account or contract address.
pub type Address = [u8; 20];

/// Number of a committed block.
pub type BlockNumber = u32;

/// Position of an operation inside its block.
pub type OperationId = u64;

/// Identifier of an account.
pub type AccountId = u32;

/// Identifier of a token registered in governance.
pub type TokenId = u16;

/// A decimal number: `mantissa / 10^scale`.
#[derive(Debug, Clone, Copy, PartialEq, Eq, Structural)]
pub struct Decimal {
    pub mantissa: u128,
    pub scale: u8,
}

/// A token amount, a price or a collateral factor.
pub type Amount = Decimal;

/// Mantissas that a request's encoding holds stay below this bound: 2^96.
pub const ENCODED_MANTISSA_LIMIT: u128 = 0x1_0000_0000_0000_0000_0000_0000;

/// Scales that a request's encoding holds stay below this bound.
pub const ENCODED_SCALE_LIMIT: u8 = 64;

impl Decimal {
    /// A decimal that a request's encoding holds without loss.
    pub open spec fn valid(self) -> bool {
        self.mantissa < ENCODED_MANTISSA_LIMIT && self.scale < ENCODED_SCALE_LIMIT
    }
}

/// A decimal number with an unbounded mantissa: `mantissa / 10^scale`.
pub struct ExactDecimal {
    pub mantissa: Natural,
    pub scale: u32,
}

impl View for ExactDecimal {
    type V = (nat, nat);

    open spec fn view(&self) -> (nat, nat) {
        (self.mantissa@, self.scale as nat)
    }
}

impl ExactDecimal {
    /// A decimal that a request's encoding holds without loss.
    pub open spec fn valid(&self) -> bool {
        self.mantissa@ < ENCODED_MANTISSA_LIMIT && self.scale < ENCODED_SCALE_LIMIT
    }

    /// The same number as `d`.
    pub fn from_decimal(d: Decimal) -> (r: ExactDecimal)
        ensures
            r@ == (d.mantissa as nat, d.scale as nat),
    {
        ExactDecimal { mantissa: Natural::from_u128(d.mantissa), scale: d.scale as u32 }
    }
}

/// An aggregated signature of the validators, as raw bytes.
pub struct Signature {
    pub bytes: Vec<u8>,
}

/// A validator's public key, as raw bytes.
pub struct Pubkey {
    pub bytes: Vec<u8>,
}

impl View for Signature {
    type V = Seq<u8>;

    open spec fn view(&self) -> Seq<u8> {
        self.bytes@
    }
}

impl View for Pubkey {
    type V = Seq<u8>;

    open spec fn view(&self) -> Seq<u8> {
        self.bytes@
    }
}

impl Signature {
    /// A copy of the signature.
    pub fn duplicate(&self) -> (r: Signature)
        ensures
            r@ == self@,
    {
        Signature { bytes: self.bytes.clone() }
    }
}

impl Pubkey {
    /// A copy of the key.
    pub fn duplicate(&self) -> (r: Pubkey)
        ensures
            r@ == self@,
    {
        Pubkey { bytes: self.bytes.clone() }
    }
}

/// Why a swift-exit operation was refused.
#[derive(Debug, Clone, Copy, PartialEq, Eq, Structural)]
pub enum Error {
    /// The address is not a validator known to governance.
    UnknownValidator,
    /// The token id is not registered in governance.
    UnknownToken,
    /// Governance has no cToken for the token address.
    NoCToken,
    /// The price oracle has no price for the cToken.
    NoPrice,
    /// The comptroller has no collateral factor for the cToken.
    NoCollateralFactor,
    /// The supply formula divides by zero.
    ZeroDenominator,
    /// The request carries no aggregated signature.
    MissingSignature,
    /// The request's signers bitmask is empty.
    NoSigners,
}

/// Byte-wise comparison of two addresses.
pub fn address_eq(a: &Address, b: &Address) -> (r: bool)
    ensures
        r == (*a == *b),
{
    let mut i: usize = 0;
    while i < 20
        invariant
            0 <= i <= 20,
            forall|j: int| 0 <= j < i ==> a[j] == b[j],
        decreases 20 - i,
    {
        if a[i] != b[i] {
            return false;
        }
        i = i + 1;
    }
    assert(*a =~= *b);
    true
}

/// The value of the first entry whose key is `key`.
pub open spec fn find_entry<K, V>(entries: Seq<(K, V)>, key: K) -> Option<V>
    decreases entries.len(),
{
    if entries.len() == 0 {
        None
    } else if entries[0].0 == key {
        Some(entries[0].1)
    } else {
        find_entry(entries.drop_first(), key)
    }
}

pub proof fn lemma_find_entry_skip<K, V>(entries: Seq<(K, V)>, key: K, i: int)
    requires
        0 <= i < entries.len(),
        entries[i].0 != key,
    ensures
        find_entry(entries.skip(i), key) == find_entry(entries.skip(i + 1), key),
{
    assert(entries.skip(i).drop_first() =~= entries.skip(i + 1));
}

/// Index of the first entry whose key is `key`.
pub fn position_by_address<V>(entries: &Vec<(Address, V)>, key: &Address) -> (r: Option<usize>)
    ensures
        match r {
            Some(i) => i < entries@.len() && find_entry(entries@, *key) == Some(entries@[i as int].1),
            None => find_entry(entries@, *key) is None,
        },
{
    let mut i: usize = 0;
    assert(entries@.skip(0) =~= entries@);
    while i < entries.len()
        invariant
            0 <= i <= entries@.len(),
            find_entry(entries@, *key) == find_entry(entries@.skip(i as int), *key),
        decreases entries@.len() - i,
    {
        if address_eq(&entries[i].0, key) {
            return Some(i);
        }
        proof {
            lemma_find_entry_skip(entries@, *key, i as int);
        }
        i = i + 1;
    }
    None
}

/// Looks up the value stored under an address key.
pub fn lookup_by_address<V: Copy>(entries: &Vec<(Address, V)>, key: &Address) -> (r: Option<V>)
    ensures
        r == find_entry(entries@, *key),
{
    match position_by_address(entries, key) {
        Some(i) => Some(entries[i].1),
        None => None,
    }
}

/// Looks up the address stored under a token id.
pub fn lookup_by_token(entries: &Vec<(TokenId, Address)>, key: TokenId) -> (r: Option<Address>)
    ensures
        r == find_entry(entries@, key),
{
    let mut i: usize = 0;
    assert(entries@.skip(0) =~= entries@);
    while i < entries.len()
        invariant
            0 <= i <= entries@.len(),
            find_entry(entries@, key) == find_entry(entries@.skip(i as int), key),
        decreases entries@.len() - i,
    {
        if entries[i].0 == key {
            return Some(entries[i].1);
        }
        proof {
            lemma_find_entry_skip(entries@, key, i as int);
        }
        i = i + 1;
    }
    None
}

} // verus!

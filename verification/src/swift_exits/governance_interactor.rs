//! Queries about validators, answered from a snapshot of the governance
//! contract, and the signers bitmask that a swift exit carries.
use vstd::prelude::*;
use crate::types::{
    Address, Amount, Error, Pubkey, TokenId, find_entry, position_by_address,
};

verus! {

/// What governance records about one validator.
pub struct ValidatorInfo {
    pub id: u16,
    pub active: bool,
    pub supply: Amount,
    pub pubkey: Pubkey,
}

/// A snapshot of the governance contract: its validators and tokens.
pub struct Governance {
    /// Validator address to what governance records about it.
    pub validators: Vec<(Address, ValidatorInfo)>,
    /// The token in which validators supply.
    pub matter_token_id: TokenId,
    /// Token id to token address.
    pub tokens: Vec<(TokenId, Address)>,
    /// Token address to the address of its cToken.
    pub c_tokens: Vec<(Address, Address)>,
}

/// Number of validator ids that can be flagged: every `u16`.
pub const FLAG_COUNT: usize = 65536;

/// Number of validators that the 16-bit signers bitmask names.
pub const BITMASK_WIDTH: u16 = 16;

/// The record that governance answers with for `addr`, if any.
pub open spec fn validator_of(gov: &Governance, addr: Address) -> Option<ValidatorInfo> {
    find_entry(gov.validators@, addr)
}

/// A validator counts as a signer when it is active and supplies something.
pub open spec fn qualifies(v: ValidatorInfo) -> bool {
    v.active && v.supply.mantissa > 0
}

/// The set of validator ids that the signers `addrs` flag, taken in order;
/// the first unknown signer refuses the whole list.
pub open spec fn spec_signer_flags(gov: &Governance, addrs: Seq<Address>) -> Result<Set<u16>, Error>
    decreases addrs.len(),
{
    if addrs.len() == 0 {
        Ok(Set::empty())
    } else {
        match spec_signer_flags(gov, addrs.drop_last()) {
            Err(e) => Err(e),
            Ok(f) => match validator_of(gov, addrs.last()) {
                None => Err(Error::UnknownValidator),
                Some(v) => if qualifies(v) {
                    Ok(f.insert(v.id))
                } else {
                    Ok(f)
                },
            },
        }
    }
}

/// Bit `b` of `m` is set.
pub open spec fn bit_set(m: u16, b: u16) -> bool {
    m & (1u16 << b) != 0
}

/// The mask whose bit `b`, for `b < k`, is the flag of `b`.
pub open spec fn mask_prefix(flags: Seq<bool>, k: nat) -> u16
    decreases k,
{
    if k == 0 {
        0
    } else {
        let m = mask_prefix(flags, (k - 1) as nat);
        if flags[k - 1] {
            m | (1u16 << ((k - 1) as u16))
        } else {
            m
        }
    }
}

/// The flags of all ids, as a sequence indexed by id.
pub open spec fn flag_seq(f: Set<u16>) -> Seq<bool> {
    Seq::new(FLAG_COUNT as nat, |i: int| f.contains(i as u16))
}

/// The 16-bit bitmask of a set of flagged ids: ids from 16 on are dropped.
pub open spec fn mask_of(f: Set<u16>) -> u16 {
    mask_prefix(flag_seq(f), BITMASK_WIDTH as nat)
}

/// The bitmask of the signers `addrs`.
pub open spec fn spec_bitmask(gov: &Governance, addrs: Seq<Address>) -> Result<u16, Error> {
    match spec_signer_flags(gov, addrs) {
        Err(e) => Err(e),
        Ok(f) => Ok(mask_of(f)),
    }
}

fn find_validator_index(gov: &Governance, addr: &Address) -> (r: Option<usize>)
    ensures
        match r {
            Some(i) => i < gov.validators@.len() && validator_of(gov, *addr) == Some(
                gov.validators@[i as int].1,
            ),
            None => validator_of(gov, *addr) is None,
        },
{
    position_by_address(&gov.validators, addr)
}

/// Whether the validator at `addr` is active.
pub fn is_validator_active(gov: &Governance, addr: &Address) -> (r: Result<bool, Error>)
    ensures
        r == match validator_of(gov, *addr) {
            Some(v) => Ok(v.active),
            None => Err(Error::UnknownValidator),
        },
{
    match find_validator_index(gov, addr) {
        Some(i) => Ok(gov.validators[i].1.active),
        None => Err(Error::UnknownValidator),
    }
}

/// What the validator at `addr` supplies.
pub fn get_validator_supply(gov: &Governance, addr: &Address) -> (r: Result<Amount, Error>)
    ensures
        r == match validator_of(gov, *addr) {
            Some(v) => Ok(v.supply),
            None => Err(Error::UnknownValidator),
        },
{
    match find_validator_index(gov, addr) {
        Some(i) => Ok(gov.validators[i].1.supply),
        None => Err(Error::UnknownValidator),
    }
}

/// The id of the validator at `addr`.
pub fn get_validator_id(gov: &Governance, addr: &Address) -> (r: Result<u16, Error>)
    ensures
        r == match validator_of(gov, *addr) {
            Some(v) => Ok(v.id),
            None => Err(Error::UnknownValidator),
        },
{
    match find_validator_index(gov, addr) {
        Some(i) => Ok(gov.validators[i].1.id),
        None => Err(Error::UnknownValidator),
    }
}

/// The public key of the validator at `addr`.
pub fn get_validator_pubkey(gov: &Governance, addr: &Address) -> (r: Result<Pubkey, Error>)
    ensures
        r is Err <==> validator_of(gov, *addr) is None,
        r matches Err(e) ==> e == Error::UnknownValidator,
        r matches Ok(pk) ==> validator_of(gov, *addr) matches Some(v) && pk@ == v.pubkey@,
{
    match find_validator_index(gov, addr) {
        Some(i) => Ok(gov.validators[i].1.pubkey.duplicate()),
        None => Err(Error::UnknownValidator),
    }
}

proof fn lemma_signer_flags_err_extends(gov: &Governance, s: Seq<Address>, k: int, e: Error)
    requires
        0 <= k <= s.len(),
        spec_signer_flags(gov, s.subrange(0, k)) == Err::<Set<u16>, Error>(e),
    ensures
        spec_signer_flags(gov, s) == Err::<Set<u16>, Error>(e),
    decreases s.len() - k,
{
    if k == s.len() {
        assert(s.subrange(0, k) =~= s);
    } else {
        assert(s.subrange(0, k + 1).drop_last() =~= s.subrange(0, k));
        lemma_signer_flags_err_extends(gov, s, k + 1, e);
    }
}

/// The flags that the signers `validators` set, one per `u16` id: the flag
/// of `id` is set when some signer is validator `id`, active and with a
/// positive supply.
pub fn get_signer_flags(gov: &Governance, validators: &Vec<Address>) -> (r: Result<Vec<bool>, Error>)
    ensures
        match spec_signer_flags(gov, validators@) {
            Err(e) => r == Err::<Vec<bool>, Error>(e),
            Ok(f) => r matches Ok(flags) && flags@ == flag_seq(f),
        },
{
    let mut flags: Vec<bool> = Vec::new();
    while flags.len() < FLAG_COUNT
        invariant
            flags@.len() <= FLAG_COUNT,
            forall|j: int| 0 <= j < flags@.len() ==> !flags@[j],
        decreases FLAG_COUNT - flags@.len(),
    {
        flags.push(false);
    }
    assert(flags@ =~= flag_seq(Set::empty()));
    assert(validators@.subrange(0, 0) =~= Seq::<Address>::empty());
    let ghost mut f: Set<u16> = Set::empty();
    let mut i: usize = 0;
    while i < validators.len()
        invariant
            0 <= i <= validators@.len(),
            spec_signer_flags(gov, validators@.subrange(0, i as int)) == Ok::<Set<u16>, Error>(f),
            flags@ == flag_seq(f),
        decreases validators@.len() - i,
    {
        let addr = validators[i];
        let ghost next = validators@.subrange(0, i + 1);
        assert(next.drop_last() =~= validators@.subrange(0, i as int));
        assert(next.last() == addr);
        let id = match get_validator_id(gov, &addr) {
            Ok(id) => id,
            Err(e) => {
                proof {
                    lemma_signer_flags_err_extends(gov, validators@, i + 1, e);
                }
                return Err(e);
            },
        };
        let active = match is_validator_active(gov, &addr) {
            Ok(a) => a,
            Err(e) => {
                proof {
                    lemma_signer_flags_err_extends(gov, validators@, i + 1, e);
                }
                return Err(e);
            },
        };
        if active {
            let supply = match get_validator_supply(gov, &addr) {
                Ok(s) => s,
                Err(e) => {
                    proof {
                        lemma_signer_flags_err_extends(gov, validators@, i + 1, e);
                    }
                    return Err(e);
                },
            };
            if supply.mantissa > 0 {
                flags.set(id as usize, true);
                proof {
                    f = f.insert(id);
                }
                assert(flags@ =~= flag_seq(f));
            }
        }
        i = i + 1;
    }
    assert(validators@.subrange(0, validators@.len() as int) =~= validators@);
    Ok(flags)
}

/// The 16-bit bitmask of a flag sequence: bit `b` is the flag of id `b`.
pub fn flags_into_u16(flags: &Vec<bool>) -> (r: u16)
    requires
        flags@.len() >= BITMASK_WIDTH,
    ensures
        r == mask_prefix(flags@, BITMASK_WIDTH as nat),
{
    let mut m: u16 = 0;
    let mut k: u16 = 0;
    while k < BITMASK_WIDTH
        invariant
            k <= BITMASK_WIDTH,
            flags@.len() >= BITMASK_WIDTH,
            m == mask_prefix(flags@, k as nat),
        decreases BITMASK_WIDTH - k,
    {
        if flags[k as usize] {
            m = m | (1u16 << k);
        }
        k = k + 1;
    }
    m
}

/// The signers bitmask of `validators`: bit `id` is set for each of them
/// that is active with a positive supply, where `id` is its validator id;
/// signers with ids from 16 on set no bit.
pub fn get_bitmask(gov: &Governance, validators: Vec<Address>) -> (r: Result<u16, Error>)
    ensures
        r == spec_bitmask(gov, validators@),
{
    let flags = get_signer_flags(gov, &validators)?;
    Ok(flags_into_u16(&flags))
}

/// `addr` is a signer that flags id `b`: governance knows it as validator
/// `b`, active and with a positive supply.
pub open spec fn signs_as(gov: &Governance, addr: Address, b: u16) -> bool {
    match validator_of(gov, addr) {
        Some(v) => qualifies(v) && v.id == b,
        None => false,
    }
}

/// Some address of `addrs` flags id `b`.
pub open spec fn has_signer(gov: &Governance, addrs: Seq<Address>, b: u16) -> bool {
    exists|j: int| 0 <= j < addrs.len() && #[trigger] signs_as(gov, addrs[j], b)
}

/// Every address of `addrs` is a validator known to governance.
pub open spec fn signers_known(gov: &Governance, addrs: Seq<Address>) -> bool {
    forall|j: int| 0 <= j < addrs.len() ==> (#[trigger] validator_of(gov, addrs[j])) is Some
}

/// The flags of a list of signers exist exactly when every signer is a
/// known validator.
pub proof fn lemma_signer_flags_ok_iff(gov: &Governance, addrs: Seq<Address>)
    ensures
        spec_signer_flags(gov, addrs) is Ok <==> signers_known(gov, addrs),
    decreases addrs.len(),
{
    if addrs.len() > 0 {
        let init = addrs.drop_last();
        lemma_signer_flags_ok_iff(gov, init);
        assert forall|j: int| 0 <= j < init.len() implies #[trigger] init[j] == addrs[j] by {}
        if signers_known(gov, addrs) {
            assert forall|j: int| 0 <= j < init.len() implies (#[trigger] validator_of(
                gov,
                init[j],
            )) is Some by {
                assert(validator_of(gov, addrs[j]) is Some);
            }
            assert(validator_of(gov, addrs[addrs.len() - 1]) is Some);
        }
        if spec_signer_flags(gov, addrs) is Ok {
            assert forall|j: int| 0 <= j < addrs.len() implies (#[trigger] validator_of(
                gov,
                addrs[j],
            )) is Some by {
                if j < addrs.len() - 1 {
                    assert(validator_of(gov, init[j]) is Some);
                }
            }
        }
    }
}

/// Id `b` is flagged exactly when some signer of the list is validator `b`,
/// active and with a positive supply; this holds for every `u16` id.
pub proof fn lemma_signer_flags_members(gov: &Governance, addrs: Seq<Address>, f: Set<u16>, b: u16)
    requires
        spec_signer_flags(gov, addrs) == Ok::<Set<u16>, Error>(f),
    ensures
        f.contains(b) <==> has_signer(gov, addrs, b),
    decreases addrs.len(),
{
    if addrs.len() > 0 {
        let init = addrs.drop_last();
        let last = addrs.last();
        let f0 = spec_signer_flags(gov, init)->Ok_0;
        lemma_signer_flags_members(gov, init, f0, b);
        assert forall|j: int| 0 <= j < init.len() implies #[trigger] init[j] == addrs[j] by {}
        assert(addrs[addrs.len() - 1] == last);
        if has_signer(gov, init, b) {
            let j = choose|j: int| 0 <= j < init.len() && #[trigger] signs_as(gov, init[j], b);
            assert(signs_as(gov, addrs[j], b));
        }
        if has_signer(gov, addrs, b) {
            let j = choose|j: int| 0 <= j < addrs.len() && #[trigger] signs_as(gov, addrs[j], b);
            if j < init.len() {
                assert(signs_as(gov, init[j], b));
            }
        }
        if signs_as(gov, last, b) {
            assert(signs_as(gov, addrs[addrs.len() - 1], b));
        }
    }
}

proof fn lemma_or_bit(m: u16, id: u16, b: u16)
    requires
        id < 16,
        b < 16,
    ensures
        bit_set(m | (1u16 << id), b) == (bit_set(m, b) || id == b),
        (m | (1u16 << id)) != 0,
{
    assert(((m | (1u16 << id)) & (1u16 << b) != 0) == ((m & (1u16 << b) != 0) || id == b))
        by (bit_vector)
        requires
            id < 16,
            b < 16,
    ;
    assert((m | (1u16 << id)) != 0) by (bit_vector)
        requires
            id < 16,
    ;
}

proof fn lemma_zero_bit(b: u16)
    requires
        b < 16,
    ensures
        !bit_set(0, b),
{
    assert((0u16 & (1u16 << b)) == 0) by (bit_vector);
}

/// Bit `b` of a mask prefix is the flag of `b` when `b < k`, and clear
/// otherwise; the prefix is zero exactly when no flag below `k` is set.
pub proof fn lemma_mask_prefix_bits(flags: Seq<bool>, k: nat, b: u16)
    requires
        k <= BITMASK_WIDTH,
        flags.len() >= k,
        b < BITMASK_WIDTH,
    ensures
        bit_set(mask_prefix(flags, k), b) == (b < k && flags[b as int]),
        mask_prefix(flags, k) == 0 <==> forall|j: int| 0 <= j < k ==> !#[trigger] flags[j],
    decreases k,
{
    if k == 0 {
        lemma_zero_bit(b);
    } else {
        let k1 = (k - 1) as nat;
        lemma_mask_prefix_bits(flags, k1, b);
        let m = mask_prefix(flags, k1);
        if flags[k1 as int] {
            lemma_or_bit(m, k1 as u16, b);
        }
        if mask_prefix(flags, k) == 0 {
            assert forall|j: int| 0 <= j < k implies !#[trigger] flags[j] by {
                if j == k1 {
                    if flags[j] {
                        lemma_or_bit(m, k1 as u16, b);
                    }
                }
            }
        }
    }
}

/// In the bitmask of a list of signers, bit `b` is set exactly when some
/// signer of the list is validator `b`, active and with a positive supply.
pub proof fn lemma_bitmask_bits(gov: &Governance, addrs: Seq<Address>, m: u16, b: u16)
    requires
        spec_bitmask(gov, addrs) == Ok::<u16, Error>(m),
        b < BITMASK_WIDTH,
    ensures
        bit_set(m, b) <==> has_signer(gov, addrs, b),
{
    let f = spec_signer_flags(gov, addrs)->Ok_0;
    lemma_mask_prefix_bits(flag_seq(f), BITMASK_WIDTH as nat, b);
    lemma_signer_flags_members(gov, addrs, f, b);
}

/// The bitmask of a list of signers is non-zero exactly when some signer of
/// the list with an id below 16 is active with a positive supply.
pub proof fn lemma_bitmask_nonzero(gov: &Governance, addrs: Seq<Address>, m: u16)
    requires
        spec_bitmask(gov, addrs) == Ok::<u16, Error>(m),
    ensures
        m != 0 <==> exists|b: u16| b < BITMASK_WIDTH && #[trigger] has_signer(gov, addrs, b),
{
    let f = spec_signer_flags(gov, addrs)->Ok_0;
    let fl = flag_seq(f);
    lemma_mask_prefix_bits(fl, BITMASK_WIDTH as nat, 0);
    if m != 0 {
        let j = choose|j: int| 0 <= j < BITMASK_WIDTH && #[trigger] fl[j];
        lemma_signer_flags_members(gov, addrs, f, j as u16);
    }
    if exists|b: u16| b < BITMASK_WIDTH && #[trigger] has_signer(gov, addrs, b) {
        let b = choose|b: u16| b < BITMASK_WIDTH && #[trigger] has_signer(gov, addrs, b);
        lemma_signer_flags_members(gov, addrs, f, b);
        assert(fl[b as int]);
    }
}

/// Two lists of signers that name the same addresses, in any order and with
/// any repetition, are both accepted or both refused, and when accepted they
/// flag the same ids and give the same bitmask.
pub proof fn lemma_signer_flags_depend_on_signer_set(
    gov: &Governance,
    s1: Seq<Address>,
    s2: Seq<Address>,
)
    requires
        s1.to_set() == s2.to_set(),
    ensures
        spec_signer_flags(gov, s1) is Ok <==> spec_signer_flags(gov, s2) is Ok,
        spec_signer_flags(gov, s1) is Ok ==> spec_signer_flags(gov, s1) == spec_signer_flags(gov, s2),
        spec_bitmask(gov, s1) is Ok ==> spec_bitmask(gov, s1) == spec_bitmask(gov, s2),
{
    lemma_signer_flags_ok_iff(gov, s1);
    lemma_signer_flags_ok_iff(gov, s2);
    assert forall|j: int| 0 <= j < s1.len() implies s2.contains(#[trigger] s1[j]) by {
        assert(s1.to_set().contains(s1[j]));
    }
    assert forall|j: int| 0 <= j < s2.len() implies s1.contains(#[trigger] s2[j]) by {
        assert(s2.to_set().contains(s2[j]));
    }
    if signers_known(gov, s1) {
        assert forall|j: int| 0 <= j < s2.len() implies (#[trigger] validator_of(
            gov,
            s2[j],
        )) is Some by {
            let k = choose|k: int| 0 <= k < s1.len() && s1[k] == s2[j];
            assert(validator_of(gov, s1[k]) is Some);
        }
    }
    if signers_known(gov, s2) {
        assert forall|j: int| 0 <= j < s1.len() implies (#[trigger] validator_of(
            gov,
            s1[j],
        )) is Some by {
            let k = choose|k: int| 0 <= k < s2.len() && s2[k] == s1[j];
            assert(validator_of(gov, s2[k]) is Some);
        }
    }
    if spec_signer_flags(gov, s1) is Ok {
        let f1 = spec_signer_flags(gov, s1)->Ok_0;
        let f2 = spec_signer_flags(gov, s2)->Ok_0;
        assert forall|b: u16| f1.contains(b) <==> f2.contains(b) by {
            lemma_signer_flags_members(gov, s1, f1, b);
            lemma_signer_flags_members(gov, s2, f2, b);
            if has_signer(gov, s1, b) {
                let j = choose|j: int| 0 <= j < s1.len() && #[trigger] signs_as(gov, s1[j], b);
                let k = choose|k: int| 0 <= k < s2.len() && s2[k] == s1[j];
                assert(signs_as(gov, s2[k], b));
            }
            if has_signer(gov, s2, b) {
                let j = choose|j: int| 0 <= j < s2.len() && #[trigger] signs_as(gov, s2[j], b);
                let k = choose|k: int| 0 <= k < s1.len() && s1[k] == s2[j];
                assert(signs_as(gov, s1[k], b));
            }
        }
        assert(f1 =~= f2);
    }
}

/// Every signer of the list has a governance record.
pub open spec fn all_registered(gov: &Governance, signers: Seq<Address>) -> bool {
    forall|j: int| 0 <= j < signers.len() ==> (#[trigger] find_entry(gov.validators@, signers[j])) is Some
}

/// The signer flags: when every signer has a governance record they exist,
/// and id `id`, for every `u16`, is flagged exactly when some signer's
/// record has that id, is active and has a supply with a positive mantissa.
/// When some signer has no record, the flags are refused as an unknown
/// validator.
pub proof fn lemma_signer_flags_meaning(gov: &Governance, signers: Seq<Address>, id: u16)
    ensures
        all_registered(gov, signers) ==> spec_signer_flags(gov, signers) is Ok,
        all_registered(gov, signers) ==> (spec_signer_flags(gov, signers)->Ok_0.contains(id) <==> exists|j: int|
            0 <= j < signers.len() && (#[trigger] find_entry(gov.validators@, signers[j])) is Some
                && find_entry(gov.validators@, signers[j])->Some_0.id == id && find_entry(
                gov.validators@,
                signers[j],
            )->Some_0.active && find_entry(gov.validators@, signers[j])->Some_0.supply.mantissa > 0),
        !all_registered(gov, signers) ==> spec_signer_flags(gov, signers) == Err::<Set<u16>, Error>(
            Error::UnknownValidator,
        ),
{
    lemma_signer_flags_ok_iff(gov, signers);
    lemma_signer_flags_err_only_unknown(gov, signers);
    if all_registered(gov, signers) {
        assert(signers_known(gov, signers));
        let f = spec_signer_flags(gov, signers)->Ok_0;
        lemma_signer_flags_members(gov, signers, f, id);
        if has_signer(gov, signers, id) {
            let j = choose|j: int| 0 <= j < signers.len() && #[trigger] signs_as(gov, signers[j], id);
            assert(find_entry(gov.validators@, signers[j]) is Some);
        }
        if exists|j: int|
            0 <= j < signers.len() && (#[trigger] find_entry(gov.validators@, signers[j])) is Some
                && find_entry(gov.validators@, signers[j])->Some_0.id == id && find_entry(
                gov.validators@,
                signers[j],
            )->Some_0.active && find_entry(gov.validators@, signers[j])->Some_0.supply.mantissa > 0 {
            let j = choose|j: int|
                0 <= j < signers.len() && (#[trigger] find_entry(gov.validators@, signers[j])) is Some
                    && find_entry(gov.validators@, signers[j])->Some_0.id == id && find_entry(
                    gov.validators@,
                    signers[j],
                )->Some_0.active && find_entry(gov.validators@, signers[j])->Some_0.supply.mantissa
                    > 0;
            assert(signs_as(gov, signers[j], id));
        }
    } else {
        let j = choose|j: int|
            0 <= j < signers.len() && !((#[trigger] find_entry(gov.validators@, signers[j])) is Some);
        assert(!(validator_of(gov, signers[j]) is Some));
    }
}

proof fn lemma_signer_flags_err_only_unknown(gov: &Governance, addrs: Seq<Address>)
    ensures
        spec_signer_flags(gov, addrs) is Err ==> spec_signer_flags(gov, addrs) == Err::<
            Set<u16>,
            Error,
        >(Error::UnknownValidator),
    decreases addrs.len(),
{
    if addrs.len() > 0 {
        lemma_signer_flags_err_only_unknown(gov, addrs.drop_last());
    }
}

/// The signers bitmask: when every signer has a governance record it
/// exists, and its bit `b`, for `b < 16`, is set exactly when some signer's
/// record has id `b`, is active and has a supply with a positive mantissa.
pub proof fn lemma_bitmask_meaning(gov: &Governance, signers: Seq<Address>, b: u16)
    requires
        b < 16,
    ensures
        all_registered(gov, signers) ==> spec_bitmask(gov, signers) is Ok,
        all_registered(gov, signers) ==> ((spec_bitmask(gov, signers)->Ok_0 & (1u16 << b) != 0)
            <==> exists|j: int|
            0 <= j < signers.len() && (#[trigger] find_entry(gov.validators@, signers[j])) is Some
                && find_entry(gov.validators@, signers[j])->Some_0.id == b && find_entry(
                gov.validators@,
                signers[j],
            )->Some_0.active && find_entry(gov.validators@, signers[j])->Some_0.supply.mantissa > 0),
        !all_registered(gov, signers) ==> spec_bitmask(gov, signers) == Err::<u16, Error>(
            Error::UnknownValidator,
        ),
{
    lemma_signer_flags_meaning(gov, signers, b);
    if all_registered(gov, signers) {
        let f = spec_signer_flags(gov, signers)->Ok_0;
        lemma_mask_prefix_bits(flag_seq(f), BITMASK_WIDTH as nat, b);
    }
}

} // verus!

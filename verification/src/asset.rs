//! Assets, their amounts and the keys under which vaults keep them.
use vstd::prelude::*;

use crate::primitives::{AccountId, Word};

verus! {

/// The largest amount an asset can have.
pub const MAX_ASSET_AMOUNT: u64 = 0x7fff_ffff_8000_0000;

/// An amount that no asset can have.
#[derive(Clone, Copy, Debug, PartialEq, Eq, Structural)]
pub struct AssetError {
    pub amount: u64,
}

/// An amount of some fungible asset.
#[derive(Clone, Copy, Debug, PartialEq, Eq, Structural)]
pub struct AssetAmount {
    pub value: u64,
}

/// Asks `AssetAmount::new` whether it accepts an amount; it accepts those up to
/// [`MAX_ASSET_AMOUNT`] and no others.
#[verifier::external_body]
fn is_amount_accepted(amount: u64) -> (accepted: bool)
    ensures
        accepted == (amount <= MAX_ASSET_AMOUNT),
{
    miden_protocol::asset::AssetAmount::new(amount).is_ok()
}

impl AssetAmount {
    pub open spec fn wf(self) -> bool {
        self.value <= MAX_ASSET_AMOUNT
    }

    pub fn new(value: u64) -> (amount: Result<AssetAmount, AssetError>)
        ensures
            amount == (if value <= MAX_ASSET_AMOUNT {
                Ok::<AssetAmount, AssetError>(AssetAmount { value })
            } else {
                Err(AssetError { amount: value })
            }),
    {
        if is_amount_accepted(value) {
            Ok(AssetAmount { value })
        } else {
            Err(AssetError { amount: value })
        }
    }

    pub fn zero() -> (amount: AssetAmount)
        ensures
            amount == (AssetAmount { value: 0 }),
            amount.wf(),
    {
        AssetAmount { value: 0 }
    }
}

/// Some amount of the asset that a faucet issues. Assets of one faucet are interchangeable
/// only when both have callbacks enabled or both have them disabled.
#[derive(Clone, Copy, Debug, PartialEq, Eq, Structural)]
pub struct FungibleAsset {
    pub faucet_id: AccountId,
    pub amount: AssetAmount,
    pub callbacks: bool,
}

impl FungibleAsset {
    pub open spec fn wf(self) -> bool {
        self.amount.wf()
    }

    /// The asset of a faucet with callbacks disabled.
    pub open spec fn spec_of(faucet_id: AccountId, amount: u64) -> FungibleAsset {
        FungibleAsset { faucet_id, amount: AssetAmount { value: amount }, callbacks: false }
    }

    pub fn new(faucet_id: AccountId, amount: u64) -> (asset: Result<FungibleAsset, AssetError>)
        ensures
            asset == (if amount <= MAX_ASSET_AMOUNT {
                Ok::<FungibleAsset, AssetError>(FungibleAsset::spec_of(faucet_id, amount))
            } else {
                Err(AssetError { amount })
            }),
    {
        match AssetAmount::new(amount) {
            Ok(amount) => Ok(FungibleAsset { faucet_id, amount, callbacks: false }),
            Err(err) => Err(err),
        }
    }

    /// No units of a faucet's asset.
    pub fn zero(faucet_id: AccountId) -> (asset: FungibleAsset)
        ensures
            asset == FungibleAsset::spec_of(faucet_id, 0),
    {
        FungibleAsset { faucet_id, amount: AssetAmount::zero(), callbacks: false }
    }

    pub fn faucet_id(&self) -> (faucet_id: AccountId)
        ensures
            faucet_id == self.faucet_id,
    {
        self.faucet_id
    }

    pub fn amount(&self) -> (amount: AssetAmount)
        ensures
            amount == self.amount,
    {
        self.amount
    }

    /// Whether two assets are of one kind.
    pub open spec fn spec_is_same(self, other: FungibleAsset) -> bool {
        self.faucet_id == other.faucet_id && self.callbacks == other.callbacks
    }

    /// What is left after taking some units away.
    pub open spec fn spec_sub_amount(self, amount: AssetAmount) -> FungibleAsset {
        FungibleAsset {
            amount: AssetAmount { value: (self.amount.value - amount.value) as u64 },
            ..self
        }
    }

    /// What is left after taking some units away; `None` when there are fewer.
    pub fn sub_amount(self, amount: AssetAmount) -> (rest: Option<FungibleAsset>)
        ensures
            rest == (if amount.value <= self.amount.value {
                Some(self.spec_sub_amount(amount))
            } else {
                None
            }),
    {
        if amount.value <= self.amount.value {
            let value: u64 = self.amount.value - amount.value;
            Some(
                FungibleAsset {
                    faucet_id: self.faucet_id,
                    amount: AssetAmount { value },
                    callbacks: self.callbacks,
                },
            )
        } else {
            None
        }
    }
}

/// A commitment to the data of an asset that is not interchangeable with any other.
#[derive(Clone, Copy, Debug, PartialEq, Eq, Structural)]
pub struct NonFungibleAsset {
    pub faucet_id: AccountId,
    pub value: Word,
    pub callbacks: bool,
}

#[derive(Clone, Copy, Debug, PartialEq, Eq, Structural)]
pub enum Asset {
    Fungible(FungibleAsset),
    NonFungible(NonFungibleAsset),
}

/// The key with some identifier limbs, of a faucet's asset. The low byte of the faucet's suffix,
/// which is zero, carries the composition in its two lowest bits and the callback flag above them.
pub open spec fn key_of(
    limbs: (u64, u64),
    faucet_id: AccountId,
    composition: int,
    callbacks: bool,
) -> Word {
    Word {
        a: limbs.0,
        b: limbs.1,
        c: (faucet_id@ as int % 0x1_0000_0000_0000_0000 + composition + if callbacks {
            4int
        } else {
            0int
        }) as u64,
        d: (faucet_id@ as int / 0x1_0000_0000_0000_0000) as u64,
    }
}

impl Asset {
    pub open spec fn wf(self) -> bool {
        match self {
            Asset::Fungible(asset) => asset.wf(),
            Asset::NonFungible(asset) => asset.value.is_canonical(),
        }
    }

    pub open spec fn spec_faucet_id(self) -> AccountId {
        match self {
            Asset::Fungible(asset) => asset.faucet_id,
            Asset::NonFungible(asset) => asset.faucet_id,
        }
    }

    pub fn faucet_id(&self) -> (faucet_id: AccountId)
        ensures
            faucet_id == self.spec_faucet_id(),
    {
        match self {
            Asset::Fungible(asset) => asset.faucet_id,
            Asset::NonFungible(asset) => asset.faucet_id,
        }
    }

    /// The key under which a vault keeps the asset. A fungible asset has no identifier of its
    /// own; that of another are the first two elements of its value.
    pub open spec fn spec_vault_key(self) -> Word {
        match self {
            Asset::Fungible(asset) => key_of((0, 0), asset.faucet_id, 1, asset.callbacks),
            Asset::NonFungible(asset) => key_of(
                (asset.value.a, asset.value.b),
                asset.faucet_id,
                0,
                asset.callbacks,
            ),
        }
    }

    pub fn vault_key(&self) -> (key: Word)
        ensures
            key == self.spec_vault_key(),
            self.wf() ==> key.is_canonical(),
    {
        let raw: u128 = self.faucet_id().to_u128();
        let suffix: u64 = (raw % 0x1_0000_0000_0000_0000) as u64;
        let prefix: u64 = (raw / 0x1_0000_0000_0000_0000) as u64;
        match self {
            Asset::Fungible(asset) => {
                let metadata: u64 = if asset.callbacks {
                    5
                } else {
                    1
                };
                Word { a: 0, b: 0, c: suffix + metadata, d: prefix }
            },
            Asset::NonFungible(asset) => {
                let metadata: u64 = if asset.callbacks {
                    4
                } else {
                    0
                };
                Word { a: asset.value.a, b: asset.value.b, c: suffix + metadata, d: prefix }
            },
        }
    }
}

/// Assets with one key are of one kind, of one faucet, and have their callbacks alike.
pub proof fn law_key_tells_kind(left: Asset, right: Asset)
    requires
        left.spec_vault_key() == right.spec_vault_key(),
        crate::primitives::is_account_id(left.spec_faucet_id()@),
        crate::primitives::is_account_id(right.spec_faucet_id()@),
    ensures
        left.spec_faucet_id() == right.spec_faucet_id(),
        match left {
            Asset::Fungible(asset) => right matches Asset::Fungible(other) && asset.spec_is_same(
                other,
            ),
            Asset::NonFungible(asset) => right matches Asset::NonFungible(other)
                && asset.callbacks == other.callbacks,
        },
{
    broadcast use AccountId::lemma_of_view;

    let key = left.spec_vault_key();
    let left_raw = left.spec_faucet_id()@ as int;
    let right_raw = right.spec_faucet_id()@ as int;
    assert(key.d == left_raw / 0x1_0000_0000_0000_0000);
    assert(key.d == right_raw / 0x1_0000_0000_0000_0000);
    assert(key.c as int % 256 == key.c - left_raw % 0x1_0000_0000_0000_0000);
    assert(key.c as int % 256 == key.c - right_raw % 0x1_0000_0000_0000_0000);
    assert(left_raw == right_raw);
    assert(left.spec_faucet_id() == AccountId::of(left.spec_faucet_id()@));
    assert(right.spec_faucet_id() == AccountId::of(right.spec_faucet_id()@));
}

/// What is left and what was taken away add up to what was there, of the same asset.
pub proof fn law_rest_and_taken_add_up(asset: FungibleAsset, amount: AssetAmount)
    requires
        amount.value <= asset.amount.value,
    ensures
        asset.spec_sub_amount(amount).amount.value + amount.value == asset.amount.value,
        asset.spec_sub_amount(amount).spec_is_same(asset),
        asset.wf() ==> asset.spec_sub_amount(amount).wf(),
{
}

/// A vault keeps all of a fungible asset under one key, whatever the amount, and tells the others
/// apart by the first two elements of their values.
pub proof fn law_key_tells_assets_apart(left: Asset, right: Asset)
    requires
        crate::primitives::is_account_id(left.spec_faucet_id()@),
        crate::primitives::is_account_id(right.spec_faucet_id()@),
    ensures
        left.spec_vault_key() == right.spec_vault_key() <==> match (left, right) {
            (Asset::Fungible(asset), Asset::Fungible(other)) => asset.spec_is_same(other),
            (Asset::NonFungible(asset), Asset::NonFungible(other)) => {
                &&& asset.faucet_id == other.faucet_id
                &&& asset.callbacks == other.callbacks
                &&& asset.value.a == other.value.a
                &&& asset.value.b == other.value.b
            },
            _ => false,
        },
{
    if left.spec_vault_key() == right.spec_vault_key() {
        law_key_tells_kind(left, right);
    }
}

/// The asset of a faucet and an amount is of that faucet and that amount, with callbacks disabled.
pub proof fn law_asset_is_of_its_faucet(faucet_id: AccountId, amount: u64)
    ensures
        FungibleAsset::spec_of(faucet_id, amount).faucet_id == faucet_id,
        FungibleAsset::spec_of(faucet_id, amount).amount.value == amount,
        !FungibleAsset::spec_of(faucet_id, amount).callbacks,
{
}

} // verus!

//! Which tracked accounts a sync has to look at, and how a node's state of an account is reconciled
//! with the local one.
use vstd::prelude::*;

use super::account_update::{
    AccountUpdates, AccountUpdatesView, AccountVaultUpdate, PublicAccountDelta,
    PublicAccountUpdate, StorageMapUpdate,
};
use super::error::SyncError;
use super::execution::lemma_filtered;
use super::validation::{account_proof_error, validate_account_proof, AccountWitness};
use crate::account::{AccountHeader, SlotName};
use crate::block::BlockHeader;
use crate::primitives::{AccountId, BlockNumber, Word};
use crate::sorted_map::SortedMap;

verus! {

// SELECTION
// ================================================================================================

/// The public accounts among some tracked ones, by identifier; of two with one identifier the
/// later counts.
pub open spec fn public_headers(accounts: Seq<AccountHeader>) -> Map<AccountId, AccountHeader>
    decreases accounts.len(),
{
    if accounts.len() == 0 {
        Map::empty()
    } else if accounts.last().id.spec_is_private() {
        public_headers(accounts.drop_last())
    } else {
        public_headers(accounts.drop_last()).insert(accounts.last().id, accounts.last())
    }
}

/// The local headers of the public accounts whose commitment has changed, in the order of the
/// changes.
pub open spec fn changed_public_accounts(
    headers: Map<AccountId, AccountHeader>,
    commitments: Seq<(AccountId, Word)>,
) -> Seq<AccountHeader>
    decreases commitments.len(),
{
    if commitments.len() == 0 {
        Seq::empty()
    } else {
        let before = changed_public_accounts(headers, commitments.drop_last());
        let (id, commitment) = commitments.last();
        if headers.contains_key(id) && headers[id].spec_commitment() != commitment {
            before.push(headers[id])
        } else {
            before
        }
    }
}

/// Whether the changes give an account a commitment other than its local one.
pub open spec fn record_diverges(header: AccountHeader, commitments: Seq<(AccountId, Word)>) -> bool {
    exists|i: int|
        0 <= i < commitments.len() && (#[trigger] commitments[i]).0 == header.id
            && commitments[i].1 != header.spec_commitment()
}

/// The private accounts that the changes call into question, in order.
pub open spec fn diverging_private_accounts(
    accounts: Seq<AccountHeader>,
    commitments: Seq<(AccountId, Word)>,
) -> Seq<AccountHeader> {
    accounts.filter(
        |header: AccountHeader|
            header.id.spec_is_private() && record_diverges(header, commitments),
    )
}

fn index_public_headers(accounts: &Vec<AccountHeader>) -> (headers: SortedMap<
    AccountId,
    AccountHeader,
>)
    requires
        forall|i: int| 0 <= i < accounts@.len() ==> (#[trigger] accounts@[i]).wf(),
    ensures
        headers.wf(),
        headers@ == public_headers(accounts@),
        forall|id: AccountId| #[trigger] headers@.contains_key(id) ==> headers@[id].wf(),
{
    let mut headers: SortedMap<AccountId, AccountHeader> = SortedMap::new();
    let mut i: usize = 0;
    while i < accounts.len()
        invariant
            i <= accounts.len(),
            headers.wf(),
            headers@ == public_headers(accounts@.take(i as int)),
            forall|j: int| 0 <= j < accounts@.len() ==> (#[trigger] accounts@[j]).wf(),
            forall|id: AccountId| #[trigger] headers@.contains_key(id) ==> headers@[id].wf(),
        decreases accounts.len() - i,
    {
        let header = accounts[i];
        proof {
            assert(accounts@.take(i + 1).drop_last() =~= accounts@.take(i as int));
            assert(accounts@.take(i + 1).last() == header);
        }
        if !header.id.is_private() {
            headers.insert(header.id, header);
        }
        i += 1;
    }
    assert(accounts@.take(accounts@.len() as int) =~= accounts@);
    headers
}

/// Lists the public accounts to ask a node for: those whose commitment has changed.
pub fn public_accounts_to_sync(
    accounts: &Vec<AccountHeader>,
    commitment_updates: &Vec<(AccountId, Word)>,
) -> (changed: Vec<AccountHeader>)
    requires
        forall|i: int| 0 <= i < accounts@.len() ==> (#[trigger] accounts@[i]).wf(),
    ensures
        changed@ == changed_public_accounts(public_headers(accounts@), commitment_updates@),
{
    let headers = index_public_headers(accounts);
    let mut changed: Vec<AccountHeader> = Vec::new();
    let mut i: usize = 0;
    while i < commitment_updates.len()
        invariant
            i <= commitment_updates.len(),
            headers.wf(),
            headers@ == public_headers(accounts@),
            forall|id: AccountId| #[trigger] headers@.contains_key(id) ==> headers@[id].wf(),
            changed@ == changed_public_accounts(headers@, commitment_updates@.take(i as int)),
        decreases commitment_updates.len() - i,
    {
        let (id, commitment) = commitment_updates[i];
        proof {
            let taken = commitment_updates@;
            assert(taken.take(i + 1).drop_last() =~= taken.take(i as int));
            assert(taken.take(i + 1).last() == taken[i as int]);
        }
        if let Some(header) = headers.get(&id) {
            assert(headers@.contains_key(id));
            if header.to_commitment() != commitment {
                changed.push(*header);
            }
        }
        i += 1;
    }
    assert(commitment_updates@.take(commitment_updates@.len() as int) =~= commitment_updates@);
    changed
}

fn is_called_into_question(
    header: &AccountHeader,
    commitment_updates: &Vec<(AccountId, Word)>,
) -> (diverges: bool)
    requires
        header.wf(),
    ensures
        diverges == record_diverges(*header, commitment_updates@),
{
    let local = header.to_commitment();
    let mut i: usize = 0;
    while i < commitment_updates.len()
        invariant
            i <= commitment_updates.len(),
            local == header.spec_commitment(),
            forall|j: int|
                0 <= j < i ==> (#[trigger] commitment_updates@[j]).0 != header.id
                    || commitment_updates@[j].1 == local,
        decreases commitment_updates.len() - i,
    {
        if commitment_updates[i].0 == header.id && commitment_updates[i].1 != local {
            assert(commitment_updates@[i as int].0 == header.id);
            return true;
        }
        i += 1;
    }
    false
}

/// Lists the private accounts whose local commitment the changes call into question.
pub fn private_accounts_to_verify(
    accounts: &Vec<AccountHeader>,
    commitment_updates: &Vec<(AccountId, Word)>,
) -> (diverging: Vec<AccountHeader>)
    requires
        forall|i: int| 0 <= i < accounts@.len() ==> (#[trigger] accounts@[i]).wf(),
    ensures
        diverging@ == diverging_private_accounts(accounts@, commitment_updates@),
{
    let ghost keep = |header: AccountHeader|
        header.id.spec_is_private() && record_diverges(header, commitment_updates@);
    let mut diverging: Vec<AccountHeader> = Vec::new();
    let mut i: usize = 0;
    assert(diverging@ =~= accounts@.take(0).filter(keep)) by {
        reveal(Seq::filter);
    }
    while i < accounts.len()
        invariant
            i <= accounts.len(),
            keep == (|header: AccountHeader|
                header.id.spec_is_private() && record_diverges(header, commitment_updates@)),
            forall|j: int| 0 <= j < accounts@.len() ==> (#[trigger] accounts@[j]).wf(),
            diverging@ == accounts@.take(i as int).filter(keep),
        decreases accounts.len() - i,
    {
        let header = accounts[i];
        proof {
            assert(accounts@.take(i + 1).drop_last() =~= accounts@.take(i as int));
            assert(accounts@.take(i + 1).last() == header);
            reveal(Seq::filter);
        }
        if header.id.is_private() && is_called_into_question(&header, commitment_updates) {
            diverging.push(header);
        }
        i += 1;
    }
    assert(accounts@.take(accounts@.len() as int) =~= accounts@);
    diverging
}

/// An account whose commitment is the one that the changes give it is left alone: a public one is
/// not asked for, and a private one is not called into question.
pub proof fn law_unchanged_accounts_are_left_alone(
    accounts: Seq<AccountHeader>,
    commitments: Seq<(AccountId, Word)>,
)
    ensures
        forall|i: int|
            0 <= i < changed_public_accounts(public_headers(accounts), commitments).len() ==> !(
            #[trigger] changed_public_accounts(
                public_headers(accounts),
                commitments,
            )[i]).id.spec_is_private() && record_diverges(
                changed_public_accounts(public_headers(accounts), commitments)[i],
                commitments,
            ),
        forall|i: int|
            0 <= i < diverging_private_accounts(accounts, commitments).len() ==> (
            #[trigger] diverging_private_accounts(accounts, commitments)[i]).id.spec_is_private()
                && record_diverges(diverging_private_accounts(accounts, commitments)[i], commitments),
{
    lemma_public_headers(accounts);
    lemma_changed_diverge(public_headers(accounts), commitments);
    let keep = |header: AccountHeader|
        header.id.spec_is_private() && record_diverges(header, commitments);
    lemma_filtered(accounts, keep);
}

proof fn lemma_public_headers(accounts: Seq<AccountHeader>)
    ensures
        forall|id: AccountId| #[trigger]
            public_headers(accounts).contains_key(id) ==> public_headers(accounts)[id].id == id
                && !id.spec_is_private(),
    decreases accounts.len(),
{
    if accounts.len() > 0 {
        let before = accounts.drop_last();
        lemma_public_headers(before);
        assert forall|id: AccountId| #[trigger]
            public_headers(accounts).contains_key(id) implies public_headers(accounts)[id].id == id
            && !id.spec_is_private() by {
            if id != accounts.last().id || accounts.last().id.spec_is_private() {
                assert(public_headers(before).contains_key(id));
            }
        }
    }
}

proof fn lemma_changed_diverge(
    headers: Map<AccountId, AccountHeader>,
    commitments: Seq<(AccountId, Word)>,
)
    requires
        forall|id: AccountId| #[trigger]
            headers.contains_key(id) ==> headers[id].id == id && !id.spec_is_private(),
    ensures
        forall|i: int|
            0 <= i < changed_public_accounts(headers, commitments).len() ==> !(
            #[trigger] changed_public_accounts(headers, commitments)[i]).id.spec_is_private()
                && record_diverges(changed_public_accounts(headers, commitments)[i], commitments),
    decreases commitments.len(),
{
    if commitments.len() > 0 {
        let before = commitments.drop_last();
        lemma_changed_diverge(headers, before);
        let changed = changed_public_accounts(headers, commitments);
        let earlier = changed_public_accounts(headers, before);
        assert forall|i: int| 0 <= i < changed.len() implies !(
        #[trigger] changed[i]).id.spec_is_private() && record_diverges(changed[i], commitments) by {
            if i < earlier.len() {
                assert(changed[i] == earlier[i]);
                let k = choose|k: int|
                    0 <= k < before.len() && (#[trigger] before[k]).0 == changed[i].id && before[k].1
                        != changed[i].spec_commitment();
                assert(commitments[k] == before[k]);
            } else {
                assert(commitments[commitments.len() - 1] == commitments.last());
            }
        }
    }
}

/// Every tracked account that the changes give another commitment is looked at: a public one, given
/// by the last header with its identifier, is asked for, and a private one is verified.
pub proof fn law_changed_accounts_are_looked_at(
    accounts: Seq<AccountHeader>,
    commitments: Seq<(AccountId, Word)>,
    i: int,
    k: int,
)
    requires
        0 <= i < accounts.len(),
        0 <= k < commitments.len(),
        commitments[k].0 == accounts[i].id,
        commitments[k].1 != accounts[i].spec_commitment(),
    ensures
        !accounts[i].id.spec_is_private() && (forall|j: int|
            i < j < accounts.len() ==> (#[trigger] accounts[j]).id != accounts[i].id)
            ==> changed_public_accounts(public_headers(accounts), commitments).contains(
            accounts[i],
        ),
        accounts[i].id.spec_is_private() ==> diverging_private_accounts(
            accounts,
            commitments,
        ).contains(accounts[i]),
{
    assert(record_diverges(accounts[i], commitments));
    let keep = |header: AccountHeader|
        header.id.spec_is_private() && record_diverges(header, commitments);
    lemma_filtered(accounts, keep);
    if accounts[i].id.spec_is_private() {
        assert(keep(accounts[i]));
    } else if forall|j: int|
        i < j < accounts.len() ==> (#[trigger] accounts[j]).id != accounts[i].id {
        lemma_last_header_counts(accounts, i);
        lemma_changed_is_listed(public_headers(accounts), commitments, accounts[i].id);
    }
}

proof fn lemma_last_header_counts(accounts: Seq<AccountHeader>, i: int)
    requires
        0 <= i < accounts.len(),
        !accounts[i].id.spec_is_private(),
        forall|j: int| i < j < accounts.len() ==> (#[trigger] accounts[j]).id != accounts[i].id,
    ensures
        public_headers(accounts).contains_key(accounts[i].id),
        public_headers(accounts)[accounts[i].id] == accounts[i],
    decreases accounts.len(),
{
    let before = accounts.drop_last();
    if i < before.len() {
        assert forall|j: int| i < j < before.len() implies (#[trigger] before[j]).id
            != before[i].id by {
            assert(accounts[j].id != accounts[i].id);
        }
        lemma_last_header_counts(before, i);
        assert(accounts[accounts.len() - 1].id != accounts[i].id);
    }
}

proof fn lemma_changed_is_listed(
    headers: Map<AccountId, AccountHeader>,
    commitments: Seq<(AccountId, Word)>,
    id: AccountId,
)
    requires
        headers.contains_key(id),
        headers[id].id == id,
        record_diverges(headers[id], commitments),
    ensures
        changed_public_accounts(headers, commitments).contains(headers[id]),
    decreases commitments.len(),
{
    let before = commitments.drop_last();
    let changed = changed_public_accounts(headers, commitments);
    let earlier = changed_public_accounts(headers, before);
    let k = choose|k: int|
        0 <= k < commitments.len() && (#[trigger] commitments[k]).0 == id && commitments[k].1
            != headers[id].spec_commitment();
    if k < before.len() {
        assert(before[k] == commitments[k]);
        lemma_changed_is_listed(headers, before, id);
        let m = choose|m: int| 0 <= m < earlier.len() && earlier[m] == headers[id];
        assert(changed[m] == earlier[m]);
    } else {
        assert(changed[changed.len() - 1] == headers[id]);
    }
}

/// An account is looked at only where one of the changes gives it a commitment that is not its local
/// one.
pub proof fn law_looked_at_accounts_have_changed(
    accounts: Seq<AccountHeader>,
    commitments: Seq<(AccountId, Word)>,
    header: AccountHeader,
)
    requires
        changed_public_accounts(public_headers(accounts), commitments).contains(header)
            || diverging_private_accounts(accounts, commitments).contains(header),
    ensures
        exists|k: int|
            0 <= k < commitments.len() && (#[trigger] commitments[k]).0 == header.id
                && commitments[k].1 != header.spec_commitment(),
{
    law_unchanged_accounts_are_left_alone(accounts, commitments);
    assert(record_diverges(header, commitments));
}

/// The changes are gone through one after the other: what is asked for over some changes and those
/// behind them is what is asked for over the former, then what is asked for over the latter, and
/// one change asks for at most one account.
pub proof fn law_changes_are_gone_through_in_order(
    headers: Map<AccountId, AccountHeader>,
    first: Seq<(AccountId, Word)>,
    second: Seq<(AccountId, Word)>,
    change: (AccountId, Word),
)
    ensures
        changed_public_accounts(headers, first + second) == changed_public_accounts(headers, first)
            + changed_public_accounts(headers, second),
        changed_public_accounts(headers, seq![change]).len() <= 1,
    decreases second.len(),
{
    assert(seq![change].drop_last() =~= Seq::empty());
    assert(changed_public_accounts(headers, seq![change].drop_last()).len() == 0);
    if second.len() == 0 {
        assert(first + second =~= first);
        assert(changed_public_accounts(headers, second) =~= Seq::empty());
    } else {
        law_changes_are_gone_through_in_order(headers, first, second.drop_last(), change);
        assert((first + second).drop_last() =~= first + second.drop_last());
        assert((first + second).last() == second.last());
    }
    assert(changed_public_accounts(headers, first + second) =~= changed_public_accounts(
        headers,
        first,
    ) + changed_public_accounts(headers, second));
}

/// The private accounts to verify stand in the order of the given ones.
pub proof fn law_private_accounts_keep_their_order(
    first: Seq<AccountHeader>,
    second: Seq<AccountHeader>,
    commitments: Seq<(AccountId, Word)>,
)
    ensures
        diverging_private_accounts(first + second, commitments) == diverging_private_accounts(
            first,
            commitments,
        ) + diverging_private_accounts(second, commitments),
{
    Seq::filter_distributes_over_add(
        first,
        second,
        |header: AccountHeader|
            header.id.spec_is_private() && record_diverges(header, commitments),
    );
}

/// Only tracked accounts are looked at: a public one by one of the given headers.
pub proof fn law_only_tracked_accounts_are_looked_at(
    accounts: Seq<AccountHeader>,
    commitments: Seq<(AccountId, Word)>,
)
    ensures
        forall|k: int|
            0 <= k < changed_public_accounts(public_headers(accounts), commitments).len()
                ==> accounts.contains(
                #[trigger] changed_public_accounts(public_headers(accounts), commitments)[k],
            ),
        forall|k: int|
            0 <= k < diverging_private_accounts(accounts, commitments).len() ==> accounts.contains(
                #[trigger] diverging_private_accounts(accounts, commitments)[k],
            ),
{
    let keep = |header: AccountHeader|
        header.id.spec_is_private() && record_diverges(header, commitments);
    lemma_filtered(accounts, keep);
    lemma_headers_are_given(accounts);
    lemma_listed_are_headers(public_headers(accounts), commitments);
    let changed = changed_public_accounts(public_headers(accounts), commitments);
    assert forall|k: int| 0 <= k < changed.len() implies accounts.contains(
        #[trigger] changed[k],
    ) by {
        assert(public_headers(accounts).contains_value(changed[k]));
    }
}

proof fn lemma_headers_are_given(accounts: Seq<AccountHeader>)
    ensures
        forall|id: AccountId| #[trigger]
            public_headers(accounts).contains_key(id) ==> accounts.contains(
                public_headers(accounts)[id],
            ),
    decreases accounts.len(),
{
    if accounts.len() > 0 {
        let before = accounts.drop_last();
        lemma_headers_are_given(before);
        assert forall|id: AccountId| #[trigger]
            public_headers(accounts).contains_key(id) implies accounts.contains(
            public_headers(accounts)[id],
        ) by {
            if id == accounts.last().id && !id.spec_is_private() {
                assert(accounts[accounts.len() - 1] == accounts.last());
            } else {
                assert(public_headers(before).contains_key(id));
                let k = choose|k: int|
                    0 <= k < before.len() && before[k] == public_headers(before)[id];
                assert(accounts[k] == before[k]);
            }
        }
    }
}

proof fn lemma_listed_are_headers(
    headers: Map<AccountId, AccountHeader>,
    commitments: Seq<(AccountId, Word)>,
)
    ensures
        forall|k: int|
            0 <= k < changed_public_accounts(headers, commitments).len()
                ==> headers.contains_value(
                #[trigger] changed_public_accounts(headers, commitments)[k],
            ),
    decreases commitments.len(),
{
    if commitments.len() > 0 {
        let before = commitments.drop_last();
        lemma_listed_are_headers(headers, before);
        let changed = changed_public_accounts(headers, commitments);
        let earlier = changed_public_accounts(headers, before);
        assert forall|k: int| 0 <= k < changed.len() implies headers.contains_value(
            #[trigger] changed[k],
        ) by {
            if k < earlier.len() {
                assert(changed[k] == earlier[k]);
            } else {
                let id = commitments.last().0;
                assert(headers.contains_key(id) && headers[id] == changed[k]);
            }
        }
    }
}

// RECONCILIATION
// ================================================================================================

/// What to do with a node's state of a public account.
#[derive(Clone, Copy, Debug, PartialEq, Eq, Structural)]
pub enum PublicAccountSync {
    /// The node is ahead: its state is to be taken over, as a whole.
    ApplyFull,
    /// The node is ahead: its state is to be taken over, by the updates that lead to it.
    ApplyDelta,
    /// The states differ at one nonce: the local transaction lost and is to be discarded.
    Superseded,
    /// The node is behind the local state, which may not be committed yet.
    Ignore,
}

/// What to do with a node's state of a public account whose commitment is not the local one. Where
/// the vault or some map does not fit into one response, the updates are to be fetched.
pub open spec fn reconciled(
    node_nonce: u64,
    local_nonce: u64,
    vault_oversized: bool,
    maps_oversized: Seq<bool>,
) -> PublicAccountSync {
    if node_nonce < local_nonce {
        PublicAccountSync::Ignore
    } else if node_nonce == local_nonce {
        PublicAccountSync::Superseded
    } else if vault_oversized || maps_oversized.contains(true) {
        PublicAccountSync::ApplyDelta
    } else {
        PublicAccountSync::ApplyFull
    }
}

/// Decides what to do with a node's state of a public account whose commitment is not the local
/// one.
pub fn reconcile_public_account(
    node_nonce: u64,
    local_nonce: u64,
    vault_oversized: bool,
    maps_oversized: &Vec<bool>,
) -> (decision: PublicAccountSync)
    ensures
        decision == reconciled(node_nonce, local_nonce, vault_oversized, maps_oversized@),
{
    if node_nonce < local_nonce {
        return PublicAccountSync::Ignore;
    }
    if node_nonce == local_nonce {
        return PublicAccountSync::Superseded;
    }
    let mut oversized = vault_oversized;
    let mut i: usize = 0;
    while i < maps_oversized.len()
        invariant
            i <= maps_oversized.len(),
            oversized == (vault_oversized || maps_oversized@.take(i as int).contains(true)),
        decreases maps_oversized.len() - i,
    {
        proof {
            let before = maps_oversized@.take(i as int);
            let after = maps_oversized@.take(i + 1);
            assert(after =~= before.push(maps_oversized@[i as int]));
            if before.contains(true) {
                let k = choose|k: int| 0 <= k < before.len() && before[k] == true;
                assert(after[k] == true);
            }
            if after.contains(true) {
                let k = choose|k: int| 0 <= k < after.len() && after[k] == true;
                if k < i {
                    assert(before[k] == true);
                }
            }
            if maps_oversized@[i as int] {
                assert(after[i as int] == true);
            }
        }
        if maps_oversized[i] {
            oversized = true;
        }
        i += 1;
    }
    assert(maps_oversized@.take(maps_oversized@.len() as int) =~= maps_oversized@);
    if oversized {
        PublicAccountSync::ApplyDelta
    } else {
        PublicAccountSync::ApplyFull
    }
}

/// What a node tells of a public account, as far as it decides how the two states are reconciled.
#[derive(Debug)]
pub struct NodeAccount {
    pub nonce: u64,
    /// Whether the vault does not fit into one response.
    pub vault_oversized: bool,
    /// For each map slot, whether the map does not fit into one response.
    pub maps_oversized: Vec<bool>,
}

/// Decides what to do with a node's state of a public account whose commitment is not the local
/// one, if the proof that came with it is bound to the chain tip.
pub fn sync_public_account(
    witness: &AccountWitness,
    proof_block_num: BlockNumber,
    node_account: &NodeAccount,
    local_header: &AccountHeader,
    chain_tip_header: &BlockHeader,
) -> (decision: Result<PublicAccountSync, SyncError>)
    requires
        chain_tip_header.fields.account_root.is_canonical(),
    ensures
        decision == match account_proof_error(
            witness@,
            proof_block_num,
            local_header.id,
            chain_tip_header.fields.block_num,
            chain_tip_header.fields.account_root,
        ) {
            Some(error) => Err::<PublicAccountSync, SyncError>(SyncError::ChainValidation(error)),
            None => Ok(
                reconciled(
                    node_account.nonce,
                    local_header.nonce,
                    node_account.vault_oversized,
                    node_account.maps_oversized@,
                ),
            ),
        },
{
    match validate_account_proof(witness, proof_block_num, local_header.id, chain_tip_header) {
        Ok(()) => Ok(
            reconcile_public_account(
                node_account.nonce,
                local_header.nonce,
                node_account.vault_oversized,
                &node_account.maps_oversized,
            ),
        ),
        Err(error) => Err(error),
    }
}

/// The local state is replaced only by a state of a higher nonce, and a transaction is discarded
/// only against a state of the same nonce.
pub proof fn law_nonce_decides(
    node_nonce: u64,
    local_nonce: u64,
    vault_oversized: bool,
    maps_oversized: Seq<bool>,
)
    ensures
        ({
            let decision = reconciled(node_nonce, local_nonce, vault_oversized, maps_oversized);
            &&& (decision is ApplyFull || decision is ApplyDelta) <==> node_nonce > local_nonce
            &&& decision is Superseded <==> node_nonce == local_nonce
            &&& decision is Ignore <==> node_nonce < local_nonce
        }),
{
}

/// A state of a higher nonce is taken over by the updates that lead to it exactly where the vault or
/// one of the maps does not fit into one response.
pub proof fn law_size_decides(
    node_nonce: u64,
    local_nonce: u64,
    vault_oversized: bool,
    maps_oversized: Seq<bool>,
)
    requires
        local_nonce < node_nonce,
    ensures
        reconciled(node_nonce, local_nonce, vault_oversized, maps_oversized) is ApplyDelta <==> (
        vault_oversized || exists|i: int|
            0 <= i < maps_oversized.len() && #[trigger] maps_oversized[i]),
{
    if exists|i: int| 0 <= i < maps_oversized.len() && #[trigger] maps_oversized[i] {
        let i = choose|i: int| 0 <= i < maps_oversized.len() && #[trigger] maps_oversized[i];
        assert(maps_oversized[i] == true);
    }
    if maps_oversized.contains(true) {
        let i = choose|i: int| 0 <= i < maps_oversized.len() && maps_oversized[i] == true;
        assert(maps_oversized[i]);
    }
}

/// A decision on a public account, with the update that carries it out where there is one.
pub enum PublicAccountOutcome {
    Apply(PublicAccountUpdate),
    Superseded,
    Ignore,
}

/// The account updates after some outcomes, in order.
pub open spec fn applied_updates(
    updates: Seq<PublicAccountUpdate>,
    outcomes: Seq<(AccountHeader, PublicAccountOutcome)>,
) -> Seq<PublicAccountUpdate>
    decreases outcomes.len(),
{
    if outcomes.len() == 0 {
        updates
    } else {
        let before = applied_updates(updates, outcomes.drop_last());
        match outcomes.last().1 {
            PublicAccountOutcome::Apply(update) => before.push(update),
            _ => before,
        }
    }
}

/// The commitments of the local states that lost against the network's, in order.
pub open spec fn superseded_states(outcomes: Seq<(AccountHeader, PublicAccountOutcome)>) -> Seq<Word>
    decreases outcomes.len(),
{
    if outcomes.len() == 0 {
        Seq::empty()
    } else {
        let before = superseded_states(outcomes.drop_last());
        match outcomes.last().1 {
            PublicAccountOutcome::Superseded => before.push(outcomes.last().0.spec_commitment()),
            _ => before,
        }
    }
}

/// What was updated stays, every update that carries out a decision joins it, and nothing else does.
pub proof fn law_updates_are_recorded(
    updates: Seq<PublicAccountUpdate>,
    outcomes: Seq<(AccountHeader, PublicAccountOutcome)>,
)
    ensures
        ({
            let after = applied_updates(updates, outcomes);
            &&& updates.len() <= after.len()
            &&& after.take(updates.len() as int) == updates
            &&& forall|i: int|
                0 <= i < outcomes.len() && (#[trigger] outcomes[i]).1 is Apply ==> after.skip(
                    updates.len() as int,
                ).contains(outcomes[i].1->Apply_0)
            &&& forall|k: int|
                updates.len() <= k < after.len() ==> is_carried_out(outcomes, #[trigger] after[k])
        }),
    decreases outcomes.len(),
{
    let after = applied_updates(updates, outcomes);
    let n = updates.len() as int;
    if outcomes.len() == 0 {
        assert(after.take(n) =~= updates);
    } else {
        let before = outcomes.drop_last();
        law_updates_are_recorded(updates, before);
        let earlier = applied_updates(updates, before);
        assert(outcomes[outcomes.len() - 1] == outcomes.last());
        assert(after.take(n) =~= earlier.take(n));
        assert forall|i: int| 0 <= i < outcomes.len() && (
        #[trigger] outcomes[i]).1 is Apply implies after.skip(n).contains(
            outcomes[i].1->Apply_0,
        ) by {
            if i < before.len() {
                assert(before[i] == outcomes[i]);
                let rest = earlier.skip(n);
                let k = choose|k: int| 0 <= k < rest.len() && rest[k] == outcomes[i].1->Apply_0;
                assert(after.skip(n)[k] == rest[k]);
            } else {
                assert(after.skip(n)[after.len() - 1 - n] == outcomes[i].1->Apply_0);
            }
        }
        assert forall|k: int| n <= k < after.len() implies is_carried_out(
            outcomes,
            #[trigger] after[k],
        ) by {
            if k < earlier.len() {
                assert(after[k] == earlier[k]);
                let i = choose|i: int|
                    0 <= i < before.len() && (#[trigger] before[i]).1
                        == PublicAccountOutcome::Apply(earlier[k]);
                assert(outcomes[i] == before[i]);
            } else {
                assert(outcomes[outcomes.len() - 1].1 == PublicAccountOutcome::Apply(after[k]));
            }
        }
    }
}

/// Whether an update carries out one of some decisions.
pub open spec fn is_carried_out(
    outcomes: Seq<(AccountHeader, PublicAccountOutcome)>,
    update: PublicAccountUpdate,
) -> bool {
    exists|i: int|
        0 <= i < outcomes.len() && (#[trigger] outcomes[i]).1 == PublicAccountOutcome::Apply(update)
}

/// Outcomes are recorded one after the other: recording some and then those behind them is recording
/// all, and one outcome gives at most one update and at most one state.
pub proof fn law_outcomes_are_recorded_in_order(
    updates: Seq<PublicAccountUpdate>,
    first: Seq<(AccountHeader, PublicAccountOutcome)>,
    second: Seq<(AccountHeader, PublicAccountOutcome)>,
    outcome: (AccountHeader, PublicAccountOutcome),
)
    ensures
        applied_updates(updates, first + second) == applied_updates(
            applied_updates(updates, first),
            second,
        ),
        superseded_states(first + second) == superseded_states(first) + superseded_states(second),
        applied_updates(updates, seq![outcome]).len() <= updates.len() + 1,
        superseded_states(seq![outcome]).len() <= 1,
    decreases second.len(),
{
    assert(seq![outcome].drop_last() =~= Seq::empty());
    assert(applied_updates(updates, seq![outcome].drop_last()) == updates);
    assert(superseded_states(seq![outcome].drop_last()).len() == 0);
    if second.len() == 0 {
        assert(first + second =~= first);
        assert(superseded_states(second) =~= Seq::empty());
    } else {
        law_outcomes_are_recorded_in_order(updates, first, second.drop_last(), outcome);
        assert((first + second).drop_last() =~= first + second.drop_last());
        assert((first + second).last() == second.last());
    }
    assert(superseded_states(first + second) =~= superseded_states(first) + superseded_states(
        second,
    ));
}

/// The states that lost are the local commitments of the accounts whose state is superseded.
pub proof fn law_superseded_states_are_local(
    outcomes: Seq<(AccountHeader, PublicAccountOutcome)>,
    state: Word,
)
    ensures
        superseded_states(outcomes).contains(state) <==> exists|i: int|
            0 <= i < outcomes.len() && (#[trigger] outcomes[i]).1 is Superseded
                && outcomes[i].0.spec_commitment() == state,
    decreases outcomes.len(),
{
    if outcomes.len() > 0 {
        let before = outcomes.drop_last();
        law_superseded_states_are_local(before, state);
        let earlier = superseded_states(before);
        let states = superseded_states(outcomes);
        assert(outcomes[outcomes.len() - 1] == outcomes.last());
        if earlier.contains(state) {
            let k = choose|k: int| 0 <= k < earlier.len() && earlier[k] == state;
            assert(states[k] == state);
            let i = choose|i: int|
                0 <= i < before.len() && (#[trigger] before[i]).1 is Superseded
                    && before[i].0.spec_commitment() == state;
            assert(outcomes[i] == before[i]);
        }
        if states.contains(state) && !earlier.contains(state) {
            let k = choose|k: int| 0 <= k < states.len() && states[k] == state;
            if k < earlier.len() {
                assert(earlier[k] == state);
            }
            assert(outcomes[outcomes.len() - 1].1 is Superseded);
        }
        if exists|i: int|
            0 <= i < outcomes.len() && (#[trigger] outcomes[i]).1 is Superseded
                && outcomes[i].0.spec_commitment() == state {
            let i = choose|i: int|
                0 <= i < outcomes.len() && (#[trigger] outcomes[i]).1 is Superseded
                    && outcomes[i].0.spec_commitment() == state;
            if i < before.len() {
                assert(before[i] == outcomes[i]);
            } else {
                assert(states[states.len() - 1] == state);
            }
        }
    }
}

/// Records what became of the public accounts that a node was asked for, each given with its local
/// header. Returns the local states that lost against the network's; the transactions that
/// produced them are to be discarded.
pub fn sync_public_accounts(
    account_updates: &mut AccountUpdates,
    outcomes: Vec<(AccountHeader, PublicAccountOutcome)>,
) -> (superseded: Vec<Word>)
    requires
        forall|i: int| 0 <= i < outcomes@.len() ==> (#[trigger] outcomes@[i]).0.wf(),
    ensures
        final(account_updates)@ == (AccountUpdatesView {
            updated_public_accounts: applied_updates(
                old(account_updates)@.updated_public_accounts,
                outcomes@,
            ),
            mismatched_private_accounts: old(account_updates)@.mismatched_private_accounts,
        }),
        superseded@ == superseded_states(outcomes@),
{
    let ghost all = outcomes@;
    let ghost start = account_updates@;
    let mut outcomes = outcomes;
    let mut rest: Vec<(AccountHeader, PublicAccountOutcome)> = Vec::new();
    while outcomes.len() > 0
        invariant
            outcomes@ == all.take(outcomes@.len() as int),
            outcomes@.len() <= all.len(),
            rest@.len() == all.len() - outcomes@.len(),
            forall|j: int|
                0 <= j < rest@.len() ==> #[trigger] rest@[j] == all[all.len() - 1 - j],
        decreases outcomes.len(),
    {
        let ghost n = outcomes@.len();
        if let Some(last) = outcomes.pop() {
            rest.push(last);
        }
        assert(outcomes@ =~= all.take(n - 1));
    }
    let mut superseded: Vec<Word> = Vec::new();
    while rest.len() > 0
        invariant
            rest@.len() <= all.len(),
            forall|j: int|
                0 <= j < rest@.len() ==> #[trigger] rest@[j] == all[all.len() - 1 - j],
            forall|j: int| 0 <= j < all.len() ==> (#[trigger] all[j]).0.wf(),
            account_updates@ == (AccountUpdatesView {
                updated_public_accounts: applied_updates(
                    start.updated_public_accounts,
                    all.take(all.len() - rest@.len()),
                ),
                mismatched_private_accounts: start.mismatched_private_accounts,
            }),
            superseded@ == superseded_states(all.take(all.len() - rest@.len())),
        decreases rest.len(),
    {
        let ghost done = all.len() - rest@.len();
        proof {
            assert(all.take(done + 1).drop_last() =~= all.take(done));
            assert(all.take(done + 1).last() == all[done]);
            assert(rest@[rest@.len() - 1] == all[done]);
        }
        if let Some((header, outcome)) = rest.pop() {
            match outcome {
                PublicAccountOutcome::Apply(update) => {
                    let ghost held = account_updates@;
                    let mut applied: Vec<PublicAccountUpdate> = Vec::new();
                    applied.push(update);
                    account_updates.extend(AccountUpdates::new(applied, Vec::new()));
                    assert(account_updates@.updated_public_accounts
                        =~= held.updated_public_accounts.push(update));
                    assert(account_updates@.mismatched_private_accounts
                        =~= held.mismatched_private_accounts);
                },
                PublicAccountOutcome::Superseded => {
                    superseded.push(header.to_commitment());
                },
                PublicAccountOutcome::Ignore => {},
            }
        }
    }
    assert(all.take(all.len() as int) =~= all);
    superseded
}

// INCREMENTAL UPDATES
// ================================================================================================

/// A slot as a storage header shows it.
#[derive(Debug)]
pub struct SlotHeader {
    pub name: SlotName,
    /// Whether this is a value slot; a map slot otherwise.
    pub is_value: bool,
    pub value: Word,
}

/// The value slots among some slots, as names and values, in order.
pub open spec fn value_slots(slots: Seq<SlotHeader>) -> Seq<(Seq<char>, Word)>
    decreases slots.len(),
{
    if slots.len() == 0 {
        Seq::empty()
    } else if slots.last().is_value {
        value_slots(slots.drop_last()).push((slots.last().name@, slots.last().value))
    } else {
        value_slots(slots.drop_last())
    }
}

/// Whether some updates of value slots are those that a storage header shows: every value slot is
/// among them with its own name and value, and each of them is of a value slot with that name and
/// value.
pub open spec fn shows_values(slots: Seq<SlotHeader>, updates: Seq<(Seq<char>, Word)>) -> bool {
    &&& forall|i: int|
        0 <= i < slots.len() && (#[trigger] slots[i]).is_value ==> updates.contains(
            (slots[i].name@, slots[i].value),
        )
    &&& forall|k: int|
        0 <= k < updates.len() ==> is_shown(slots, #[trigger] updates[k])
}

/// Whether a storage header shows a value slot with a name and a value.
pub open spec fn is_shown(slots: Seq<SlotHeader>, update: (Seq<char>, Word)) -> bool {
    exists|i: int|
        0 <= i < slots.len() && (#[trigger] slots[i]).is_value && slots[i].name@ == update.0
            && slots[i].value == update.1
}

/// Every value slot of a storage header is taken over with its own name and the value that the
/// header shows for it, and nothing else is. There are as many updates as value slots.
pub proof fn law_value_slots_are_taken_over(slots: Seq<SlotHeader>)
    ensures
        shows_values(slots, value_slots(slots)),
        value_slots(slots).len() == slots.filter(|slot: SlotHeader| slot.is_value).len(),
    decreases slots.len(),
{
    reveal(Seq::filter);
    let updates = value_slots(slots);
    if slots.len() > 0 {
        let before = slots.drop_last();
        law_value_slots_are_taken_over(before);
        let earlier = value_slots(before);
        assert(slots[slots.len() - 1] == slots.last());
        assert forall|i: int| 0 <= i < slots.len() && (
        #[trigger] slots[i]).is_value implies updates.contains(
            (slots[i].name@, slots[i].value),
        ) by {
            if i < before.len() {
                assert(before[i] == slots[i]);
                let k = choose|k: int|
                    0 <= k < earlier.len() && earlier[k] == (slots[i].name@, slots[i].value);
                assert(updates[k] == earlier[k]);
            } else {
                assert(updates[updates.len() - 1] == (slots[i].name@, slots[i].value));
            }
        }
        assert forall|k: int| 0 <= k < updates.len() implies is_shown(
            slots,
            #[trigger] updates[k],
        ) by {
            if k < earlier.len() {
                assert(updates[k] == earlier[k]);
                let i = choose|i: int|
                    0 <= i < before.len() && (#[trigger] before[i]).is_value && before[i].name@
                        == earlier[k].0 && before[i].value == earlier[k].1;
                assert(slots[i] == before[i]);
            } else {
                assert(slots[slots.len() - 1].is_value);
            }
        }
    }
}

/// The value slots stand in the order of the header.
pub proof fn law_value_slots_keep_their_order(first: Seq<SlotHeader>, second: Seq<SlotHeader>)
    ensures
        value_slots(first + second) == value_slots(first) + value_slots(second),
    decreases second.len(),
{
    if second.len() == 0 {
        assert(first + second =~= first);
        assert(value_slots(second) =~= Seq::empty());
    } else {
        law_value_slots_keep_their_order(first, second.drop_last());
        assert((first + second).drop_last() =~= first + second.drop_last());
        assert((first + second).last() == second.last());
    }
    assert(value_slots(first + second) =~= value_slots(first) + value_slots(second));
}

/// The range to ask a node for updates over: the lower bound is inclusive there, so it starts
/// behind the block whose state is already known.
pub fn update_range(block_from: BlockNumber, block_to: BlockNumber) -> (range: (
    BlockNumber,
    BlockNumber,
))
    requires
        block_from < u32::MAX,
    ensures
        range == ((block_from + 1) as u32, block_to),
{
    (block_from + 1, block_to)
}

/// Puts together the update of an account that is too large for one response: its new header, the
/// values of its value slots, and what was fetched over the range.
pub fn build_delta_update(
    header: AccountHeader,
    slots: &Vec<SlotHeader>,
    block_from: BlockNumber,
    block_to: BlockNumber,
    map_updates: Vec<StorageMapUpdate>,
    vault_updates: Vec<AccountVaultUpdate>,
) -> (update: PublicAccountUpdate)
    ensures
        update matches PublicAccountUpdate::Delta(delta) && {
            &&& delta@.new_header == header
            &&& delta@.block_from == block_from
            &&& delta@.block_to == block_to
            &&& delta@.value_slot_updates.map_values(
                |update: (SlotName, Word)| (update.0@, update.1),
            ) == value_slots(slots@)
            &&& shows_values(
                slots@,
                delta@.value_slot_updates.map_values(
                    |update: (SlotName, Word)| (update.0@, update.1),
                ),
            )
            &&& delta@.storage_map_updates == map_updates@
            &&& delta@.vault_updates == vault_updates@
        },
{
    let mut values: Vec<(SlotName, Word)> = Vec::new();
    let mut i: usize = 0;
    assert(values@.map_values(|update: (SlotName, Word)| (update.0@, update.1)) =~= value_slots(
        slots@.take(0),
    ));
    while i < slots.len()
        invariant
            i <= slots.len(),
            values@.map_values(|update: (SlotName, Word)| (update.0@, update.1)) == value_slots(
                slots@.take(i as int),
            ),
        decreases slots.len() - i,
    {
        let slot = &slots[i];
        let ghost before = values@;
        proof {
            assert(slots@.take(i + 1).drop_last() =~= slots@.take(i as int));
            assert(slots@.take(i + 1).last() == *slot);
        }
        if slot.is_value {
            values.push((slot.name.clone(), slot.value));
            assert(values@.map_values(|update: (SlotName, Word)| (update.0@, update.1))
                =~= before.map_values(|update: (SlotName, Word)| (update.0@, update.1)).push(
                (slot.name@, slot.value),
            ));
        }
        i += 1;
    }
    assert(slots@.take(slots@.len() as int) =~= slots@);
    proof {
        law_value_slots_are_taken_over(slots@);
    }
    PublicAccountUpdate::Delta(
        PublicAccountDelta::new(header, block_from, block_to, values, map_updates, vault_updates),
    )
}

} // verus!

//! Reclaiming the unfilled balance of an order: which orders can be reclaimed, and where their
//! tip is found.
use vstd::prelude::*;

use super::errors::PswapLineageError;
use super::lineage::{LineageView, PswapLineageRecord, PswapLineageState};
use crate::note::{Note, NoteView};
use crate::primitives::{AccountId, NoteId};

verus! {

/// Where a tip note is stored.
#[derive(Clone, Copy, Debug, PartialEq, Eq, Structural)]
pub enum TipTable {
    /// The original note, minted by this wallet.
    OutputNotes,
    /// A remainder, inserted when its round was stored.
    InputNotes,
}

/// The tip note to load.
#[derive(Clone, Copy, Debug, PartialEq, Eq, Structural)]
pub struct TipQuery {
    pub table: TipTable,
    pub note_id: NoteId,
    pub creator: AccountId,
}

/// What a reclaiming transaction consumes, and on whose behalf.
#[derive(Debug)]
pub struct CancelRequest {
    pub tip_note: Note,
    pub creator: AccountId,
}

pub open spec fn view_lineage(lineage: Option<PswapLineageRecord>) -> Option<LineageView> {
    match lineage {
        Some(lineage) => Some(lineage@),
        None => None,
    }
}

/// The lineage that an order's reclaim starts from: it has to be tracked and active.
pub open spec fn reclaimable(order_id: u64, lineage: Option<LineageView>) -> Result<
    LineageView,
    PswapLineageError,
> {
    match lineage {
        None => Err(PswapLineageError::NotFound(order_id)),
        Some(lineage) => if lineage.state != PswapLineageState::Active {
            Err(PswapLineageError::NotActive(lineage.state))
        } else {
            Ok(lineage)
        },
    }
}

/// Checks that an order is tracked and active.
pub fn check_reclaimable(order_id: u64, lineage: Option<PswapLineageRecord>) -> (checked: Result<
    PswapLineageRecord,
    PswapLineageError,
>)
    ensures
        match checked {
            Ok(lineage) => Ok(lineage@),
            Err(err) => Err(err),
        } == reclaimable(order_id, view_lineage(lineage)),
{
    match lineage {
        None => Err(PswapLineageError::NotFound(order_id)),
        Some(lineage) => if lineage.state != PswapLineageState::Active {
            Err(PswapLineageError::NotActive(lineage.state))
        } else {
            Ok(lineage)
        },
    }
}

/// The tip to load for a reclaim. The creator has to be local, for the reclaim needs its
/// signature.
pub open spec fn tip_query(lineage: LineageView, local_accounts: Seq<AccountId>) -> Result<
    TipQuery,
    PswapLineageError,
> {
    let creator = lineage.terms().creator_account_id;
    if !local_accounts.contains(creator) {
        Err(PswapLineageError::CreatorNotLocal(creator))
    } else {
        Ok(
            TipQuery {
                table: if lineage.current_depth == 0 {
                    TipTable::OutputNotes
                } else {
                    TipTable::InputNotes
                },
                note_id: lineage.current_tip_note_id,
                creator,
            },
        )
    }
}

/// Decides which tip to load for a reclaim.
pub fn find_tip(lineage: &PswapLineageRecord, local_accounts: &Vec<AccountId>) -> (query: Result<
    TipQuery,
    PswapLineageError,
>)
    ensures
        query == tip_query(lineage@, local_accounts@),
{
    let creator = lineage.creator_account_id();
    let mut local = false;
    let mut i: usize = 0;
    while i < local_accounts.len() && !local
        invariant
            i <= local_accounts.len(),
            local ==> local_accounts@.contains(creator),
            !local ==> forall|j: int| 0 <= j < i ==> local_accounts@[j] != creator,
        decreases local_accounts.len() - i,
    {
        if local_accounts[i] == creator {
            assert(local_accounts@[i as int] == creator);
            local = true;
        }
        i += 1;
    }
    if !local {
        return Err(PswapLineageError::CreatorNotLocal(creator));
    }
    Ok(
        TipQuery {
            table: if lineage.current_depth == 0 {
                TipTable::OutputNotes
            } else {
                TipTable::InputNotes
            },
            note_id: lineage.current_tip_note_id,
            creator,
        },
    )
}

/// Builds the request from the tip that was loaded; a tip that is not stored is an error.
pub fn build_pswap_cancel(query: TipQuery, tip_note: Option<Note>) -> (request: Result<
    CancelRequest,
    PswapLineageError,
>)
    ensures
        match request {
            Ok(request) => Ok((request.tip_note@, request.creator)),
            Err(err) => Err(err),
        } == (match tip_note {
            Some(note) => Ok::<(NoteView, AccountId), PswapLineageError>((note@, query.creator)),
            None => Err(PswapLineageError::TipMissing),
        }),
{
    match tip_note {
        Some(tip_note) => Ok(CancelRequest { tip_note, creator: query.creator }),
        None => Err(PswapLineageError::TipMissing),
    }
}

/// An order that ended is never reclaimed.
pub proof fn law_ended_order_is_not_reclaimed(order_id: u64, lineage: LineageView)
    requires
        lineage.state != PswapLineageState::Active,
    ensures
        reclaimable(order_id, Some(lineage)) == Err::<LineageView, PswapLineageError>(
            PswapLineageError::NotActive(lineage.state),
        ),
{
}

/// A tracked order that is open can be reclaimed, as it is tracked; one that is not tracked is
/// reported with its identifier.
pub proof fn law_open_order_is_reclaimed(order_id: u64, lineage: Option<LineageView>)
    ensures
        reclaimable(order_id, lineage) is Ok <==> (lineage matches Some(lineage) && lineage.state
            == PswapLineageState::Active),
        reclaimable(order_id, lineage) matches Ok(found) ==> lineage == Some(found),
        lineage is None ==> reclaimable(order_id, lineage) == Err::<LineageView, PswapLineageError>(
            PswapLineageError::NotFound(order_id),
        ),
{
}

/// The tip is looked for where the order's creator is a local account, and on the creator's behalf:
/// the order's own note among the output notes, a remainder among the input notes.
pub proof fn law_tip_is_looked_for_where_it_is(
    lineage: LineageView,
    local_accounts: Seq<AccountId>,
)
    ensures
        match tip_query(lineage, local_accounts) {
            Ok(query) => {
                &&& query.note_id == lineage.current_tip_note_id
                &&& query.creator == lineage.terms().creator_account_id
                &&& local_accounts.contains(query.creator)
                &&& query.table == TipTable::OutputNotes <==> lineage.current_depth == 0
            },
            Err(error) => error == PswapLineageError::CreatorNotLocal(
                lineage.terms().creator_account_id,
            ) && !local_accounts.contains(lineage.terms().creator_account_id),
        },
{
}

} // verus!

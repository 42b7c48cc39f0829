//! The transactions that a client submitted and follows until they are committed or discarded.
use vstd::prelude::*;

use crate::primitives::{AccountId, BlockNumber, NoteId, Nullifier, TransactionId, Word};
use crate::sorted_map::{has_key, lemma_entry_in_map, sorted, Key, SortedMap};

verus! {

/// Why a transaction was discarded.
#[derive(Clone, Copy, Debug, PartialEq, Eq, Structural)]
pub enum DiscardCause {
    /// Its expiration block went by.
    Expired,
    /// One of its input notes was consumed by another transaction.
    InputConsumed,
    /// It started from the result of a discarded transaction.
    DiscardedInitialState,
    /// It waited for too long.
    Stale,
    /// Its result lost a race against another transaction of the account.
    Superseded,
}

/// Where a transaction stands.
#[derive(Clone, Copy, Debug, PartialEq, Eq, Structural)]
pub enum TransactionStatus {
    Pending,
    Committed { block_number: BlockNumber, commit_timestamp: u64 },
    Discarded(DiscardCause),
}

/// What a transaction does, as far as following it needs.
#[derive(Debug)]
pub struct TransactionDetails {
    pub account_id: AccountId,
    pub init_account_state: Word,
    pub final_account_state: Word,
    pub input_note_nullifiers: Vec<Word>,
    pub submission_height: BlockNumber,
    pub expiration_block_num: BlockNumber,
}

/// A submitted transaction.
#[derive(Debug)]
pub struct TransactionRecord {
    pub id: TransactionId,
    pub details: TransactionDetails,
    pub status: TransactionStatus,
}

/// What a [`TransactionRecord`] stands for.
#[verifier::ext_equal]
pub ghost struct TxView {
    pub id: TransactionId,
    pub account_id: AccountId,
    pub init_account_state: Word,
    pub final_account_state: Word,
    pub input_note_nullifiers: Seq<Word>,
    pub submission_height: BlockNumber,
    pub expiration_block_num: BlockNumber,
    pub status: TransactionStatus,
}

impl View for TransactionRecord {
    type V = TxView;

    open spec fn view(&self) -> TxView {
        TxView {
            id: self.id,
            account_id: self.details.account_id,
            init_account_state: self.details.init_account_state,
            final_account_state: self.details.final_account_state,
            input_note_nullifiers: self.details.input_note_nullifiers@,
            submission_height: self.details.submission_height,
            expiration_block_num: self.details.expiration_block_num,
            status: self.status,
        }
    }
}

impl TxView {
    pub open spec fn pending(self) -> bool {
        self.status == TransactionStatus::Pending
    }

    pub open spec fn with_status(self, status: TransactionStatus) -> TxView {
        TxView { status, ..self }
    }

    /// The transaction once it is included in a block. Only a pending one can be committed.
    pub open spec fn committed(self, block_number: BlockNumber, commit_timestamp: u64) -> TxView {
        if self.pending() {
            self.with_status(TransactionStatus::Committed { block_number, commit_timestamp })
        } else {
            self
        }
    }

    /// The transaction once it is discarded. Only a pending one can be discarded.
    pub open spec fn discarded(self, cause: DiscardCause) -> TxView {
        if self.pending() {
            self.with_status(TransactionStatus::Discarded(cause))
        } else {
            self
        }
    }
}

fn is_pending(status: &TransactionStatus) -> (pending: bool)
    ensures
        pending == (*status == TransactionStatus::Pending),
{
    matches!(status, TransactionStatus::Pending)
}

impl TransactionRecord {
    /// Marks a pending transaction as committed; says whether it did.
    pub fn commit_transaction(
        &mut self,
        block_number: BlockNumber,
        commit_timestamp: u64,
    ) -> (changed: bool)
        ensures
            final(self)@ == old(self)@.committed(block_number, commit_timestamp),
            changed == old(self)@.pending(),
    {
        if is_pending(&self.status) {
            self.status = TransactionStatus::Committed { block_number, commit_timestamp };
            true
        } else {
            false
        }
    }

    /// Marks a pending transaction as discarded; says whether it did.
    pub fn discard_transaction(&mut self, cause: DiscardCause) -> (changed: bool)
        ensures
            final(self)@ == old(self)@.discarded(cause),
            changed == old(self)@.pending(),
    {
        if is_pending(&self.status) {
            self.status = TransactionStatus::Discarded(cause);
            true
        } else {
            false
        }
    }
}

/// A transaction as a node reports it.
#[derive(Debug)]
pub struct RpcTransactionRecord {
    pub block_num: BlockNumber,
    pub id: TransactionId,
    pub account_id: AccountId,
    pub initial_state_commitment: Word,
    pub final_state_commitment: Word,
    pub input_notes: Vec<Nullifier>,
    /// Output notes that were created and consumed within one batch.
    pub erased_output_notes: Vec<NoteId>,
}

// DISCARDING
// ================================================================================================

/// Which pending transactions an event dooms by itself.
#[derive(Clone, Copy, Debug, PartialEq, Eq, Structural)]
pub enum DiscardRule {
    /// Those submitted before a block.
    SubmittedBefore(BlockNumber),
    /// Those that expire at a block or before.
    ExpiredBy(BlockNumber),
    /// Those that consume a note.
    Consumes(Word),
    /// Those that start from an account state.
    StartsFrom(Word),
    /// Those that end in an account state.
    EndsIn(Word),
}

impl DiscardRule {
    pub open spec fn selects(self, tx: TxView) -> bool {
        match self {
            DiscardRule::SubmittedBefore(block) => tx.submission_height < block,
            DiscardRule::ExpiredBy(block) => tx.expiration_block_num <= block,
            DiscardRule::Consumes(nullifier) => tx.input_note_nullifiers.contains(nullifier),
            DiscardRule::StartsFrom(state) => tx.init_account_state == state,
            DiscardRule::EndsIn(state) => tx.final_account_state == state,
        }
    }

    fn matches(&self, tx: &TransactionRecord) -> (selected: bool)
        ensures
            selected == self.selects(tx@),
    {
        match self {
            DiscardRule::SubmittedBefore(block) => tx.details.submission_height < *block,
            DiscardRule::ExpiredBy(block) => tx.details.expiration_block_num <= *block,
            DiscardRule::Consumes(nullifier) => contains_word(
                &tx.details.input_note_nullifiers,
                nullifier,
            ),
            DiscardRule::StartsFrom(state) => tx.details.init_account_state == *state,
            DiscardRule::EndsIn(state) => tx.details.final_account_state == *state,
        }
    }
}

fn contains_word(words: &Vec<Word>, word: &Word) -> (found: bool)
    ensures
        found == words@.contains(*word),
{
    let mut i: usize = 0;
    while i < words.len()
        invariant
            i <= words.len(),
            forall|j: int| 0 <= j < i ==> words@[j] != *word,
        decreases words.len() - i,
    {
        if words[i] == *word {
            assert(words@[i as int] == *word);
            return true;
        }
        i += 1;
    }
    false
}

/// Whether a sequence of positions leads from a transaction that a rule selects over pending
/// transactions, each starting from the result of the one before.
pub open spec fn is_doom_path(txs: Seq<TxView>, rule: DiscardRule, path: Seq<int>) -> bool {
    &&& path.len() > 0
    &&& forall|k: int|
        0 <= k < path.len() ==> 0 <= #[trigger] path[k] < txs.len() && txs[path[k]].pending()
    &&& rule.selects(txs[path[0]])
    &&& forall|k: int, l: int|
        0 <= k && l == k + 1 && l < path.len() ==> txs[#[trigger] path[k]].final_account_state
            == txs[#[trigger] path[l]].init_account_state
}

/// Whether a transaction falls with those that a rule selects: it is one of them, or it builds,
/// over pending transactions, on the result of one.
pub open spec fn doomed(txs: Seq<TxView>, rule: DiscardRule, i: int) -> bool {
    exists|path: Seq<int>| #[trigger] is_doom_path(txs, rule, path) && path.last() == i
}

/// A transaction after an event: selected ones are discarded for the event's cause, those that
/// build on them for theirs.
pub open spec fn tx_after_discard(
    txs: Seq<TxView>,
    rule: DiscardRule,
    cause: DiscardCause,
    i: int,
) -> TxView {
    if txs[i].pending() && rule.selects(txs[i]) {
        txs[i].with_status(TransactionStatus::Discarded(cause))
    } else if txs[i].pending() && doomed(txs, rule, i) {
        txs[i].with_status(TransactionStatus::Discarded(DiscardCause::DiscardedInitialState))
    } else {
        txs[i]
    }
}

/// The transactions after an event.
pub open spec fn after_discard(txs: Seq<TxView>, rule: DiscardRule, cause: DiscardCause) -> Seq<
    TxView,
> {
    Seq::new(txs.len(), |i: int| tx_after_discard(txs, rule, cause, i))
}

/// The views of the tracked transactions, in the order of their identifiers.
pub open spec fn view_txs(entries: Seq<(TransactionId, TransactionRecord)>) -> Seq<TxView> {
    entries.map_values(|entry: (TransactionId, TransactionRecord)| entry.1@)
}

/// Whether the transactions at hand are, up to status, those at the start, and every one whose
/// status changed is doomed and marked as such.
spec fn discards_soundly(
    start: Seq<TxView>,
    now: Seq<TxView>,
    rule: DiscardRule,
    cause: DiscardCause,
) -> bool {
    &&& now.len() == start.len()
    &&& forall|i: int|
        0 <= i < start.len() ==> (#[trigger] now[i] == start[i] || (start[i].pending() && doomed(
            start,
            rule,
            i,
        ) && now[i] == tx_after_discard(start, rule, cause, i)))
}

spec fn pending_count(txs: Seq<TxView>) -> nat
    decreases txs.len(),
{
    if txs.len() == 0 {
        0
    } else {
        pending_count(txs.drop_last()) + if txs.last().pending() {
            1nat
        } else {
            0nat
        }
    }
}

proof fn lemma_pending_count_update(txs: Seq<TxView>, i: int, tx: TxView)
    requires
        0 <= i < txs.len(),
        txs[i].pending(),
        !tx.pending(),
    ensures
        pending_count(txs.update(i, tx)) < pending_count(txs),
    decreases txs.len(),
{
    if i == txs.len() - 1 {
        assert(txs.update(i, tx).drop_last() =~= txs.drop_last());
    } else {
        assert(txs.update(i, tx).drop_last() =~= txs.drop_last().update(i, tx));
        lemma_pending_count_update(txs.drop_last(), i, tx);
    }
}

proof fn lemma_selected_is_doomed(txs: Seq<TxView>, rule: DiscardRule, i: int)
    requires
        0 <= i < txs.len(),
        txs[i].pending(),
        rule.selects(txs[i]),
    ensures
        doomed(txs, rule, i),
{
    let path = seq![i];
    assert(is_doom_path(txs, rule, path));
    assert(path.last() == i);
}

proof fn lemma_successor_is_doomed(txs: Seq<TxView>, rule: DiscardRule, i: int, j: int)
    requires
        0 <= j < txs.len(),
        doomed(txs, rule, i),
        txs[j].pending(),
        txs[i].final_account_state == txs[j].init_account_state,
    ensures
        doomed(txs, rule, j),
{
    let path = choose|path: Seq<int>| #[trigger]
        is_doom_path(txs, rule, path) && path.last() == i;
    let longer = path.push(j);
    assert forall|k: int| 0 <= k < longer.len() implies 0 <= #[trigger] longer[k] < txs.len()
        && txs[longer[k]].pending() by {
        if k < path.len() {
            assert(longer[k] == path[k]);
        }
    }
    assert forall|k: int, l: int| 0 <= k && l == k + 1 && l < longer.len() implies txs[
    #[trigger] longer[k]].final_account_state == txs[#[trigger] longer[l]].init_account_state by {
        assert(longer[k] == path[k]);
        if l < path.len() {
            assert(longer[l] == path[l]);
        }
    }
    assert(longer[0] == path[0]);
    assert(is_doom_path(txs, rule, longer));
    assert(longer.last() == j);
}

/// When no pending transaction builds on a changed one, and every selected one is changed, then
/// every doomed one is.
proof fn lemma_doomed_all_changed(
    start: Seq<TxView>,
    now: Seq<TxView>,
    rule: DiscardRule,
    cause: DiscardCause,
    path: Seq<int>,
)
    requires
        discards_soundly(start, now, rule, cause),
        forall|i: int|
            0 <= i < start.len() && start[i].pending() && rule.selects(start[i])
                ==> !(#[trigger] now[i]).pending(),
        forall|i: int, j: int|
            0 <= i < start.len() && 0 <= j < start.len() && start[i].pending() && !now[i].pending()
                && (#[trigger] now[j]).pending() ==> (#[trigger] start[i]).final_account_state
                != now[j].init_account_state,
        is_doom_path(start, rule, path),
    ensures
        !now[path.last()].pending(),
    decreases path.len(),
{
    if path.len() == 1 {
        assert(path.last() == path[0]);
        assert(!now[path[0]].pending());
    } else {
        let shorter = path.drop_last();
        assert forall|k: int| 0 <= k < shorter.len() implies 0 <= #[trigger] shorter[k]
            < start.len() && start[shorter[k]].pending() by {
            assert(shorter[k] == path[k]);
        }
        assert forall|k: int, l: int| 0 <= k && l == k + 1 && l < shorter.len() implies start[
        #[trigger] shorter[k]].final_account_state
            == start[#[trigger] shorter[l]].init_account_state by {
            assert(shorter[k] == path[k]);
            assert(shorter[l] == path[l]);
        }
        assert(shorter[0] == path[0]);
        lemma_doomed_all_changed(start, now, rule, cause, shorter);
        let i = path[path.len() - 2];
        let j = path[path.len() - 1];
        assert(shorter.last() == i);
        assert(start[i].final_account_state == start[j].init_account_state);
        assert(0 <= i < start.len() && start[i].pending());
        assert(0 <= j < start.len() && start[j].pending());
        if now[j].pending() {
            assert(now[j] == start[j]);
        }
    }
}

// TRACKER
// ================================================================================================

/// The transactions that a client follows.
pub struct TransactionUpdateTracker {
    pub transactions: SortedMap<TransactionId, TransactionRecord>,
    /// The tracked accounts that consumed notes in transactions this client did not submit.
    pub external_nullifier_accounts: SortedMap<Nullifier, AccountId>,
}

/// Whether a state is the result of a doomed transaction.
spec fn from_doomed(txs: Seq<TxView>, rule: DiscardRule, state: Word) -> bool {
    exists|k: int|
        0 <= k < txs.len() && #[trigger] doomed(txs, rule, k) && txs[k].final_account_state == state
}

/// Whether every pending transaction that builds on a changed one is still to be visited: the
/// state it builds on is noted, or is the one at hand and the transaction is not yet passed.
spec fn frontier_noted(
    start: Seq<TxView>,
    now: Seq<TxView>,
    noted: Seq<Word>,
    at_hand: Option<Word>,
    passed: int,
) -> bool {
    forall|k: int, l: int|
        0 <= k < start.len() && 0 <= l < start.len() && start[k].pending() && !now[k].pending()
            && (#[trigger] now[l]).pending() && (#[trigger] start[k]).final_account_state
            == now[l].init_account_state ==> noted.contains(start[k].final_account_state) || (
        at_hand == Some(start[k].final_account_state) && passed <= l)
}

/// Changing statuses keeps the entries sorted and under their identifiers.
proof fn lemma_status_change_keeps_wf(
    before: Seq<(TransactionId, TransactionRecord)>,
    after: Seq<(TransactionId, TransactionRecord)>,
)
    requires
        sorted(before),
        before.len() == after.len(),
        forall|i: int| 0 <= i < before.len() ==> (#[trigger] after[i]).0 == before[i].0,
    ensures
        sorted(after),
{
    assert forall|i: int, j: int| 0 <= i < j < after.len() implies (
    #[trigger] after[i]).0.precedes((#[trigger] after[j]).0) by {
        assert(before[i].0.precedes(before[j].0));
    }
}

impl TransactionUpdateTracker {
    /// Whether each transaction stands under its own identifier.
    pub open spec fn wf(&self) -> bool {
        &&& self.transactions.wf()
        &&& self.external_nullifier_accounts.wf()
        &&& forall|i: int|
            0 <= i < self.transactions.entries@.len() ==> (
            #[trigger] self.transactions.entries@[i]).1.id == self.transactions.entries@[i].0
    }

    /// The tracked transactions, in the order of their identifiers.
    pub open spec fn txs(&self) -> Seq<TxView> {
        view_txs(self.transactions.entries@)
    }

    /// Sets the status of the transaction at a position.
    fn set_status(&mut self, i: usize, status: TransactionStatus)
        requires
            old(self).wf(),
            i < old(self).txs().len(),
        ensures
            final(self).wf(),
            final(self).transactions.entries@.len() == old(self).transactions.entries@.len(),
            final(self).txs() == old(self).txs().update(
                i as int,
                old(self).txs()[i as int].with_status(status),
            ),
            final(self).external_nullifier_accounts == old(self).external_nullifier_accounts,
    {
        let ghost before = self.transactions.entries@;
        self.transactions.entries[i].1.status = status;
        proof {
            lemma_status_change_keeps_wf(before, self.transactions.entries@);
            assert(self.txs() =~= view_txs(before).update(
                i as int,
                view_txs(before)[i as int].with_status(status),
            ));
        }
    }

    /// Discards the pending transactions that a rule selects, and those that build on them.
    fn discard_matching(&mut self, rule: DiscardRule, cause: DiscardCause)
        requires
            old(self).wf(),
        ensures
            final(self).wf(),
            final(self).txs() == after_discard(old(self).txs(), rule, cause),
            final(self).external_nullifier_accounts == old(self).external_nullifier_accounts,
    {
        let ghost start = self.txs();
        let mut invalid_states: Vec<Word> = Vec::new();
        let mut i: usize = 0;
        while i < self.transactions.entries.len()
            invariant
                self.wf(),
                self.external_nullifier_accounts == old(self).external_nullifier_accounts,
                i <= self.transactions.entries@.len(),
                discards_soundly(start, self.txs(), rule, cause),
                forall|k: int|
                    0 <= k < i && start[k].pending() && rule.selects(start[k]) ==> !(
                    #[trigger] self.txs()[k]).pending(),
                forall|k: int| i <= k < start.len() ==> #[trigger] self.txs()[k] == start[k],
                forall|k: int|
                    0 <= k < start.len() && start[k].pending() && !(
                    #[trigger] self.txs()[k]).pending() ==> invalid_states@.contains(
                        start[k].final_account_state,
                    ),
                forall|s: int|
                    0 <= s < invalid_states@.len() ==> from_doomed(
                        start,
                        rule,
                        #[trigger] invalid_states@[s],
                    ),
            decreases self.transactions.entries.len() - i,
        {
            let ghost before = self.txs();
            let ghost noted = invalid_states@;
            if is_pending(&self.transactions.entries[i].1.status) && rule.matches(
                &self.transactions.entries[i].1,
            ) {
                proof {
                    assert(before[i as int] == start[i as int]);
                    lemma_selected_is_doomed(start, rule, i as int);
                }
                let state = self.transactions.entries[i].1.details.final_account_state;
                invalid_states.push(state);
                self.set_status(i, TransactionStatus::Discarded(cause));
                proof {
                    assert(invalid_states@[noted.len() as int] == state);
                    assert forall|k: int|
                        0 <= k < start.len() && start[k].pending() && !(
                        #[trigger] self.txs()[k]).pending() implies invalid_states@.contains(
                        start[k].final_account_state,
                    ) by {
                        if k != i {
                            assert(!before[k].pending());
                            let s = noted.index_of(start[k].final_account_state);
                            assert(invalid_states@[s] == start[k].final_account_state);
                        }
                    }
                }
            }
            i += 1;
        }
        while invalid_states.len() > 0
            invariant
                self.wf(),
                self.external_nullifier_accounts == old(self).external_nullifier_accounts,
                discards_soundly(start, self.txs(), rule, cause),
                forall|k: int|
                    0 <= k < start.len() && start[k].pending() && rule.selects(start[k]) ==> !(
                    #[trigger] self.txs()[k]).pending(),
                frontier_noted(start, self.txs(), invalid_states@, None, 0),
                forall|s: int|
                    0 <= s < invalid_states@.len() ==> from_doomed(
                        start,
                        rule,
                        #[trigger] invalid_states@[s],
                    ),
            decreases pending_count(self.txs()), invalid_states.len(),
        {
            let ghost noted_before = invalid_states@;
            let ghost count = pending_count(self.txs());
            let state = invalid_states.pop().unwrap();
            proof {
                assert(noted_before[noted_before.len() - 1] == state);
                assert forall|k: int, l: int|
                    0 <= k < start.len() && 0 <= l < start.len() && start[k].pending()
                        && !self.txs()[k].pending() && (#[trigger] self.txs()[l]).pending() && (
                    #[trigger] start[k]).final_account_state == self.txs()[l].init_account_state
                        && start[k].final_account_state != state implies invalid_states@.contains(
                    start[k].final_account_state,
                ) by {
                    let s = noted_before.index_of(start[k].final_account_state);
                    assert(noted_before[s] == start[k].final_account_state);
                    assert(invalid_states@[s] == noted_before[s]);
                }
            }
            let mut j: usize = 0;
            while j < self.transactions.entries.len()
                invariant
                    self.wf(),
                    self.external_nullifier_accounts == old(self).external_nullifier_accounts,
                    j <= self.transactions.entries@.len(),
                    discards_soundly(start, self.txs(), rule, cause),
                    forall|k: int|
                        0 <= k < start.len() && start[k].pending() && rule.selects(start[k]) ==> !(
                        #[trigger] self.txs()[k]).pending(),
                    from_doomed(start, rule, state),
                    frontier_noted(start, self.txs(), invalid_states@, Some(state), j as int),
                    forall|s: int|
                        0 <= s < invalid_states@.len() ==> from_doomed(
                            start,
                            rule,
                            #[trigger] invalid_states@[s],
                        ),
                    pending_count(self.txs()) < count || (pending_count(self.txs()) == count
                        && invalid_states@.len() < noted_before.len()),
                decreases self.transactions.entries.len() - j,
            {
                let ghost before = self.txs();
                let ghost noted = invalid_states@;
                if is_pending(&self.transactions.entries[j].1.status)
                    && self.transactions.entries[j].1.details.init_account_state == state {
                    let result = self.transactions.entries[j].1.details.final_account_state;
                    proof {
                        assert(before[j as int].pending());
                        assert(before[j as int] == start[j as int]);
                        let k = choose|k: int|
                            0 <= k < start.len() && #[trigger] doomed(start, rule, k)
                                && start[k].final_account_state == state;
                        lemma_successor_is_doomed(start, rule, k, j as int);
                        lemma_pending_count_update(
                            before,
                            j as int,
                            before[j as int].with_status(
                                TransactionStatus::Discarded(DiscardCause::DiscardedInitialState),
                            ),
                        );
                    }
                    invalid_states.push(result);
                    self.set_status(
                        j,
                        TransactionStatus::Discarded(DiscardCause::DiscardedInitialState),
                    );
                    proof {
                        assert(invalid_states@[noted.len() as int] == result);
                        assert forall|k: int, l: int|
                            0 <= k < start.len() && 0 <= l < start.len() && start[k].pending()
                                && !self.txs()[k].pending() && (#[trigger] self.txs()[l]).pending()
                                && (#[trigger] start[k]).final_account_state
                                == self.txs()[l].init_account_state implies invalid_states@.contains(
                            start[k].final_account_state,
                        ) || (Some(state) == Some(start[k].final_account_state) && j + 1 <= l) by {
                            assert(before[l].pending());
                            if k != j {
                                assert(!before[k].pending());
                                if noted.contains(start[k].final_account_state) {
                                    let s = noted.index_of(start[k].final_account_state);
                                    assert(invalid_states@[s] == start[k].final_account_state);
                                }
                            }
                        }
                    }
                }
                j += 1;
            }
        }
        proof {
            let now = self.txs();
            assert forall|i: int| 0 <= i < start.len() implies #[trigger] now[i]
                == tx_after_discard(start, rule, cause, i) by {
                if now[i] == start[i] && start[i].pending() && doomed(start, rule, i) {
                    let path = choose|path: Seq<int>| #[trigger]
                        is_doom_path(start, rule, path) && path.last() == i;
                    lemma_doomed_all_changed(start, now, rule, cause, path);
                }
            }
            assert(now =~= after_discard(start, rule, cause));
        }
    }
}

/// The tracked transactions, by identifier; of two with one identifier the later counts.
pub open spec fn txs_by_id(records: Seq<TransactionRecord>) -> Map<TransactionId, TxView>
    decreases records.len(),
{
    if records.len() == 0 {
        Map::empty()
    } else {
        txs_by_id(records.drop_last()).insert(records.last().id, records.last()@)
    }
}

/// The position of the first transaction, from a position on, that a predicate holds of.
pub open spec fn first_tx(txs: Seq<TxView>, holds: spec_fn(TxView) -> bool, from: int) -> Option<
    int,
>
    decreases txs.len() - from,
{
    if from < 0 || from >= txs.len() {
        None
    } else if holds(txs[from]) {
        Some(from)
    } else {
        first_tx(txs, holds, from + 1)
    }
}

/// The tracked transaction that an included one is. It is the one with its identifier. When there
/// is none, it is the first of the account that starts from the same state: a node that
/// authenticates input notes while processing a transaction changes its identifier.
pub open spec fn inclusion_target(txs: Seq<TxView>, record: RpcTransactionRecord) -> Option<int> {
    match first_tx(txs, |tx: TxView| tx.id == record.id, 0) {
        Some(i) => Some(i),
        None => first_tx(
            txs,
            |tx: TxView|
                tx.account_id == record.account_id && tx.init_account_state
                    == record.initial_state_commitment,
            0,
        ),
    }
}

/// The consumers of notes after a transaction of an account that this client did not submit.
pub open spec fn with_consumer(
    consumers: Map<Nullifier, AccountId>,
    nullifiers: Seq<Nullifier>,
    account_id: AccountId,
) -> Map<Nullifier, AccountId>
    decreases nullifiers.len(),
{
    if nullifiers.len() == 0 {
        consumers
    } else {
        with_consumer(consumers, nullifiers.drop_last(), account_id).insert(
            nullifiers.last(),
            account_id,
        )
    }
}

/// The block before which transactions are stale at a sync height; none are when the delta
/// reaches back beyond the first block.
pub open spec fn stale_before(sync_height: BlockNumber, delta: u32) -> BlockNumber {
    if delta <= sync_height {
        (sync_height - delta) as u32
    } else {
        0
    }
}

/// The transactions after the sync height moved: stale ones fall first, then expired ones.
pub open spec fn after_sync_height(
    txs: Seq<TxView>,
    sync_height: BlockNumber,
    discard_delta: Option<u32>,
) -> Seq<TxView> {
    let fresh = match discard_delta {
        Some(delta) => after_discard(
            txs,
            DiscardRule::SubmittedBefore(stale_before(sync_height, delta)),
            DiscardCause::Stale,
        ),
        None => txs,
    };
    after_discard(fresh, DiscardRule::ExpiredBy(sync_height), DiscardCause::Expired)
}

proof fn lemma_first_tx(txs: Seq<TxView>, holds: spec_fn(TxView) -> bool, i: int)
    requires
        0 <= i <= txs.len(),
        forall|j: int| 0 <= j < i ==> !holds(#[trigger] txs[j]),
    ensures
        first_tx(txs, holds, 0) == first_tx(txs, holds, i),
    decreases i,
{
    if i > 0 {
        lemma_first_tx(txs, holds, i - 1);
        assert(!holds(txs[i - 1]));
    }
}

impl TransactionUpdateTracker {
    /// Follows some transactions.
    pub fn new(transactions: Vec<TransactionRecord>) -> (tracker: TransactionUpdateTracker)
        ensures
            tracker.wf(),
            tracker.transactions@.map_values(|tx: TransactionRecord| tx@) == txs_by_id(
                transactions@,
            ),
            tracker.external_nullifier_accounts@ == Map::<Nullifier, AccountId>::empty(),
    {
        let ghost all = transactions@;
        let mut rest = transactions;
        let mut followed: SortedMap<TransactionId, TransactionRecord> = SortedMap::new();
        // Taken from the back, an earlier transaction gives way to a later one.
        proof {
            assert(followed@.map_values(|tx: TransactionRecord| tx@) =~= Map::empty());
            assert(txs_by_id(all).union_prefer_right(Map::empty()) =~= txs_by_id(all));
        }
        while rest.len() > 0
            invariant
                followed.wf(),
                rest@.len() <= all.len(),
                rest@ == all.take(rest@.len() as int),
                forall|i: int|
                    0 <= i < followed.entries@.len() ==> (#[trigger] followed.entries@[i]).1.id
                        == followed.entries@[i].0,
                txs_by_id(rest@).union_prefer_right(
                    followed@.map_values(|tx: TransactionRecord| tx@),
                ) == txs_by_id(all),
            decreases rest.len(),
        {
            let ghost before = rest@;
            let ghost held = followed@.map_values(|tx: TransactionRecord| tx@);
            let ghost old_entries = followed.entries@;
            let tx = rest.pop().unwrap();
            proof {
                assert(before.drop_last() == rest@);
                assert(before.last() == tx);
                assert(rest@ =~= all.take(rest@.len() as int));
            }
            let id = tx.id;
            let ghost view = tx@;
            if !followed.contains_key(&id) {
                let ghost map_before = followed@;
                followed.insert(id, tx);
                proof {
                    assert forall|i: int| 0 <= i < followed.entries@.len() implies (
                    #[trigger] followed.entries@[i]).1.id == followed.entries@[i].0 by {
                        lemma_entry_in_map(followed.entries@, i);
                        let key = followed.entries@[i].0;
                        if key != id {
                            assert(map_before.contains_key(key));
                            assert(has_key(old_entries, key));
                            let j = choose|j: int|
                                0 <= j < old_entries.len() && (#[trigger] old_entries[j]).0 == key;
                            lemma_entry_in_map(old_entries, j);
                        }
                    }
                    let now = followed@.map_values(|tx: TransactionRecord| tx@);
                    assert(now =~= held.insert(id, view));
                    assert(txs_by_id(rest@).union_prefer_right(now) =~= txs_by_id(
                        before,
                    ).union_prefer_right(held));
                }
            } else {
                proof {
                    assert(held.contains_key(id));
                    assert(txs_by_id(rest@).union_prefer_right(held) =~= txs_by_id(
                        before,
                    ).union_prefer_right(held));
                }
            }
        }
        proof {
            let now = followed@.map_values(|tx: TransactionRecord| tx@);
            assert(txs_by_id(rest@) =~= Map::empty());
            assert(Map::<TransactionId, TxView>::empty().union_prefer_right(now) =~= now);
        }
        TransactionUpdateTracker {
            transactions: followed,
            external_nullifier_accounts: SortedMap::new(),
        }
    }

    fn position_by_id(&self, id: TransactionId) -> (position: Option<usize>)
        requires
            self.wf(),
        ensures
            match position {
                Some(i) => first_tx(self.txs(), |tx: TxView| tx.id == id, 0) == Some(i as int)
                    && i < self.txs().len(),
                None => first_tx(self.txs(), |tx: TxView| tx.id == id, 0) is None,
            },
    {
        let ghost holds = |tx: TxView| tx.id == id;
        let mut i: usize = 0;
        while i < self.transactions.entries.len()
            invariant
                i <= self.transactions.entries@.len(),
                holds == (|tx: TxView| tx.id == id),
                forall|j: int| 0 <= j < i ==> !holds(#[trigger] self.txs()[j]),
            decreases self.transactions.entries.len() - i,
        {
            if self.transactions.entries[i].1.id == id {
                proof {
                    lemma_first_tx(self.txs(), holds, i as int);
                }
                return Some(i);
            }
            i += 1;
        }
        proof {
            lemma_first_tx(self.txs(), holds, i as int);
        }
        None
    }

    fn position_by_start(&self, account_id: AccountId, state: Word) -> (position: Option<usize>)
        requires
            self.wf(),
        ensures
            match position {
                Some(i) => first_tx(
                    self.txs(),
                    |tx: TxView| tx.account_id == account_id && tx.init_account_state == state,
                    0,
                ) == Some(i as int) && i < self.txs().len(),
                None => first_tx(
                    self.txs(),
                    |tx: TxView| tx.account_id == account_id && tx.init_account_state == state,
                    0,
                ) is None,
            },
    {
        let ghost holds = |tx: TxView|
            tx.account_id == account_id && tx.init_account_state == state;
        let mut i: usize = 0;
        while i < self.transactions.entries.len()
            invariant
                i <= self.transactions.entries@.len(),
                holds == (|tx: TxView|
                    tx.account_id == account_id && tx.init_account_state == state),
                forall|j: int| 0 <= j < i ==> !holds(#[trigger] self.txs()[j]),
            decreases self.transactions.entries.len() - i,
        {
            let details = &self.transactions.entries[i].1.details;
            if details.account_id == account_id && details.init_account_state == state {
                proof {
                    lemma_first_tx(self.txs(), holds, i as int);
                }
                return Some(i);
            }
            i += 1;
        }
        proof {
            lemma_first_tx(self.txs(), holds, i as int);
        }
        None
    }

    /// Commits the transaction at a position, if it is pending.
    fn commit_at(&mut self, i: usize, block_number: BlockNumber, commit_timestamp: u64)
        requires
            old(self).wf(),
            i < old(self).txs().len(),
        ensures
            final(self).wf(),
            final(self).txs() == old(self).txs().update(
                i as int,
                old(self).txs()[i as int].committed(block_number, commit_timestamp),
            ),
            final(self).external_nullifier_accounts == old(self).external_nullifier_accounts,
    {
        if is_pending(&self.transactions.entries[i].1.status) {
            self.set_status(
                i,
                TransactionStatus::Committed { block_number, commit_timestamp },
            );
        } else {
            assert(self.txs() =~= self.txs().update(i as int, self.txs()[i as int]));
        }
    }

    /// Takes note that a transaction was included in a block. One that this client did not submit
    /// is remembered as the consumer of its input notes.
    pub fn apply_transaction_inclusion(&mut self, record: &RpcTransactionRecord, timestamp: u64)
        requires
            old(self).wf(),
        ensures
            final(self).wf(),
            match inclusion_target(old(self).txs(), *record) {
                Some(i) => {
                    &&& final(self).txs() == old(self).txs().update(
                        i,
                        old(self).txs()[i].committed(record.block_num, timestamp),
                    )
                    &&& final(self).external_nullifier_accounts
                        == old(self).external_nullifier_accounts
                },
                None => {
                    &&& final(self).txs() == old(self).txs()
                    &&& final(self).external_nullifier_accounts@ == with_consumer(
                        old(self).external_nullifier_accounts@,
                        record.input_notes@,
                        record.account_id,
                    )
                },
            },
    {
        if let Some(i) = self.position_by_id(record.id) {
            self.commit_at(i, record.block_num, timestamp);
            return;
        }
        if let Some(i) = self.position_by_start(
            record.account_id,
            record.initial_state_commitment,
        ) {
            self.commit_at(i, record.block_num, timestamp);
            return;
        }
        let ghost consumers = self.external_nullifier_accounts@;
        let mut i: usize = 0;
        while i < record.input_notes.len()
            invariant
                self.wf(),
                self.transactions == old(self).transactions,
                i <= record.input_notes.len(),
                self.external_nullifier_accounts@ == with_consumer(
                    consumers,
                    record.input_notes@.take(i as int),
                    record.account_id,
                ),
            decreases record.input_notes.len() - i,
        {
            proof {
                let notes = record.input_notes@;
                assert(notes.take(i + 1).drop_last() =~= notes.take(i as int));
                assert(notes.take(i + 1).last() == notes[i as int]);
            }
            self.external_nullifier_accounts.insert(record.input_notes[i], record.account_id);
            i += 1;
        }
        assert(record.input_notes@.take(record.input_notes@.len() as int) =~= record.input_notes@);
    }

    /// Takes note that the sync height moved: transactions that waited for too long and
    /// transactions that expired are discarded. A transaction that expires at the new height is
    /// among them, for it would have been committed by then.
    pub fn apply_sync_height_update(
        &mut self,
        new_sync_height: BlockNumber,
        tx_discard_delta: Option<u32>,
    )
        requires
            old(self).wf(),
        ensures
            final(self).wf(),
            final(self).txs() == after_sync_height(
                old(self).txs(),
                new_sync_height,
                tx_discard_delta,
            ),
            final(self).external_nullifier_accounts == old(self).external_nullifier_accounts,
    {
        if let Some(delta) = tx_discard_delta {
            let block: BlockNumber = if delta <= new_sync_height {
                new_sync_height - delta
            } else {
                0
            };
            self.discard_matching(DiscardRule::SubmittedBefore(block), DiscardCause::Stale);
        }
        self.discard_matching(DiscardRule::ExpiredBy(new_sync_height), DiscardCause::Expired);
    }

    /// Takes note that a note was consumed: the pending transactions that consume it are
    /// discarded.
    pub fn apply_input_note_nullified(&mut self, input_note_nullifier: Nullifier)
        requires
            old(self).wf(),
        ensures
            final(self).wf(),
            final(self).txs() == after_discard(
                old(self).txs(),
                DiscardRule::Consumes(input_note_nullifier.word),
                DiscardCause::InputConsumed,
            ),
            final(self).external_nullifier_accounts == old(self).external_nullifier_accounts,
    {
        self.discard_matching(
            DiscardRule::Consumes(input_note_nullifier.word),
            DiscardCause::InputConsumed,
        );
    }

    /// Discards the pending transactions that start from an invalid account state.
    pub fn apply_invalid_initial_account_state(&mut self, invalid_account_state: Word)
        requires
            old(self).wf(),
        ensures
            final(self).wf(),
            final(self).txs() == after_discard(
                old(self).txs(),
                DiscardRule::StartsFrom(invalid_account_state),
                DiscardCause::DiscardedInitialState,
            ),
            final(self).external_nullifier_accounts == old(self).external_nullifier_accounts,
    {
        self.discard_matching(
            DiscardRule::StartsFrom(invalid_account_state),
            DiscardCause::DiscardedInitialState,
        );
    }

    /// Discards the pending transactions that produced an account state which lost against the
    /// network's.
    pub fn apply_superseded_account_state(&mut self, superseded_account_state: Word)
        requires
            old(self).wf(),
        ensures
            final(self).wf(),
            final(self).txs() == after_discard(
                old(self).txs(),
                DiscardRule::EndsIn(superseded_account_state),
                DiscardCause::Superseded,
            ),
            final(self).external_nullifier_accounts == old(self).external_nullifier_accounts,
    {
        self.discard_matching(
            DiscardRule::EndsIn(superseded_account_state),
            DiscardCause::Superseded,
        );
    }

    /// The tracked account that consumed a note in a transaction this client did not submit.
    pub fn external_nullifier_account(&self, nullifier: &Nullifier) -> (account: Option<AccountId>)
        requires
            self.wf(),
        ensures
            account == (if self.external_nullifier_accounts@.contains_key(*nullifier) {
                Some(self.external_nullifier_accounts@[*nullifier])
            } else {
                None
            }),
    {
        match self.external_nullifier_accounts.get(nullifier) {
            Some(account) => Some(*account),
            None => None,
        }
    }

    /// The committed transactions, in the order of their identifiers.
    pub fn committed_transactions(&self) -> (txs: Vec<&TransactionRecord>)
        ensures
            view_tx_refs(txs@) == self.txs().filter(|tx: TxView| tx.status is Committed),
    {
        let ghost holds = |tx: TxView| tx.status is Committed;
        let mut txs: Vec<&TransactionRecord> = Vec::new();
        let mut i: usize = 0;
        assert(view_tx_refs(txs@) =~= self.txs().take(0).filter(holds)) by {
            reveal(Seq::filter);
        }
        while i < self.transactions.entries.len()
            invariant
                i <= self.transactions.entries@.len(),
                holds == (|tx: TxView| tx.status is Committed),
                view_tx_refs(txs@) == self.txs().take(i as int).filter(holds),
            decreases self.transactions.entries.len() - i,
        {
            let ghost before = txs@;
            let tx = &self.transactions.entries[i].1;
            proof {
                assert(self.txs().take(i + 1).drop_last() =~= self.txs().take(i as int));
                assert(self.txs().take(i + 1).last() == tx@);
                reveal(Seq::filter);
            }
            if matches!(tx.status, TransactionStatus::Committed { .. }) {
                txs.push(tx);
                assert(view_tx_refs(txs@) =~= view_tx_refs(before).push(tx@));
            }
            i += 1;
        }
        assert(self.txs().take(self.txs().len() as int) =~= self.txs());
        txs
    }

    /// The discarded transactions, in the order of their identifiers.
    pub fn discarded_transactions(&self) -> (txs: Vec<&TransactionRecord>)
        ensures
            view_tx_refs(txs@) == self.txs().filter(|tx: TxView| tx.status is Discarded),
    {
        let ghost holds = |tx: TxView| tx.status is Discarded;
        let mut txs: Vec<&TransactionRecord> = Vec::new();
        let mut i: usize = 0;
        assert(view_tx_refs(txs@) =~= self.txs().take(0).filter(holds)) by {
            reveal(Seq::filter);
        }
        while i < self.transactions.entries.len()
            invariant
                i <= self.transactions.entries@.len(),
                holds == (|tx: TxView| tx.status is Discarded),
                view_tx_refs(txs@) == self.txs().take(i as int).filter(holds),
            decreases self.transactions.entries.len() - i,
        {
            let ghost before = txs@;
            let tx = &self.transactions.entries[i].1;
            proof {
                assert(self.txs().take(i + 1).drop_last() =~= self.txs().take(i as int));
                assert(self.txs().take(i + 1).last() == tx@);
                reveal(Seq::filter);
            }
            if matches!(tx.status, TransactionStatus::Discarded(_)) {
                txs.push(tx);
                assert(view_tx_refs(txs@) =~= view_tx_refs(before).push(tx@));
            }
            i += 1;
        }
        assert(self.txs().take(self.txs().len() as int) =~= self.txs());
        txs
    }

    /// The transactions that are no longer pending: committed ones first, then discarded ones.
    pub fn updated_transaction_ids(&self) -> (ids: Vec<TransactionId>)
        ensures
            ids@ == tx_ids(self.txs().filter(|tx: TxView| tx.status is Committed)) + tx_ids(
                self.txs().filter(|tx: TxView| tx.status is Discarded),
            ),
    {
        let mut ids = ids_of(&self.committed_transactions());
        let mut discarded = ids_of(&self.discarded_transactions());
        ids.append(&mut discarded);
        ids
    }
}

/// The views of some referenced transactions.
pub open spec fn view_tx_refs(txs: Seq<&TransactionRecord>) -> Seq<TxView> {
    txs.map_values(|tx: &TransactionRecord| tx@)
}

/// The identifiers of some transactions.
pub open spec fn tx_ids(txs: Seq<TxView>) -> Seq<TransactionId> {
    txs.map_values(|tx: TxView| tx.id)
}

/// The identifiers of some transactions.
pub fn ids_of(txs: &Vec<&TransactionRecord>) -> (ids: Vec<TransactionId>)
    ensures
        ids@ == tx_ids(view_tx_refs(txs@)),
{
    let mut ids: Vec<TransactionId> = Vec::new();
    let mut i: usize = 0;
    while i < txs.len()
        invariant
            i <= txs.len(),
            ids@.len() == i,
            forall|j: int| 0 <= j < i ==> #[trigger] ids@[j] == txs@[j]@.id,
        decreases txs.len() - i,
    {
        ids.push(txs[i].id);
        i += 1;
    }
    assert(ids@ =~= tx_ids(view_tx_refs(txs@)));
    ids
}

// LAWS
// ================================================================================================

/// An event changes nothing of a transaction but the status of a pending one.
pub proof fn law_discard_changes_only_pending(
    txs: Seq<TxView>,
    rule: DiscardRule,
    cause: DiscardCause,
    i: int,
)
    requires
        0 <= i < txs.len(),
    ensures
        after_discard(txs, rule, cause).len() == txs.len(),
        after_discard(txs, rule, cause)[i] == txs[i].with_status(
            after_discard(txs, rule, cause)[i].status,
        ),
        !txs[i].pending() ==> after_discard(txs, rule, cause)[i] == txs[i],
{
}

/// After an event, no transaction that it discarded has left one pending that builds on its
/// result.
pub proof fn law_discard_is_closed(
    txs: Seq<TxView>,
    rule: DiscardRule,
    cause: DiscardCause,
    i: int,
    j: int,
)
    requires
        0 <= i < txs.len(),
        0 <= j < txs.len(),
        txs[i].pending(),
        !after_discard(txs, rule, cause)[i].pending(),
        after_discard(txs, rule, cause)[j].pending(),
    ensures
        txs[i].final_account_state != txs[j].init_account_state,
{
    if rule.selects(txs[i]) {
        lemma_selected_is_doomed(txs, rule, i);
    }
    if txs[i].final_account_state == txs[j].init_account_state {
        lemma_successor_is_doomed(txs, rule, i, j);
    }
}

/// After an event, no pending transaction is one that it selects; the same event again changes
/// nothing.
pub proof fn law_discard_is_idempotent(txs: Seq<TxView>, rule: DiscardRule, cause: DiscardCause)
    ensures
        after_discard(after_discard(txs, rule, cause), rule, cause) == after_discard(
            txs,
            rule,
            cause,
        ),
{
    let after = after_discard(txs, rule, cause);
    assert forall|i: int| 0 <= i < after.len() implies tx_after_discard(after, rule, cause, i)
        == #[trigger] after[i] by {
        if after[i].pending() && doomed(after, rule, i) {
            let path = choose|path: Seq<int>| #[trigger]
                is_doom_path(after, rule, path) && path.last() == i;
            assert(after[path[0]].pending());
            assert(txs[path[0]].pending() && rule.selects(txs[path[0]]));
        }
    }
    assert(after_discard(after, rule, cause) =~= after);
}

/// Only the transactions that build on what an event selects fall with it: without a selected
/// pending transaction nothing changes.
pub proof fn law_discard_needs_a_cause(txs: Seq<TxView>, rule: DiscardRule, cause: DiscardCause)
    requires
        forall|i: int|
            0 <= i < txs.len() && (#[trigger] txs[i]).pending() ==> !rule.selects(txs[i]),
    ensures
        after_discard(txs, rule, cause) == txs,
{
    assert forall|i: int| 0 <= i < txs.len() implies tx_after_discard(txs, rule, cause, i)
        == #[trigger] txs[i] by {
        if txs[i].pending() && doomed(txs, rule, i) {
            let path = choose|path: Seq<int>| #[trigger]
                is_doom_path(txs, rule, path) && path.last() == i;
            assert(txs[path[0]].pending());
        }
    }
    assert(after_discard(txs, rule, cause) =~= txs);
}

/// A transaction is committed or discarded at most once: what is no longer pending stays as it is,
/// and what is pending takes the status and keeps everything else.
pub proof fn law_status_is_settled_once(
    tx: TxView,
    block_number: BlockNumber,
    commit_timestamp: u64,
    cause: DiscardCause,
)
    ensures
        tx.status is Pending ==> tx.committed(block_number, commit_timestamp).status
            == (TransactionStatus::Committed { block_number, commit_timestamp }),
        tx.status is Pending ==> tx.discarded(cause).status == TransactionStatus::Discarded(cause),
        !(tx.status is Pending) ==> tx.committed(block_number, commit_timestamp) == tx
            && tx.discarded(cause) == tx,
        tx.committed(block_number, commit_timestamp) == (TxView {
            status: tx.committed(block_number, commit_timestamp).status,
            ..tx
        }),
        tx.discarded(cause) == (TxView { status: tx.discarded(cause).status, ..tx }),
{
}

/// What an event does to a pending transaction: one that it selects is discarded for the event's
/// cause, any other that falls is discarded for its initial state and builds on a pending one that
/// falls too, and one that stays builds on none that falls.
pub proof fn law_discard_marks_each(txs: Seq<TxView>, rule: DiscardRule, cause: DiscardCause, i: int)
    requires
        0 <= i < txs.len(),
        txs[i].pending(),
    ensures
        ({
            let after = after_discard(txs, rule, cause);
            let falls = |k: int| 0 <= k < txs.len() && txs[k].pending() && !after[k].pending();
            &&& rule.selects(txs[i]) ==> after[i].status == TransactionStatus::Discarded(cause)
            &&& !rule.selects(txs[i]) && !after[i].pending() ==> after[i].status
                == TransactionStatus::Discarded(DiscardCause::DiscardedInitialState) && (exists|
                k: int,
            |
                #[trigger] falls(k) && txs[k].final_account_state == txs[i].init_account_state)
        }),
{
    let after = after_discard(txs, rule, cause);
    let falls = |k: int| 0 <= k < txs.len() && txs[k].pending() && !after[k].pending();
    if !rule.selects(txs[i]) && !after[i].pending() {
        let path = choose|path: Seq<int>| #[trigger]
            is_doom_path(txs, rule, path) && path.last() == i;
        assert(path.len() > 1) by {
            if path.len() == 1 {
                assert(path[0] == path.last());
            }
        }
        let k = path[path.len() - 2];
        let shorter = path.drop_last();
        assert forall|m: int| 0 <= m < shorter.len() implies 0 <= #[trigger] shorter[m] < txs.len()
            && txs[shorter[m]].pending() by {
            assert(shorter[m] == path[m]);
        }
        assert forall|m: int, l: int| 0 <= m && l == m + 1 && l < shorter.len() implies txs[
        #[trigger] shorter[m]].final_account_state
            == txs[#[trigger] shorter[l]].init_account_state by {
            assert(shorter[m] == path[m] && shorter[l] == path[l]);
        }
        assert(shorter[0] == path[0]);
        assert(is_doom_path(txs, rule, shorter));
        assert(shorter.last() == k);
        assert(doomed(txs, rule, k));
        assert(path[path.len() - 1] == i);
        assert(txs[path[path.len() - 2]].final_account_state
            == txs[path[path.len() - 1]].init_account_state);
        assert(0 <= path[path.len() - 2] < txs.len());
        assert(falls(k));
    }
}

/// The rules speak of what they are named after.
pub proof fn law_rules_select(tx: TxView, block: BlockNumber, word: Word)
    ensures
        DiscardRule::SubmittedBefore(block).selects(tx) <==> tx.submission_height < block,
        DiscardRule::ExpiredBy(block).selects(tx) <==> !(block < tx.expiration_block_num),
        DiscardRule::Consumes(word).selects(tx) <==> exists|i: int|
            0 <= i < tx.input_note_nullifiers.len() && tx.input_note_nullifiers[i] == word,
        DiscardRule::StartsFrom(word).selects(tx) <==> tx.init_account_state == word,
        DiscardRule::EndsIn(word).selects(tx) <==> tx.final_account_state == word,
{
}

/// Once the sync height has moved, no pending transaction expires at it or before, and none was
/// submitted longer ago than is allowed. What was no longer pending is as it was. What falls is stale,
/// has expired or builds on what falls, and is discarded as such; of a transaction nothing but its
/// status changes.
pub proof fn law_no_overdue_transaction_is_pending(
    txs: Seq<TxView>,
    sync_height: BlockNumber,
    discard_delta: Option<u32>,
    i: int,
)
    requires
        0 <= i < txs.len(),
    ensures
        ({
            let after = after_sync_height(txs, sync_height, discard_delta);
            &&& after.len() == txs.len()
            &&& after[i].pending() ==> sync_height < after[i].expiration_block_num
            &&& after[i].pending() && discard_delta is Some ==> after[i].submission_height
                + discard_delta.unwrap() >= sync_height
            &&& after[i] == (TxView { status: after[i].status, ..txs[i] })
            &&& !txs[i].pending() ==> after[i] == txs[i]
            &&& txs[i].pending() && !after[i].pending() ==> after[i].status
                == TransactionStatus::Discarded(DiscardCause::Stale) || after[i].status
                == TransactionStatus::Discarded(DiscardCause::Expired) || after[i].status
                == TransactionStatus::Discarded(DiscardCause::DiscardedInitialState)
            &&& txs[i].pending() && after[i].status == TransactionStatus::Discarded(
                DiscardCause::Expired,
            ) ==> txs[i].expiration_block_num <= sync_height
            &&& txs[i].pending() && after[i].status == TransactionStatus::Discarded(
                DiscardCause::Stale,
            ) ==> discard_delta is Some && txs[i].submission_height + discard_delta.unwrap()
                < sync_height
            &&& txs[i].pending() && discard_delta is Some && txs[i].submission_height
                + discard_delta.unwrap() < sync_height ==> after[i].status
                == TransactionStatus::Discarded(DiscardCause::Stale)
            &&& txs[i].pending() && discard_delta is None && txs[i].expiration_block_num
                <= sync_height ==> after[i].status == TransactionStatus::Discarded(
                DiscardCause::Expired,
            )
        }),
        (forall|k: int|
            0 <= k < txs.len() && (#[trigger] txs[k]).pending() ==> sync_height
                < txs[k].expiration_block_num && (discard_delta is Some ==> txs[k].submission_height
                + discard_delta.unwrap() >= sync_height)) ==> after_sync_height(
            txs,
            sync_height,
            discard_delta,
        ) == txs,
{
    if forall|k: int|
        0 <= k < txs.len() && (#[trigger] txs[k]).pending() ==> sync_height
            < txs[k].expiration_block_num && (discard_delta is Some ==> txs[k].submission_height
            + discard_delta.unwrap() >= sync_height) {
        if let Some(delta) = discard_delta {
            law_discard_needs_a_cause(
                txs,
                DiscardRule::SubmittedBefore(stale_before(sync_height, delta)),
                DiscardCause::Stale,
            );
        }
        law_discard_needs_a_cause(txs, DiscardRule::ExpiredBy(sync_height), DiscardCause::Expired);
    }
}

proof fn lemma_first_tx_found(txs: Seq<TxView>, holds: spec_fn(TxView) -> bool, from: int)
    requires
        0 <= from <= txs.len(),
    ensures
        match first_tx(txs, holds, from) {
            Some(i) => from <= i < txs.len() && holds(txs[i]) && forall|j: int|
                from <= j < i ==> !holds(#[trigger] txs[j]),
            None => forall|j: int| from <= j < txs.len() ==> !holds(#[trigger] txs[j]),
        },
    decreases txs.len() - from,
{
    if from < txs.len() && !holds(txs[from]) {
        lemma_first_tx_found(txs, holds, from + 1);
    }
}

/// An included transaction is taken for the first tracked one with its identifier, where there is
/// one; otherwise for the first of its account that starts from its initial state, where there is
/// one; and otherwise for none.
pub proof fn law_inclusion_finds_its_transaction(txs: Seq<TxView>, record: RpcTransactionRecord)
    ensures
        match inclusion_target(txs, record) {
            Some(i) => {
                let by_id = |tx: TxView| tx.id == record.id;
                let by_start = |tx: TxView|
                    tx.account_id == record.account_id && tx.init_account_state
                        == record.initial_state_commitment;
                &&& 0 <= i < txs.len()
                &&& (by_id(txs[i]) && forall|j: int| 0 <= j < i ==> !by_id(#[trigger] txs[j])) || (
                by_start(txs[i]) && (forall|j: int|
                    0 <= j < txs.len() ==> !by_id(#[trigger] txs[j])) && forall|j: int|
                    0 <= j < i ==> !by_start(#[trigger] txs[j]))
            },
            None => forall|j: int|
                0 <= j < txs.len() ==> (#[trigger] txs[j]).id != record.id && !(txs[j].account_id
                    == record.account_id && txs[j].init_account_state
                    == record.initial_state_commitment),
        },
{
    let by_id = |tx: TxView| tx.id == record.id;
    let by_start = |tx: TxView|
        tx.account_id == record.account_id && tx.init_account_state
            == record.initial_state_commitment;
    lemma_first_tx_found(txs, by_id, 0);
    lemma_first_tx_found(txs, by_start, 0);
    if inclusion_target(txs, record) is None {
        assert forall|j: int| 0 <= j < txs.len() implies (#[trigger] txs[j]).id != record.id && !(
        txs[j].account_id == record.account_id && txs[j].init_account_state
            == record.initial_state_commitment) by {
            assert(!by_id(txs[j]) && !by_start(txs[j]));
        }
    }
}

/// After a transaction that this client did not submit, its account is known as the consumer of
/// each of its input notes, and of every other note the consumer is known as before.
pub proof fn law_consumers_are_remembered(
    consumers: Map<Nullifier, AccountId>,
    nullifiers: Seq<Nullifier>,
    account_id: AccountId,
    nullifier: Nullifier,
)
    ensures
        ({
            let after = with_consumer(consumers, nullifiers, account_id);
            &&& nullifiers.contains(nullifier) ==> after.contains_key(nullifier)
                && after[nullifier] == account_id
            &&& !nullifiers.contains(nullifier) ==> after.contains_key(nullifier)
                == consumers.contains_key(nullifier)
            &&& !nullifiers.contains(nullifier) && consumers.contains_key(nullifier)
                ==> after[nullifier] == consumers[nullifier]
        }),
    decreases nullifiers.len(),
{
    if nullifiers.len() > 0 {
        let before = nullifiers.drop_last();
        law_consumers_are_remembered(consumers, before, account_id, nullifier);
        if before.contains(nullifier) {
            let k = choose|k: int| 0 <= k < before.len() && before[k] == nullifier;
            assert(nullifiers[k] == nullifier);
        }
        if nullifiers.contains(nullifier) && nullifier != nullifiers.last() {
            let k = choose|k: int| 0 <= k < nullifiers.len() && nullifiers[k] == nullifier;
            assert(before[k] == nullifier);
        }
        assert(nullifiers[nullifiers.len() - 1] == nullifiers.last());
    }
}

/// Every transaction is followed under its identifier, of two with one identifier the later one,
/// and nothing else is followed.
pub proof fn law_all_transactions_are_followed(records: Seq<TransactionRecord>)
    ensures
        forall|i: int|
            0 <= i < records.len() ==> txs_by_id(records).contains_key((#[trigger] records[i]).id),
        forall|i: int|
            0 <= i < records.len() && (forall|j: int|
                i < j < records.len() ==> (#[trigger] records[j]).id != records[i].id)
                ==> txs_by_id(records)[(#[trigger] records[i]).id] == records[i]@,
        forall|id: TransactionId| #[trigger]
            txs_by_id(records).contains_key(id) ==> exists|i: int|
                0 <= i < records.len() && (#[trigger] records[i]).id == id,
    decreases records.len(),
{
    if records.len() > 0 {
        let before = records.drop_last();
        law_all_transactions_are_followed(before);
        assert(records[records.len() - 1] == records.last());
        assert forall|i: int| 0 <= i < records.len() implies txs_by_id(records).contains_key(
            (#[trigger] records[i]).id,
        ) by {
            if i < before.len() {
                assert(before[i] == records[i]);
            }
        }
        assert forall|i: int|
            0 <= i < records.len() && (forall|j: int|
                i < j < records.len() ==> (#[trigger] records[j]).id != records[i].id) implies txs_by_id(
            records,
        )[(#[trigger] records[i]).id] == records[i]@ by {
            if i < before.len() {
                assert(before[i] == records[i]);
                assert forall|j: int| i < j < before.len() implies (#[trigger] before[j]).id
                    != before[i].id by {
                    assert(records[j].id != records[i].id);
                }
                assert(records[records.len() - 1].id != records[i].id);
            }
        }
        assert forall|id: TransactionId| #[trigger]
            txs_by_id(records).contains_key(id) implies exists|i: int|
            0 <= i < records.len() && (#[trigger] records[i]).id == id by {
            if txs_by_id(before).contains_key(id) {
                let i = choose|i: int| 0 <= i < before.len() && (#[trigger] before[i]).id == id;
                assert(records[i].id == id);
            } else {
                assert(records[records.len() - 1].id == id);
            }
        }
    }
}

} // verus!

//! The order in which an account's transactions were executed, recovered from the states they
//! start from and end in.
use vstd::prelude::*;

use super::transaction::RpcTransactionRecord;
use crate::primitives::{AccountId, BlockNumber, Nullifier, Word};
use crate::sorted_map::{
    as_map, has_key, lemma_entry_in_map, lemma_ordered_entries, lemma_ordered_entries_exist,
    ordered_entries, sorted, AccountBlock, Key, SortedMap,
};

verus! {

/// The transactions behind some references.
pub open spec fn deref_txs(txs: Seq<&RpcTransactionRecord>) -> Seq<RpcTransactionRecord> {
    txs.map_values(|tx: &RpcTransactionRecord| *tx)
}

/// Whether a transaction leaves its account as it was.
pub open spec fn is_self_loop(tx: RpcTransactionRecord) -> bool {
    tx.initial_state_commitment == tx.final_state_commitment
}

/// The transactions that change their account, in order.
pub open spec fn chained_txs(txs: Seq<RpcTransactionRecord>) -> Seq<RpcTransactionRecord> {
    txs.filter(|tx: RpcTransactionRecord| !is_self_loop(tx))
}

/// The transactions that leave their account as it was, in order.
pub open spec fn self_loop_txs(txs: Seq<RpcTransactionRecord>) -> Seq<RpcTransactionRecord> {
    txs.filter(|tx: RpcTransactionRecord| is_self_loop(tx))
}

/// Whether some transaction ends in a state.
pub open spec fn ends_in(txs: Seq<RpcTransactionRecord>, state: Word) -> bool {
    exists|i: int| 0 <= i < txs.len() && (#[trigger] txs[i]).final_state_commitment == state
}

/// The state that a chain starts from: the initial state of the first transaction, from a
/// position on, that starts from no other's result.
pub open spec fn chain_start(txs: Seq<RpcTransactionRecord>, from: int) -> Option<Word>
    decreases txs.len() - from,
{
    if from < 0 || from >= txs.len() {
        None
    } else if !ends_in(txs, txs[from].initial_state_commitment) {
        Some(txs[from].initial_state_commitment)
    } else {
        chain_start(txs, from + 1)
    }
}

/// The transactions by the state they start from; of two that start from one state the later
/// counts.
pub open spec fn txs_by_start(txs: Seq<RpcTransactionRecord>) -> Map<Word, RpcTransactionRecord>
    decreases txs.len(),
{
    if txs.len() == 0 {
        Map::empty()
    } else {
        txs_by_start(txs.drop_last()).insert(txs.last().initial_state_commitment, txs.last())
    }
}

/// The transactions that leave their account in a state, in order.
pub open spec fn loops_at(loops: Seq<RpcTransactionRecord>, state: Word) -> Seq<
    RpcTransactionRecord,
> {
    loops.filter(|tx: RpcTransactionRecord| tx.initial_state_commitment == state)
}

/// The transactions that leave their account in another state, in order.
pub open spec fn loops_away(loops: Seq<RpcTransactionRecord>, state: Word) -> Seq<
    RpcTransactionRecord,
> {
    loops.filter(|tx: RpcTransactionRecord| tx.initial_state_commitment != state)
}

/// The transactions that follow one another from a state on, each taken at most once. Those that
/// leave the account as it was come when their state is reached; those whose state is never
/// reached come last.
pub open spec fn chain_from(
    by_start: Map<Word, RpcTransactionRecord>,
    loops: Seq<RpcTransactionRecord>,
    state: Word,
) -> Seq<RpcTransactionRecord>
    decreases by_start.dom().len(),
    when by_start.dom().finite()
{
    let rest = loops_away(loops, state);
    loops_at(loops, state) + if by_start.contains_key(state) {
        seq![by_start[state]] + chain_from(
            by_start.remove(state),
            rest,
            by_start[state].final_state_commitment,
        )
    } else {
        rest
    }
}

/// The order in which the transactions of one account in one block were executed: the chain from
/// its start on.
pub open spec fn execution_order(txs: Seq<RpcTransactionRecord>) -> Seq<RpcTransactionRecord> {
    let chained = chained_txs(txs);
    match chain_start(chained, 0) {
        Some(state) => chain_from(txs_by_start(chained), self_loop_txs(txs), state),
        None => self_loop_txs(txs),
    }
}

/// Whether the transactions that change their account, if there are any, have a start.
pub open spec fn has_start(txs: Seq<RpcTransactionRecord>) -> bool {
    chained_txs(txs).len() == 0 || chain_start(chained_txs(txs), 0) is Some
}

proof fn lemma_by_start_finite(txs: Seq<RpcTransactionRecord>)
    ensures
        txs_by_start(txs).dom().finite(),
    decreases txs.len(),
{
    if txs.len() > 0 {
        lemma_by_start_finite(txs.drop_last());
    }
}

/// The transactions that do, or do not, leave their account as it was.
fn select_txs<'a>(txs: &Vec<&'a RpcTransactionRecord>, self_loops: bool) -> (selected: Vec<
    &'a RpcTransactionRecord,
>)
    ensures
        deref_txs(selected@) == (if self_loops {
            self_loop_txs(deref_txs(txs@))
        } else {
            chained_txs(deref_txs(txs@))
        }),
{
    let ghost keep = |tx: RpcTransactionRecord| is_self_loop(tx) == self_loops;
    let ghost all = deref_txs(txs@);
    let mut selected: Vec<&'a RpcTransactionRecord> = Vec::new();
    let mut i: usize = 0;
    assert(deref_txs(selected@) =~= all.take(0).filter(keep)) by {
        reveal(Seq::filter);
    }
    while i < txs.len()
        invariant
            i <= txs.len(),
            all == deref_txs(txs@),
            keep == (|tx: RpcTransactionRecord| is_self_loop(tx) == self_loops),
            deref_txs(selected@) == all.take(i as int).filter(keep),
        decreases txs.len() - i,
    {
        let tx = txs[i];
        let ghost before = selected@;
        proof {
            assert(all.take(i + 1).drop_last() =~= all.take(i as int));
            assert(all.take(i + 1).last() == *tx);
            reveal(Seq::filter);
        }
        if (tx.initial_state_commitment == tx.final_state_commitment) == self_loops {
            selected.push(tx);
            assert(deref_txs(selected@) =~= deref_txs(before).push(*tx));
        }
        i += 1;
    }
    proof {
        assert(all.take(all.len() as int) =~= all);
        if self_loops {
            lemma_same_filter(all, keep, |tx: RpcTransactionRecord| is_self_loop(tx));
        } else {
            lemma_same_filter(all, keep, |tx: RpcTransactionRecord| !is_self_loop(tx));
        }
    }
    selected
}

proof fn lemma_same_filter<A>(s: Seq<A>, p: spec_fn(A) -> bool, q: spec_fn(A) -> bool)
    requires
        forall|a: A| #[trigger] p(a) == q(a),
    ensures
        s.filter(p) == s.filter(q),
    decreases s.len(),
{
    reveal(Seq::filter);
    if s.len() > 0 {
        lemma_same_filter(s.drop_last(), p, q);
        assert(p(s.last()) == q(s.last()));
    }
}

fn is_result(txs: &Vec<&RpcTransactionRecord>, state: Word) -> (found: bool)
    ensures
        found == ends_in(deref_txs(txs@), state),
{
    let ghost all = deref_txs(txs@);
    let mut i: usize = 0;
    while i < txs.len()
        invariant
            i <= txs.len(),
            all == deref_txs(txs@),
            forall|j: int| 0 <= j < i ==> (#[trigger] all[j]).final_state_commitment != state,
        decreases txs.len() - i,
    {
        if txs[i].final_state_commitment == state {
            assert(all[i as int].final_state_commitment == state);
            return true;
        }
        i += 1;
    }
    false
}

fn find_start(txs: &Vec<&RpcTransactionRecord>) -> (start: Option<Word>)
    ensures
        start == chain_start(deref_txs(txs@), 0),
{
    let ghost all = deref_txs(txs@);
    let mut i: usize = 0;
    while i < txs.len()
        invariant
            i <= txs.len(),
            all == deref_txs(txs@),
            chain_start(all, 0) == chain_start(all, i as int),
        decreases txs.len() - i,
    {
        assert(all[i as int] == *txs@[i as int]);
        if !is_result(txs, txs[i].initial_state_commitment) {
            return Some(txs[i].initial_state_commitment);
        }
        i += 1;
    }
    None
}

/// The transactions at the positions that a map holds.
spec fn at_positions(positions: Map<Word, usize>, txs: Seq<RpcTransactionRecord>) -> Map<
    Word,
    RpcTransactionRecord,
> {
    positions.map_values(|i: usize| txs[i as int])
}

fn index_by_start(txs: &Vec<&RpcTransactionRecord>) -> (positions: SortedMap<Word, usize>)
    ensures
        positions.wf(),
        at_positions(positions@, deref_txs(txs@)) == txs_by_start(deref_txs(txs@)),
        forall|state: Word|
            positions@.contains_key(state) ==> #[trigger] positions@[state] < txs@.len(),
{
    let ghost all = deref_txs(txs@);
    let mut positions: SortedMap<Word, usize> = SortedMap::new();
    let mut i: usize = 0;
    assert(at_positions(positions@, all) =~= Map::empty());
    while i < txs.len()
        invariant
            i <= txs.len(),
            positions.wf(),
            all == deref_txs(txs@),
            at_positions(positions@, all) == txs_by_start(all.take(i as int)),
            forall|state: Word|
                positions@.contains_key(state) ==> #[trigger] positions@[state] < txs@.len(),
        decreases txs.len() - i,
    {
        let ghost before = positions@;
        proof {
            assert(all.take(i + 1).drop_last() =~= all.take(i as int));
            assert(all.take(i + 1).last() == all[i as int]);
            assert(all[i as int] == *txs@[i as int]);
        }
        positions.insert(txs[i].initial_state_commitment, i);
        assert(at_positions(positions@, all) =~= at_positions(before, all).insert(
            all[i as int].initial_state_commitment,
            all[i as int],
        ));
        i += 1;
    }
    assert(all.take(all.len() as int) =~= all);
    positions
}

/// The transactions that do, or do not, leave their account in a state.
fn select_at<'a>(loops: &Vec<&'a RpcTransactionRecord>, state: Word, at: bool) -> (selected: Vec<
    &'a RpcTransactionRecord,
>)
    ensures
        deref_txs(selected@) == (if at {
            loops_at(deref_txs(loops@), state)
        } else {
            loops_away(deref_txs(loops@), state)
        }),
{
    let ghost keep = |tx: RpcTransactionRecord| (tx.initial_state_commitment == state) == at;
    let ghost all = deref_txs(loops@);
    let mut selected: Vec<&'a RpcTransactionRecord> = Vec::new();
    let mut i: usize = 0;
    assert(deref_txs(selected@) =~= all.take(0).filter(keep)) by {
        reveal(Seq::filter);
    }
    while i < loops.len()
        invariant
            i <= loops.len(),
            all == deref_txs(loops@),
            keep == (|tx: RpcTransactionRecord| (tx.initial_state_commitment == state) == at),
            deref_txs(selected@) == all.take(i as int).filter(keep),
        decreases loops.len() - i,
    {
        let tx = loops[i];
        let ghost before = selected@;
        proof {
            assert(all.take(i + 1).drop_last() =~= all.take(i as int));
            assert(all.take(i + 1).last() == *tx);
            reveal(Seq::filter);
        }
        if (tx.initial_state_commitment == state) == at {
            selected.push(tx);
            assert(deref_txs(selected@) =~= deref_txs(before).push(*tx));
        }
        i += 1;
    }
    proof {
        assert(all.take(all.len() as int) =~= all);
        if at {
            lemma_same_filter(
                all,
                keep,
                |tx: RpcTransactionRecord| tx.initial_state_commitment == state,
            );
        } else {
            lemma_same_filter(
                all,
                keep,
                |tx: RpcTransactionRecord| tx.initial_state_commitment != state,
            );
        }
    }
    selected
}

proof fn lemma_deref_append(first: Seq<&RpcTransactionRecord>, second: Seq<&RpcTransactionRecord>)
    ensures
        deref_txs(first + second) == deref_txs(first) + deref_txs(second),
{
    assert(deref_txs(first + second) =~= deref_txs(first) + deref_txs(second));
}

/// Lists the transactions of one account in one block in the order of their execution.
pub fn walk_execution_chain<'a>(txs: &Vec<&'a RpcTransactionRecord>) -> (ordered: Vec<
    &'a RpcTransactionRecord,
>)
    requires
        has_start(deref_txs(txs@)),
    ensures
        deref_txs(ordered@) == execution_order(deref_txs(txs@)),
{
    let chained = select_txs(txs, false);
    let mut loops = select_txs(txs, true);
    let ghost all = deref_txs(chained@);
    let ghost by_start = txs_by_start(all);
    let mut state: Word = match find_start(&chained) {
        Some(start) => start,
        None => return loops,
    };
    let mut ordered: Vec<&'a RpcTransactionRecord> = Vec::new();
    let mut positions = index_by_start(&chained);
    let ghost whole = chain_from(by_start, deref_txs(loops@), state);
    proof {
        lemma_by_start_finite(all);
        assert(deref_txs(ordered@) =~= Seq::empty());
        assert(deref_txs(ordered@) + whole =~= whole);
    }
    loop
        invariant_except_break
            positions.wf(),
            all == deref_txs(chained@),
            at_positions(positions@, all).dom().finite(),
            forall|key: Word|
                positions@.contains_key(key) ==> #[trigger] positions@[key] < chained@.len(),
            whole == deref_txs(ordered@) + chain_from(
                at_positions(positions@, all),
                deref_txs(loops@),
                state,
            ),
        ensures
            whole == deref_txs(ordered@) + deref_txs(loops@),
        decreases at_positions(positions@, all).dom().len(),
    {
        let ghost held = at_positions(positions@, all);
        let ghost started = ordered@;
        let ghost open = deref_txs(loops@);
        let mut here = select_at(&loops, state, true);
        loops = select_at(&loops, state, false);
        proof {
            lemma_deref_append(started, here@);
        }
        ordered.append(&mut here);
        let ghost begun = deref_txs(ordered@);
        assert(begun == deref_txs(started) + loops_at(open, state));
        match positions.find(&state) {
            Some(found) => {
                let position: usize = positions.entries[found].1;
                proof {
                    lemma_entry_in_map(positions.entries@, found as int);
                    assert(held.contains_key(state));
                    assert(held[state] == all[position as int]);
                }
                let tx = chained[position];
                let ghost before = ordered@;
                positions.remove(&state);
                ordered.push(tx);
                proof {
                    let now = at_positions(positions@, all);
                    assert(now =~= held.remove(state));
                    assert(now.dom() =~= held.dom().remove(state));
                    let rest = chain_from(now, deref_txs(loops@), tx.final_state_commitment);
                    assert(deref_txs(ordered@) =~= deref_txs(before).push(*tx));
                    assert(chain_from(held, open, state) == loops_at(open, state) + (seq![*tx]
                        + rest));
                    assert(deref_txs(started) + (loops_at(open, state) + (seq![*tx] + rest))
                        =~= deref_txs(ordered@) + rest);
                }
                state = tx.final_state_commitment;
            },
            None => {
                assert(!held.contains_key(state));
                assert(deref_txs(started) + (loops_at(open, state) + loops_away(open, state))
                    =~= begun + deref_txs(loops@));
                break;
            },
        }
    }
    proof {
        lemma_deref_append(ordered@, loops@);
    }
    ordered.append(&mut loops);
    ordered
}

// GROUPS
// ================================================================================================

/// The transactions of one account in one block, in order.
pub open spec fn group_of(records: Seq<RpcTransactionRecord>, key: AccountBlock) -> Seq<
    RpcTransactionRecord,
> {
    records.filter(
        |tx: RpcTransactionRecord|
            tx.account_id == key.account_id && tx.block_num == key.block_num,
    )
}

/// The transactions by account and block.
pub open spec fn groups_of(records: Seq<RpcTransactionRecord>) -> Map<
    AccountBlock,
    Seq<RpcTransactionRecord>,
> {
    Map::new(
        |key: AccountBlock| group_of(records, key).len() > 0,
        |key: AccountBlock| group_of(records, key),
    )
}

/// The groups of some transactions stand in the order of their accounts, and of their blocks for
/// each account.
pub proof fn lemma_groups_in_order(records: Seq<RpcTransactionRecord>)
    ensures
        sorted(ordered_entries(groups_of(records))),
        as_map(ordered_entries(groups_of(records))) == groups_of(records),
{
    lemma_groups_finite(records);
    lemma_ordered_entries_exist(groups_of(records));
}

proof fn lemma_groups_finite(records: Seq<RpcTransactionRecord>)
    ensures
        groups_of(records).dom().finite(),
    decreases records.len(),
{
    if records.len() == 0 {
        reveal(Seq::filter);
        assert(groups_of(records).dom() =~= Set::empty());
    } else {
        let tx = records.last();
        let shorter = records.drop_last();
        let key = AccountBlock { account_id: tx.account_id, block_num: tx.block_num };
        lemma_groups_finite(shorter);
        assert(shorter.push(tx) =~= records);
        assert forall|other: AccountBlock| #[trigger]
            groups_of(records).dom().contains(other) == groups_of(shorter).dom().insert(
                key,
            ).contains(other) by {
            lemma_group_push(shorter, tx, other);
        }
        assert(groups_of(records).dom() =~= groups_of(shorter).dom().insert(key));
    }
}

/// Whether every account's transactions in every block have a start.
pub open spec fn all_have_start(records: Seq<RpcTransactionRecord>) -> bool {
    forall|key: AccountBlock| has_start(#[trigger] group_of(records, key))
}

/// The groups that a sorted map of references stands for.
pub open spec fn view_groups(groups: Seq<(AccountBlock, Vec<&RpcTransactionRecord>)>) -> Seq<
    (AccountBlock, Seq<RpcTransactionRecord>),
> {
    groups.map_values(
        |group: (AccountBlock, Vec<&RpcTransactionRecord>)| (group.0, deref_txs(group.1@)),
    )
}

proof fn lemma_group_push(
    records: Seq<RpcTransactionRecord>,
    tx: RpcTransactionRecord,
    key: AccountBlock,
)
    ensures
        group_of(records.push(tx), key) == (if tx.account_id == key.account_id && tx.block_num
            == key.block_num {
            group_of(records, key).push(tx)
        } else {
            group_of(records, key)
        }),
{
    reveal(Seq::filter);
    assert(records.push(tx).drop_last() =~= records);
}

proof fn lemma_view_groups_sorted(groups: Seq<(AccountBlock, Vec<&RpcTransactionRecord>)>)
    requires
        sorted(groups),
    ensures
        sorted(view_groups(groups)),
        as_map(view_groups(groups)) == as_map(groups).map_values(
            |txs: Vec<&RpcTransactionRecord>| deref_txs(txs@),
        ),
{
    let views = view_groups(groups);
    assert forall|i: int, j: int| 0 <= i < j < views.len() implies (
    #[trigger] views[i]).0.precedes((#[trigger] views[j]).0) by {
        assert(groups[i].0.precedes(groups[j].0));
    }
    let left = as_map(views);
    let right = as_map(groups).map_values(|txs: Vec<&RpcTransactionRecord>| deref_txs(txs@));
    assert forall|key: AccountBlock| left.contains_key(key) == right.contains_key(key) by {
        if left.contains_key(key) {
            let i = choose|i: int| 0 <= i < views.len() && (#[trigger] views[i]).0 == key;
            assert(groups[i].0 == key);
        }
        if right.contains_key(key) {
            let i = choose|i: int| 0 <= i < groups.len() && (#[trigger] groups[i]).0 == key;
            assert(views[i].0 == key);
        }
    }
    assert forall|key: AccountBlock| left.contains_key(key) implies left[key] == right[key] by {
        let i = choose|i: int| 0 <= i < views.len() && (#[trigger] views[i]).0 == key;
        lemma_entry_in_map(views, i);
        lemma_entry_in_map(groups, i);
    }
    assert(left =~= right);
}

/// Groups transactions by account and block.
pub fn group_txs_by_account_block<'a>(records: &'a Vec<RpcTransactionRecord>) -> (groups: SortedMap<
    AccountBlock,
    Vec<&'a RpcTransactionRecord>,
>)
    ensures
        groups.wf(),
        view_groups(groups.entries@) == ordered_entries(groups_of(records@)),
        as_map(view_groups(groups.entries@)) == groups_of(records@),
{
    let mut groups: SortedMap<AccountBlock, Vec<&'a RpcTransactionRecord>> = SortedMap::new();
    let mut i: usize = 0;
    proof {
        assert forall|key: AccountBlock| group_of(records@.take(0), key).len() == 0 by {
            reveal(Seq::filter);
        }
        assert(groups@.map_values(|txs: Vec<&RpcTransactionRecord>| deref_txs(txs@)) =~= groups_of(
            records@.take(0),
        ));
    }
    while i < records.len()
        invariant
            i <= records.len(),
            groups.wf(),
            groups@.map_values(|txs: Vec<&RpcTransactionRecord>| deref_txs(txs@)) == groups_of(
                records@.take(i as int),
            ),
        decreases records.len() - i,
    {
        let tx = &records[i];
        let key = AccountBlock { account_id: tx.account_id, block_num: tx.block_num };
        let ghost before = groups@.map_values(|txs: Vec<&RpcTransactionRecord>| deref_txs(txs@));
        let ghost held = groups@;
        let mut group: Vec<&'a RpcTransactionRecord> = match groups.get(&key) {
            Some(group) => copy_refs(group),
            None => Vec::new(),
        };
        let ghost group_before = deref_txs(group@);
        group.push(tx);
        let ghost grown = deref_txs(group@);
        groups.insert(key, group);
        proof {
            let taken = records@.take(i as int);
            assert(records@.take(i + 1) =~= taken.push(*tx));
            assert(grown =~= group_before.push(*tx));
            assert(group_before =~= group_of(taken, key)) by {
                if held.contains_key(key) {
                    assert(before[key] == deref_txs(held[key]@));
                } else {
                    assert(!before.contains_key(key));
                    assert(!groups_of(taken).contains_key(key));
                }
            }
            let now = groups@.map_values(|txs: Vec<&RpcTransactionRecord>| deref_txs(txs@));
            assert(now =~= before.insert(key, grown));
            assert forall|other: AccountBlock| #[trigger]
                group_of(records@.take(i + 1), other) == (if other == key {
                    grown
                } else {
                    group_of(taken, other)
                }) by {
                lemma_group_push(taken, *tx, other);
            }
            assert(now =~= groups_of(records@.take(i + 1)));
        }
        i += 1;
    }
    proof {
        assert(records@.take(records@.len() as int) =~= records@);
        lemma_view_groups_sorted(groups.entries@);
        lemma_ordered_entries(view_groups(groups.entries@));
    }
    groups
}

fn copy_refs<'a>(txs: &Vec<&'a RpcTransactionRecord>) -> (copy: Vec<&'a RpcTransactionRecord>)
    ensures
        copy@ == txs@,
{
    let mut copy: Vec<&'a RpcTransactionRecord> = Vec::new();
    let mut i: usize = 0;
    while i < txs.len()
        invariant
            i <= txs.len(),
            copy@ == txs@.take(i as int),
        decreases txs.len() - i,
    {
        copy.push(txs[i]);
        assert(copy@ =~= txs@.take(i + 1));
        i += 1;
    }
    assert(txs@.take(txs@.len() as int) =~= txs@);
    copy
}

// COMMITMENTS
// ================================================================================================

/// The state in which a group's execution ends.
pub open spec fn terminal_state(txs: Seq<RpcTransactionRecord>) -> Word {
    execution_order(txs).last().final_state_commitment
}

/// The latest block with a transaction of an account.
pub open spec fn latest_block(records: Seq<RpcTransactionRecord>, account_id: AccountId) -> Option<
    BlockNumber,
>
    decreases records.len(),
{
    if records.len() == 0 {
        None
    } else {
        let before = latest_block(records.drop_last(), account_id);
        let tx = records.last();
        if tx.account_id != account_id {
            before
        } else {
            match before {
                Some(block) if block >= tx.block_num => Some(block),
                _ => Some(tx.block_num),
            }
        }
    }
}

/// For each account with transactions, the state in which its latest block leaves it.
pub open spec fn account_commitments(records: Seq<RpcTransactionRecord>) -> Map<AccountId, Word> {
    Map::new(
        |account_id: AccountId| latest_block(records, account_id) is Some,
        |account_id: AccountId|
            terminal_state(
                group_of(
                    records,
                    AccountBlock {
                        account_id,
                        block_num: latest_block(records, account_id).unwrap(),
                    },
                ),
            ),
    )
}

proof fn lemma_latest_block(records: Seq<RpcTransactionRecord>, account_id: AccountId)
    ensures
        forall|block_num: BlockNumber|
            #![trigger group_of(records, AccountBlock { account_id, block_num })]
            group_of(records, AccountBlock { account_id, block_num }).len() > 0 ==> (latest_block(
                records,
                account_id,
            ) matches Some(latest) && latest >= block_num),
        latest_block(records, account_id) matches Some(latest) ==> group_of(
            records,
            AccountBlock { account_id, block_num: latest },
        ).len() > 0,
    decreases records.len(),
{
    if records.len() == 0 {
        reveal(Seq::filter);
    } else {
        let before = records.drop_last();
        let tx = records.last();
        lemma_latest_block(before, account_id);
        assert(records =~= before.push(tx));
        assert forall|block_num: BlockNumber|
            #![trigger group_of(records, AccountBlock { account_id, block_num })]
            group_of(records, AccountBlock { account_id, block_num }).len() > 0 implies (
        latest_block(records, account_id) matches Some(latest) && latest >= block_num) by {
            lemma_group_push(before, tx, AccountBlock { account_id, block_num });
        }
        if let Some(latest) = latest_block(records, account_id) {
            lemma_group_push(before, tx, AccountBlock { account_id, block_num: latest });
        }
    }
}

proof fn lemma_start_is_indexed(txs: Seq<RpcTransactionRecord>, from: int)
    requires
        0 <= from,
    ensures
        chain_start(txs, from) matches Some(state) ==> txs_by_start(txs).contains_key(state),
    decreases txs.len() - from,
{
    if from < txs.len() {
        lemma_start_is_indexed(txs, from + 1);
        lemma_indexed(txs, from);
    }
}

proof fn lemma_indexed(txs: Seq<RpcTransactionRecord>, i: int)
    requires
        0 <= i < txs.len(),
    ensures
        txs_by_start(txs).contains_key(txs[i].initial_state_commitment),
    decreases txs.len(),
{
    if i < txs.len() - 1 {
        lemma_indexed(txs.drop_last(), i);
    }
}

/// A group that is not empty and has a start is executed by at least one transaction.
proof fn lemma_execution_not_empty(txs: Seq<RpcTransactionRecord>)
    requires
        txs.len() > 0,
        has_start(txs),
    ensures
        execution_order(txs).len() > 0,
{
    let chained = chained_txs(txs);
    if chained.len() > 0 {
        let state = chain_start(chained, 0).unwrap();
        lemma_start_is_indexed(chained, 0);
        lemma_by_start_finite(chained);
        assert(chain_from(txs_by_start(chained), self_loop_txs(txs), state).len() > 0);
    } else {
        reveal(Seq::filter);
        assert(self_loop_txs(txs).len() > 0);
    }
}

/// Derives, for each account with transactions, the state in which its latest block leaves it.
/// The accounts come in order.
pub fn derive_account_commitments(records: &Vec<RpcTransactionRecord>) -> (commitments: Vec<
    (AccountId, Word),
>)
    requires
        all_have_start(records@),
    ensures
        commitments@ == ordered_entries(account_commitments(records@)),
        sorted(commitments@),
        as_map(commitments@) == account_commitments(records@),
{
    let groups = group_txs_by_account_block(records);
    let ghost keyed = view_groups(groups.entries@);
    proof {
        lemma_view_groups_sorted(groups.entries@);
        lemma_groups_sorted(records@, keyed);
    }
    let mut latest: SortedMap<AccountId, (BlockNumber, Word)> = SortedMap::new();
    let mut i: usize = 0;
    while i < groups.entries.len()
        invariant
            i <= groups.entries.len(),
            groups.wf(),
            latest.wf(),
            all_have_start(records@),
            keyed == view_groups(groups.entries@),
            sorted(keyed),
            as_map(keyed) == groups_of(records@),
            forall|j: int|
                0 <= j < keyed.len() ==> (#[trigger] keyed[j]).1 == group_of(records@, keyed[j].0)
                    && keyed[j].1.len() > 0,
            forall|j: int|
                0 <= j < i ==> latest@.contains_key((#[trigger] keyed[j]).0.account_id)
                    && latest@[keyed[j].0.account_id].0 >= keyed[j].0.block_num,
            forall|account_id: AccountId| #[trigger]
                latest@.contains_key(account_id) ==> exists|j: int|
                    0 <= j < i && (#[trigger] keyed[j]).0 == (AccountBlock {
                        account_id,
                        block_num: latest@[account_id].0,
                    }) && latest@[account_id].1 == terminal_state(keyed[j].1),
        decreases groups.entries.len() - i,
    {
        let key = groups.entries[i].0;
        let ghost txs = keyed[i as int].1;
        let ghost before = latest@;
        proof {
            assert(keyed[i as int].0 == key);
            assert(txs == deref_txs(groups.entries@[i as int].1@));
            assert(has_start(group_of(records@, key)));
            lemma_execution_not_empty(txs);
        }
        let ordered = walk_execution_chain(&groups.entries[i].1);
        assert(deref_txs(ordered@).len() == ordered@.len());
        let last = ordered[ordered.len() - 1];
        let state = last.final_state_commitment;
        assert(state == terminal_state(txs)) by {
            assert(deref_txs(ordered@).last() == *last);
        }
        let newer = match latest.get(&key.account_id) {
            Some(entry) => key.block_num > entry.0,
            None => true,
        };
        if newer {
            latest.insert(key.account_id, (key.block_num, state));
            proof {
                assert forall|account_id: AccountId| #[trigger]
                    latest@.contains_key(account_id) implies exists|j: int|
                    0 <= j < i + 1 && (#[trigger] keyed[j]).0 == (AccountBlock {
                        account_id,
                        block_num: latest@[account_id].0,
                    }) && latest@[account_id].1 == terminal_state(keyed[j].1) by {
                    if account_id == key.account_id {
                        assert(keyed[i as int].0 == (AccountBlock {
                            account_id,
                            block_num: latest@[account_id].0,
                        }));
                    } else {
                        assert(before.contains_key(account_id));
                    }
                }
            }
        }
        i += 1;
    }
    let mut commitments: Vec<(AccountId, Word)> = Vec::new();
    let mut k: usize = 0;
    while k < latest.entries.len()
        invariant
            k <= latest.entries.len(),
            commitments@.len() == k,
            forall|j: int|
                0 <= j < k ==> #[trigger] commitments@[j] == (
                latest.entries@[j].0,
                latest.entries@[j].1.1,
                ),
        decreases latest.entries.len() - k,
    {
        commitments.push((latest.entries[k].0, latest.entries[k].1.1));
        k += 1;
    }
    proof {
        let entries = latest.entries@;
        let result = commitments@;
        assert forall|a: int, b: int| 0 <= a < b < result.len() implies (
        #[trigger] result[a]).0.precedes((#[trigger] result[b]).0) by {
            assert(entries[a].0.precedes(entries[b].0));
        }
        let expected = account_commitments(records@);
        assert forall|account_id: AccountId| as_map(result).contains_key(account_id)
            == expected.contains_key(account_id) by {
            lemma_latest_block(records@, account_id);
            if as_map(result).contains_key(account_id) {
                let a = choose|a: int|
                    0 <= a < result.len() && (#[trigger] result[a]).0 == account_id;
                lemma_entry_in_map(entries, a);
                assert(latest@.contains_key(account_id));
                let j = choose|j: int|
                    0 <= j < keyed.len() && (#[trigger] keyed[j]).0 == (AccountBlock {
                        account_id,
                        block_num: latest@[account_id].0,
                    }) && latest@[account_id].1 == terminal_state(keyed[j].1);
                assert(group_of(
                    records@,
                    AccountBlock { account_id, block_num: latest@[account_id].0 },
                ).len() > 0);
            }
            if expected.contains_key(account_id) {
                let block_num = latest_block(records@, account_id).unwrap();
                let key = AccountBlock { account_id, block_num };
                assert(groups_of(records@).contains_key(key));
                lemma_group_position(records@, keyed, key);
                let j = choose|j: int| 0 <= j < keyed.len() && (#[trigger] keyed[j]).0 == key;
                assert(latest@.contains_key(account_id));
                assert(has_key(entries, account_id));
                let a = choose|a: int|
                    0 <= a < entries.len() && (#[trigger] entries[a]).0 == account_id;
                assert(result[a].0 == account_id);
            }
        }
        assert forall|account_id: AccountId| expected.contains_key(account_id) implies as_map(
            result,
        )[account_id] == expected[account_id] by {
            lemma_latest_block(records@, account_id);
            let a = choose|a: int| 0 <= a < result.len() && (#[trigger] result[a]).0 == account_id;
            assert(as_map(result).contains_key(account_id));
            lemma_entry_in_map(result, a);
            lemma_entry_in_map(entries, a);
            let (block_num, state) = latest@[account_id];
            let j = choose|j: int|
                0 <= j < keyed.len() && (#[trigger] keyed[j]).0 == (AccountBlock {
                    account_id,
                    block_num: latest@[account_id].0,
                }) && latest@[account_id].1 == terminal_state(keyed[j].1);
            assert(group_of(records@, AccountBlock { account_id, block_num }).len() > 0);
            let top = latest_block(records@, account_id).unwrap();
            let key = AccountBlock { account_id, block_num: top };
            assert(groups_of(records@).contains_key(key));
            lemma_group_position(records@, keyed, key);
            let m = choose|m: int| 0 <= m < keyed.len() && (#[trigger] keyed[m]).0 == key;
            assert(latest@[keyed[m].0.account_id].0 >= top);
            assert(block_num == top);
        }
        assert(as_map(result) =~= expected);
        lemma_ordered_entries(result);
    }
    commitments
}

proof fn lemma_groups_sorted(
    records: Seq<RpcTransactionRecord>,
    keyed: Seq<(AccountBlock, Seq<RpcTransactionRecord>)>,
)
    requires
        keyed == ordered_entries(groups_of(records)),
        sorted(keyed),
        as_map(keyed) == groups_of(records),
    ensures
        forall|j: int|
            0 <= j < keyed.len() ==> (#[trigger] keyed[j]).1 == group_of(records, keyed[j].0)
                && keyed[j].1.len() > 0,
{
    assert forall|j: int| 0 <= j < keyed.len() implies (#[trigger] keyed[j]).1 == group_of(
        records,
        keyed[j].0,
    ) && keyed[j].1.len() > 0 by {
        lemma_entry_in_map(keyed, j);
    }
}

proof fn lemma_group_position(
    records: Seq<RpcTransactionRecord>,
    keyed: Seq<(AccountBlock, Seq<RpcTransactionRecord>)>,
    key: AccountBlock,
)
    requires
        as_map(keyed) == groups_of(records),
        groups_of(records).contains_key(key),
    ensures
        exists|j: int| 0 <= j < keyed.len() && (#[trigger] keyed[j]).0 == key,
{
    assert(has_key(keyed, key));
}

// NULLIFIERS
// ================================================================================================

/// The nullifiers of the notes that some transactions consume, in order.
pub open spec fn nullifiers_of(txs: Seq<RpcTransactionRecord>) -> Seq<Nullifier>
    decreases txs.len(),
{
    if txs.len() == 0 {
        Seq::empty()
    } else {
        nullifiers_of(txs.drop_last()) + txs.last().input_notes@
    }
}

/// The nullifiers of some groups, group by group, each in its order of execution.
pub open spec fn group_nullifiers(
    groups: Seq<(AccountBlock, Seq<RpcTransactionRecord>)>,
) -> Seq<Nullifier>
    decreases groups.len(),
{
    if groups.len() == 0 {
        Seq::empty()
    } else {
        group_nullifiers(groups.drop_last()) + nullifiers_of(execution_order(groups.last().1))
    }
}

/// Lists the nullifiers of all consumed notes: by account, then by block, then in the order of
/// execution.
pub fn compute_ordered_nullifiers(records: &Vec<RpcTransactionRecord>) -> (nullifiers: Vec<
    Nullifier,
>)
    requires
        all_have_start(records@),
    ensures
        nullifiers@ == group_nullifiers(ordered_entries(groups_of(records@))),
{
    let groups = group_txs_by_account_block(records);
    let ghost keyed = view_groups(groups.entries@);
    proof {
        lemma_view_groups_sorted(groups.entries@);
        lemma_groups_sorted(records@, keyed);
    }
    let mut nullifiers: Vec<Nullifier> = Vec::new();
    let mut i: usize = 0;
    while i < groups.entries.len()
        invariant
            i <= groups.entries.len(),
            all_have_start(records@),
            keyed == view_groups(groups.entries@),
            forall|j: int|
                0 <= j < keyed.len() ==> (#[trigger] keyed[j]).1 == group_of(records@, keyed[j].0),
            nullifiers@ == group_nullifiers(keyed.take(i as int)),
        decreases groups.entries.len() - i,
    {
        proof {
            assert(keyed.take(i + 1).drop_last() =~= keyed.take(i as int));
            assert(keyed.take(i + 1).last() == keyed[i as int]);
            assert(keyed[i as int].1 == deref_txs(groups.entries@[i as int].1@));
            assert(has_start(group_of(records@, keyed[i as int].0)));
        }
        let ordered = walk_execution_chain(&groups.entries[i].1);
        let mut found = collect_nullifiers(&ordered);
        nullifiers.append(&mut found);
        i += 1;
    }
    assert(keyed.take(keyed.len() as int) =~= keyed);
    nullifiers
}

fn collect_nullifiers(txs: &Vec<&RpcTransactionRecord>) -> (nullifiers: Vec<Nullifier>)
    ensures
        nullifiers@ == nullifiers_of(deref_txs(txs@)),
{
    let ghost all = deref_txs(txs@);
    let mut nullifiers: Vec<Nullifier> = Vec::new();
    let mut i: usize = 0;
    while i < txs.len()
        invariant
            i <= txs.len(),
            all == deref_txs(txs@),
            nullifiers@ == nullifiers_of(all.take(i as int)),
        decreases txs.len() - i,
    {
        proof {
            assert(all.take(i + 1).drop_last() =~= all.take(i as int));
            assert(all.take(i + 1).last() == *txs@[i as int]);
        }
        let mut notes = txs[i].input_notes.clone();
        assert(notes@ =~= txs@[i as int].input_notes@);
        nullifiers.append(&mut notes);
        i += 1;
    }
    assert(all.take(all.len() as int) =~= all);
    nullifiers
}

/// Whether every account's transactions in every block have a start. Without one they form a
/// cycle, and no order can be told.
pub fn check_starts(records: &Vec<RpcTransactionRecord>) -> (sound: bool)
    ensures
        sound == all_have_start(records@),
{
    let groups = group_txs_by_account_block(records);
    let ghost keyed = view_groups(groups.entries@);
    proof {
        lemma_view_groups_sorted(groups.entries@);
        lemma_groups_sorted(records@, keyed);
    }
    let mut i: usize = 0;
    while i < groups.entries.len()
        invariant
            i <= groups.entries.len(),
            keyed == view_groups(groups.entries@),
            forall|j: int|
                0 <= j < keyed.len() ==> (#[trigger] keyed[j]).1 == group_of(records@, keyed[j].0),
            forall|j: int| 0 <= j < i ==> has_start((#[trigger] keyed[j]).1),
        decreases groups.entries.len() - i,
    {
        assert(keyed[i as int].1 == deref_txs(groups.entries@[i as int].1@));
        let chained = select_txs(&groups.entries[i].1, false);
        assert(deref_txs(chained@).len() == chained@.len());
        if chained.len() > 0 && find_start(&chained).is_none() {
            assert(!has_start(group_of(records@, keyed[i as int].0)));
            return false;
        }
        i += 1;
    }
    proof {
        assert forall|key: AccountBlock| has_start(#[trigger] group_of(records@, key)) by {
            if group_of(records@, key).len() > 0 {
                assert(groups_of(records@).contains_key(key));
                lemma_group_position(records@, keyed, key);
                let j = choose|j: int| 0 <= j < keyed.len() && (#[trigger] keyed[j]).0 == key;
                assert(has_start(keyed[j].1));
            } else {
                reveal(Seq::filter);
            }
        }
    }
    true
}

// LAWS
// ================================================================================================

/// Whether some transactions follow one another: each starts where the one before it ends, and no
/// state is met twice.
pub open spec fn is_linear_chain(chain: Seq<RpcTransactionRecord>) -> bool {
    &&& forall|i: int, j: int|
        0 <= i < chain.len() && j == i + 1 && j < chain.len() ==> (
        #[trigger] chain[j]).initial_state_commitment == (#[trigger] chain[i]).final_state_commitment
    &&& forall|i: int, j: int|
        0 <= i < j < chain.len() ==> (#[trigger] chain[i]).initial_state_commitment != (
        #[trigger] chain[j]).initial_state_commitment
    &&& forall|i: int|
        0 <= i < chain.len() ==> (#[trigger] chain[i]).initial_state_commitment
            != chain.last().final_state_commitment
}

proof fn lemma_by_start_keys(txs: Seq<RpcTransactionRecord>)
    ensures
        forall|key: Word|
            txs_by_start(txs).contains_key(key) ==> (
            #[trigger] txs_by_start(txs)[key]).initial_state_commitment == key && txs.contains(
                txs_by_start(txs)[key],
            ),
    decreases txs.len(),
{
    if txs.len() > 0 {
        let before = txs.drop_last();
        lemma_by_start_keys(before);
        assert forall|key: Word| txs_by_start(txs).contains_key(key) implies (
        #[trigger] txs_by_start(txs)[key]).initial_state_commitment == key && txs.contains(
            txs_by_start(txs)[key],
        ) by {
            if key == txs.last().initial_state_commitment {
                assert(txs[txs.len() - 1] == txs.last());
            } else {
                assert(txs_by_start(before).contains_key(key));
                let i = choose|i: int|
                    0 <= i < before.len() && before[i] == txs_by_start(before)[key];
                assert(txs[i] == before[i]);
            }
        }
    }
}

/// Whether each transaction starts from the state in which the one before it ends.
pub open spec fn links(txs: Seq<RpcTransactionRecord>) -> bool {
    forall|i: int, j: int|
        0 <= i && j == i + 1 && j < txs.len() ==> (#[trigger] txs[j]).initial_state_commitment == (
        #[trigger] txs[i]).final_state_commitment
}

/// Whether a chain, from a position on, passes through a state.
pub open spec fn passes_through(
    chain: Seq<RpcTransactionRecord>,
    from: int,
    state: Word,
) -> bool {
    ||| state == chain.last().final_state_commitment
    ||| exists|k: int|
        from <= k < chain.len() && (#[trigger] chain[k]).initial_state_commitment == state
}

proof fn lemma_links_append(first: Seq<RpcTransactionRecord>, second: Seq<RpcTransactionRecord>)
    requires
        links(first),
        links(second),
        first.len() > 0 && second.len() > 0 ==> second[0].initial_state_commitment
            == first.last().final_state_commitment,
    ensures
        links(first + second),
{
    let both = first + second;
    assert forall|i: int, j: int| 0 <= i && j == i + 1 && j < both.len() implies (
    #[trigger] both[j]).initial_state_commitment == (#[trigger] both[i]).final_state_commitment by {
        if j < first.len() {
            assert(both[i] == first[i] && both[j] == first[j]);
        } else if i >= first.len() {
            assert(both[i] == second[i - first.len()] && both[j] == second[j - first.len()]);
        } else {
            assert(both[i] == first.last() && both[j] == second[0]);
        }
    }
}

/// What a filter keeps was there and meets the predicate.
pub(crate) proof fn lemma_filtered<A>(s: Seq<A>, p: spec_fn(A) -> bool)
    ensures
        forall|i: int|
            0 <= i < s.filter(p).len() ==> p(#[trigger] s.filter(p)[i]) && s.contains(
                s.filter(p)[i],
            ),
        forall|i: int| 0 <= i < s.len() && p(#[trigger] s[i]) ==> s.filter(p).contains(s[i]),
    decreases s.len(),
{
    reveal(Seq::filter);
    if s.len() > 0 {
        let before = s.drop_last();
        lemma_filtered(before, p);
        assert forall|i: int| 0 <= i < s.len() && p(#[trigger] s[i]) implies s.filter(p).contains(
            s[i],
        ) by {
            if i < before.len() {
                assert(before[i] == s[i]);
                let k = choose|k: int|
                    0 <= k < before.filter(p).len() && before.filter(p)[k] == s[i];
                assert(s.filter(p)[k] == s[i]);
            } else {
                assert(s.filter(p)[s.filter(p).len() - 1] == s[i]);
            }
        }
        assert forall|i: int| 0 <= i < s.filter(p).len() implies p(#[trigger] s.filter(p)[i])
            && s.contains(s.filter(p)[i]) by {
            if i < before.filter(p).len() {
                assert(s.filter(p)[i] == before.filter(p)[i]);
                let k = choose|k: int| 0 <= k < before.len() && before[k] == before.filter(p)[i];
                assert(s[k] == before[k]);
            } else {
                assert(s[s.len() - 1] == s.last());
            }
        }
    }
}

proof fn lemma_filters_partition<A>(s: Seq<A>, p: spec_fn(A) -> bool, q: spec_fn(A) -> bool)
    requires
        forall|a: A| #[trigger] p(a) != q(a),
    ensures
        s.to_multiset() == s.filter(p).to_multiset().add(s.filter(q).to_multiset()),
    decreases s.len(),
{
    reveal(Seq::filter);
    if s.len() == 0 {
        s.to_multiset_ensures();
        s.filter(p).to_multiset_ensures();
        s.filter(q).to_multiset_ensures();
        assert(s.filter(p) =~= s);
        assert(s.filter(q) =~= s);
        assert(s.to_multiset() =~= s.to_multiset().add(s.to_multiset()));
    } else {
        let before = s.drop_last();
        lemma_filters_partition(before, p, q);
        before.to_multiset_ensures();
        before.filter(p).to_multiset_ensures();
        before.filter(q).to_multiset_ensures();
        assert(s =~= before.push(s.last()));
        assert(p(s.last()) != q(s.last()));
        if p(s.last()) {
            assert(s.filter(p) == before.filter(p).push(s.last()));
        } else {
            assert(s.filter(q) == before.filter(q).push(s.last()));
        }
        assert(s.to_multiset() =~= s.filter(p).to_multiset().add(s.filter(q).to_multiset()));
    }
}

proof fn lemma_loops_part(loops: Seq<RpcTransactionRecord>, state: Word)
    requires
        forall|i: int| 0 <= i < loops.len() ==> is_self_loop(#[trigger] loops[i]),
    ensures
        loops.to_multiset() == loops_at(loops, state).to_multiset().add(
            loops_away(loops, state).to_multiset(),
        ),
        forall|i: int|
            0 <= i < loops_at(loops, state).len() ==> is_self_loop(
                #[trigger] loops_at(loops, state)[i],
            ) && loops_at(loops, state)[i].initial_state_commitment == state,
        forall|i: int|
            0 <= i < loops_away(loops, state).len() ==> is_self_loop(
                #[trigger] loops_away(loops, state)[i],
            ) && loops_away(loops, state)[i].initial_state_commitment != state && loops.contains(
                loops_away(loops, state)[i],
            ),
{
    let at = |tx: RpcTransactionRecord| tx.initial_state_commitment == state;
    let away = |tx: RpcTransactionRecord| tx.initial_state_commitment != state;
    lemma_filters_partition(loops, at, away);
    lemma_filtered(loops, at);
    lemma_filtered(loops, away);
}

/// What a walk from a position of a chain yields.
proof fn lemma_walk(
    by_start: Map<Word, RpcTransactionRecord>,
    loops: Seq<RpcTransactionRecord>,
    chain: Seq<RpcTransactionRecord>,
    from: int,
)
    requires
        by_start.dom().finite(),
        is_linear_chain(chain),
        0 <= from < chain.len(),
        forall|k: int|
            from <= k < chain.len() ==> by_start.contains_key(
                (#[trigger] chain[k]).initial_state_commitment,
            ) && by_start[chain[k].initial_state_commitment] == chain[k],
        !by_start.contains_key(chain.last().final_state_commitment),
        forall|i: int|
            0 <= i < loops.len() ==> is_self_loop(#[trigger] loops[i]) && passes_through(
                chain,
                from,
                loops[i].initial_state_commitment,
            ),
    ensures
        ({
            let walk = chain_from(by_start, loops, chain[from].initial_state_commitment);
            &&& links(walk)
            &&& walk.len() > 0
            &&& walk[0].initial_state_commitment == chain[from].initial_state_commitment
            &&& walk.last().final_state_commitment == chain.last().final_state_commitment
            &&& walk.to_multiset() == chain.skip(from).to_multiset().add(loops.to_multiset())
        }),
    decreases chain.len() - from,
{
    let tx = chain[from];
    let state = tx.initial_state_commitment;
    let next = tx.final_state_commitment;
    let left = by_start.remove(state);
    assert(left.dom() =~= by_start.dom().remove(state));
    let here = loops_at(loops, state);
    let rest = loops_away(loops, state);
    lemma_loops_part(loops, state);
    let step = seq![tx];
    let tail = chain_from(left, rest, next);
    let after = chain.skip(from + 1);
    assert(chain.skip(from) =~= step + after);
    assert forall|i: int| 0 <= i < rest.len() implies passes_through(
        chain,
        from + 1,
        (#[trigger] rest[i]).initial_state_commitment,
    ) by {
        let k = choose|k: int| 0 <= k < loops.len() && loops[k] == rest[i];
        assert(passes_through(chain, from, loops[k].initial_state_commitment));
    }
    if from + 1 < chain.len() {
        assert(chain[from + 1].initial_state_commitment == next);
        lemma_walk(left, rest, chain, from + 1);
    } else {
        assert(tx == chain.last());
        let ending = loops_at(rest, next);
        let stray = loops_away(rest, next);
        lemma_loops_part(rest, next);
        assert(stray.len() == 0) by {
            if stray.len() > 0 {
                assert(rest.contains(stray[0]));
                let k = choose|k: int| 0 <= k < rest.len() && rest[k] == stray[0];
                assert(passes_through(chain, from + 1, rest[k].initial_state_commitment));
            }
        }
        assert(tail =~= ending);
        stray.to_multiset_ensures();
        assert(stray.to_multiset() =~= vstd::multiset::Multiset::empty());
        assert(rest.to_multiset() =~= tail.to_multiset());
        assert(after =~= Seq::<RpcTransactionRecord>::empty());
        after.to_multiset_ensures();
        assert(after.to_multiset() =~= vstd::multiset::Multiset::empty());
        assert(tail.to_multiset() =~= after.to_multiset().add(rest.to_multiset()));
    }
    let walk = chain_from(by_start, loops, state);
    assert(walk == here + (step + tail));
    assert(links(here));
    lemma_links_append(step, tail);
    assert((step + tail)[0] == tx);
    lemma_links_append(here, step + tail);
    vstd::seq_lib::lemma_multiset_commutative(here, step + tail);
    vstd::seq_lib::lemma_multiset_commutative(step, tail);
    vstd::seq_lib::lemma_multiset_commutative(step, after);
    assert(walk.to_multiset() =~= chain.skip(from).to_multiset().add(loops.to_multiset()));
    if tail.len() > 0 {
        assert(walk.last() == tail.last());
    } else {
        assert(walk.last() == tx);
    }
}

/// What is known of transactions whose changes form a chain.
proof fn lemma_indexed_chain(txs: Seq<RpcTransactionRecord>, chain: Seq<RpcTransactionRecord>)
    requires
        is_linear_chain(chain),
        chain.len() > 0,
        txs.to_multiset() == chain.to_multiset(),
    ensures
        chain_start(txs, 0) == Some(chain[0].initial_state_commitment),
        txs_by_start(txs).dom().finite(),
        forall|k: int|
            0 <= k < chain.len() ==> txs_by_start(txs).contains_key(
                (#[trigger] chain[k]).initial_state_commitment,
            ) && txs_by_start(txs)[chain[k].initial_state_commitment] == chain[k],
        !txs_by_start(txs).contains_key(chain.last().final_state_commitment),
{
    txs.to_multiset_ensures();
    chain.to_multiset_ensures();
    assert forall|tx: RpcTransactionRecord| txs.contains(tx) == chain.contains(tx) by {
        assert(txs.contains(tx) <==> txs.to_multiset().count(tx) > 0);
        assert(chain.contains(tx) <==> chain.to_multiset().count(tx) > 0);
    }
    let first = chain[0];
    assert(chain.contains(first));
    assert forall|i: int| 0 <= i < txs.len() implies ends_in(
        txs,
        (#[trigger] txs[i]).initial_state_commitment,
    ) == (txs[i] != first) by {
        lemma_only_first_starts(txs, chain, i);
    }
    let at = choose|at: int| 0 <= at < txs.len() && txs[at] == first;
    lemma_start_found(txs, first, 0, at);
    let by_start = txs_by_start(txs);
    lemma_by_start_finite(txs);
    lemma_by_start_keys(txs);
    assert forall|k: int| 0 <= k < chain.len() implies by_start.contains_key(
        (#[trigger] chain[k]).initial_state_commitment,
    ) && by_start[chain[k].initial_state_commitment] == chain[k] by {
        assert(chain.contains(chain[k]));
        let i = choose|i: int| 0 <= i < txs.len() && txs[i] == chain[k];
        lemma_indexed(txs, i);
        let found = by_start[chain[k].initial_state_commitment];
        assert(txs.contains(found));
        let m = choose|m: int| 0 <= m < chain.len() && chain[m] == found;
        if m < k {
            assert(chain[m].initial_state_commitment != chain[k].initial_state_commitment);
        }
        if k < m {
            assert(chain[k].initial_state_commitment != chain[m].initial_state_commitment);
        }
    }
    assert forall|key: Word| by_start.contains_key(key) implies key
        != chain.last().final_state_commitment by {
        let found = by_start[key];
        assert(txs.contains(found));
        let m = choose|m: int| 0 <= m < chain.len() && chain[m] == found;
        assert(chain[m].initial_state_commitment != chain.last().final_state_commitment);
    }
}

/// However the transactions of one account in one block are listed, if those that change the
/// account form a chain and the others left it in a state of that chain, then the order of
/// execution holds each of them once, each starts from the state in which the one before it ends,
/// and the last ends in the state in which the chain ends.
pub proof fn law_execution_order_is_recovered(
    txs: Seq<RpcTransactionRecord>,
    chain: Seq<RpcTransactionRecord>,
)
    requires
        chain.len() > 0,
        is_linear_chain(chain),
        chained_txs(txs).to_multiset() == chain.to_multiset(),
        forall|i: int|
            0 <= i < txs.len() && is_self_loop(#[trigger] txs[i]) ==> passes_through(
                chain,
                0,
                txs[i].initial_state_commitment,
            ),
    ensures
        has_start(txs),
        links(execution_order(txs)),
        execution_order(txs).to_multiset() == txs.to_multiset(),
        terminal_state(txs) == chain.last().final_state_commitment,
{
    let chained = chained_txs(txs);
    let loops = self_loop_txs(txs);
    lemma_indexed_chain(chained, chain);
    let is_loop = |tx: RpcTransactionRecord| is_self_loop(tx);
    let is_chained = |tx: RpcTransactionRecord| !is_self_loop(tx);
    lemma_filtered(txs, is_loop);
    lemma_filters_partition(txs, is_chained, is_loop);
    assert forall|i: int| 0 <= i < loops.len() implies is_self_loop(#[trigger] loops[i])
        && passes_through(chain, 0, loops[i].initial_state_commitment) by {
        assert(txs.contains(loops[i]));
        let k = choose|k: int| 0 <= k < txs.len() && txs[k] == loops[i];
        assert(is_self_loop(txs[k]));
    }
    lemma_walk(txs_by_start(chained), loops, chain, 0);
    assert(chain.skip(0) =~= chain);
}

/// However the transactions of a chain are listed, their execution order is the chain.
pub proof fn law_chain_is_recovered(
    txs: Seq<RpcTransactionRecord>,
    chain: Seq<RpcTransactionRecord>,
)
    requires
        is_linear_chain(chain),
        txs.to_multiset() == chain.to_multiset(),
    ensures
        has_start(txs),
        execution_order(txs) == chain,
{
    txs.to_multiset_ensures();
    chain.to_multiset_ensures();
    assert forall|tx: RpcTransactionRecord| txs.contains(tx) == chain.contains(tx) by {
        assert(txs.contains(tx) <==> txs.to_multiset().count(tx) > 0);
        assert(chain.contains(tx) <==> chain.to_multiset().count(tx) > 0);
    }
    assert(txs.len() == chain.len());
    assert forall|i: int| 0 <= i < txs.len() implies !is_self_loop(#[trigger] txs[i]) by {
        assert(txs.contains(txs[i]));
        let k = choose|k: int| 0 <= k < chain.len() && chain[k] == txs[i];
        if k + 1 < chain.len() {
            assert(chain[k + 1].initial_state_commitment == chain[k].final_state_commitment);
        } else {
            assert(chain[k] == chain.last());
        }
    }
    lemma_no_self_loops(txs);
    let loops = self_loop_txs(txs);
    assert(loops =~= Seq::empty());
    if chain.len() == 0 {
        assert(txs =~= chain);
        assert(execution_order(txs) =~= chain);
    } else {
        lemma_indexed_chain(txs, chain);
        lemma_chain_walked(txs_by_start(txs), chain, 0);
        assert(chain.skip(0) =~= chain);
    }
}

proof fn lemma_no_self_loops(txs: Seq<RpcTransactionRecord>)
    requires
        forall|i: int| 0 <= i < txs.len() ==> !is_self_loop(#[trigger] txs[i]),
    ensures
        chained_txs(txs) == txs,
        self_loop_txs(txs).len() == 0,
    decreases txs.len(),
{
    reveal(Seq::filter);
    if txs.len() > 0 {
        let before = txs.drop_last();
        assert forall|i: int| 0 <= i < before.len() implies !is_self_loop(#[trigger] before[i]) by {
            assert(before[i] == txs[i]);
        }
        lemma_no_self_loops(before);
        assert(!is_self_loop(txs[txs.len() - 1]));
        assert(chained_txs(txs) =~= txs);
    } else {
        assert(chained_txs(txs) =~= txs);
    }
}

proof fn lemma_only_first_starts(
    txs: Seq<RpcTransactionRecord>,
    chain: Seq<RpcTransactionRecord>,
    i: int,
)
    requires
        is_linear_chain(chain),
        forall|tx: RpcTransactionRecord| txs.contains(tx) == chain.contains(tx),
        0 <= i < txs.len(),
        chain.len() > 0,
    ensures
        ends_in(txs, txs[i].initial_state_commitment) == (txs[i] != chain[0]),
{
    assert(txs.contains(txs[i]));
    let k = choose|k: int| 0 <= k < chain.len() && chain[k] == txs[i];
    if txs[i] != chain[0] {
        assert(chain.contains(chain[k - 1]));
        let p = choose|p: int| 0 <= p < txs.len() && txs[p] == chain[k - 1];
        assert(chain[k].initial_state_commitment == chain[k - 1].final_state_commitment);
        assert(txs[p].final_state_commitment == txs[i].initial_state_commitment);
    } else if ends_in(txs, txs[i].initial_state_commitment) {
        let p = choose|p: int|
            0 <= p < txs.len() && (#[trigger] txs[p]).final_state_commitment
                == txs[i].initial_state_commitment;
        assert(txs.contains(txs[p]));
        let m = choose|m: int| 0 <= m < chain.len() && chain[m] == txs[p];
        if m + 1 < chain.len() {
            assert(chain[m + 1].initial_state_commitment == chain[m].final_state_commitment);
            assert(chain[0].initial_state_commitment != chain[m + 1].initial_state_commitment);
        } else {
            assert(chain[m] == chain.last());
        }
    }
}

proof fn lemma_start_found(
    txs: Seq<RpcTransactionRecord>,
    first: RpcTransactionRecord,
    from: int,
    at: int,
)
    requires
        0 <= from <= at < txs.len(),
        txs[at] == first,
        forall|i: int|
            0 <= i < txs.len() ==> ends_in(txs, (#[trigger] txs[i]).initial_state_commitment) == (
            txs[i] != first),
    ensures
        chain_start(txs, from) == Some(first.initial_state_commitment),
    decreases at - from,
{
    if txs[from] != first {
        lemma_start_found(txs, first, from + 1, at);
    }
}

proof fn lemma_chain_walked(
    by_start: Map<Word, RpcTransactionRecord>,
    chain: Seq<RpcTransactionRecord>,
    from: int,
)
    requires
        by_start.dom().finite(),
        is_linear_chain(chain),
        0 <= from < chain.len(),
        forall|k: int|
            from <= k < chain.len() ==> by_start.contains_key(
                (#[trigger] chain[k]).initial_state_commitment,
            ) && by_start[chain[k].initial_state_commitment] == chain[k],
        !by_start.contains_key(chain.last().final_state_commitment),
    ensures
        chain_from(by_start, Seq::empty(), chain[from].initial_state_commitment) == chain.skip(
            from,
        ),
    decreases chain.len() - from,
{
    let none = Seq::<RpcTransactionRecord>::empty();
    assert forall|state: Word| #[trigger] loops_at(none, state) == none && loops_away(none, state)
        == none by {
        reveal(Seq::filter);
    }
    let state = chain[from].initial_state_commitment;
    let rest = by_start.remove(state);
    assert(rest.dom() =~= by_start.dom().remove(state));
    if from + 1 < chain.len() {
        assert(chain[from + 1].initial_state_commitment == chain[from].final_state_commitment);
        lemma_chain_walked(rest, chain, from + 1);
        assert(chain.skip(from) =~= seq![chain[from]] + chain.skip(from + 1));
    } else {
        assert(chain[from] == chain.last());
        assert(loops_at(none, chain[from].final_state_commitment) == none);
        assert(chain_from(rest, none, chain[from].final_state_commitment) =~= none);
        assert(chain.skip(from) =~= seq![chain[from]] + none);
    }
    assert(loops_at(none, state) == none);
    assert(none + chain.skip(from) =~= chain.skip(from));
}

/// A transaction of an earlier block than an account's latest does not change what is derived for
/// any account.
pub proof fn law_earlier_blocks_do_not_matter(
    records: Seq<RpcTransactionRecord>,
    tx: RpcTransactionRecord,
)
    requires
        latest_block(records, tx.account_id) matches Some(latest) && tx.block_num < latest,
    ensures
        account_commitments(records.push(tx)) == account_commitments(records),
{
    let grown = records.push(tx);
    assert(grown.drop_last() =~= records);
    assert forall|account_id: AccountId| latest_block(grown, account_id) == latest_block(
        records,
        account_id,
    ) by {}
    assert forall|account_id: AccountId| account_commitments(records).contains_key(account_id) implies
    account_commitments(grown)[account_id] == account_commitments(records)[account_id] by {
        let block_num = latest_block(records, account_id).unwrap();
        lemma_group_push(records, tx, AccountBlock { account_id, block_num });
    }
    assert(account_commitments(grown) =~= account_commitments(records));
}

/// Whatever a walk yields was to be walked over, and no transaction that leaves its account as it was
/// is lost on the way.
proof fn lemma_walk_members(
    by_start: Map<Word, RpcTransactionRecord>,
    loops: Seq<RpcTransactionRecord>,
    state: Word,
)
    requires
        by_start.dom().finite(),
    ensures
        forall|i: int|
            0 <= i < chain_from(by_start, loops, state).len() ==> by_start.contains_value(
                #[trigger] chain_from(by_start, loops, state)[i],
            ) || loops.contains(chain_from(by_start, loops, state)[i]),
        forall|i: int|
            0 <= i < loops.len() ==> chain_from(by_start, loops, state).contains(
                #[trigger] loops[i],
            ),
    decreases by_start.dom().len(),
{
    let walk = chain_from(by_start, loops, state);
    let here = loops_at(loops, state);
    let rest = loops_away(loops, state);
    let at = |tx: RpcTransactionRecord| tx.initial_state_commitment == state;
    let away = |tx: RpcTransactionRecord| tx.initial_state_commitment != state;
    lemma_filtered(loops, at);
    lemma_filtered(loops, away);
    if by_start.contains_key(state) {
        let tx = by_start[state];
        let left = by_start.remove(state);
        assert(left.dom() =~= by_start.dom().remove(state));
        let tail = chain_from(left, rest, tx.final_state_commitment);
        lemma_walk_members(left, rest, tx.final_state_commitment);
        assert(walk == here + (seq![tx] + tail));
        assert forall|i: int| 0 <= i < walk.len() implies by_start.contains_value(
            #[trigger] walk[i],
        ) || loops.contains(walk[i]) by {
            if i < here.len() {
                assert(walk[i] == here[i]);
            } else if i == here.len() {
                assert(walk[i] == tx);
            } else {
                let t = tail[i - here.len() - 1];
                assert(walk[i] == t);
                if left.contains_value(t) {
                    let key = choose|key: Word| left.contains_key(key) && #[trigger] left[key] == t;
                    assert(by_start.contains_key(key) && by_start[key] == t);
                } else {
                    let k = choose|k: int| 0 <= k < rest.len() && rest[k] == t;
                    assert(loops.contains(rest[k]));
                }
            }
        }
        assert forall|i: int| 0 <= i < loops.len() implies walk.contains(#[trigger] loops[i]) by {
            if at(loops[i]) {
                let k = choose|k: int| 0 <= k < here.len() && here[k] == loops[i];
                assert(walk[k] == loops[i]);
            } else {
                assert(away(loops[i]));
                let k = choose|k: int| 0 <= k < rest.len() && rest[k] == loops[i];
                assert(tail.contains(rest[k]));
                let m = choose|m: int| 0 <= m < tail.len() && tail[m] == rest[k];
                assert(walk[here.len() + 1 + m] == loops[i]);
            }
        }
    } else {
        assert(walk == here + rest);
        assert forall|i: int| 0 <= i < walk.len() implies by_start.contains_value(
            #[trigger] walk[i],
        ) || loops.contains(walk[i]) by {
            if i < here.len() {
                assert(walk[i] == here[i]);
            } else {
                assert(walk[i] == rest[i - here.len()]);
            }
        }
        assert forall|i: int| 0 <= i < loops.len() implies walk.contains(#[trigger] loops[i]) by {
            if at(loops[i]) {
                let k = choose|k: int| 0 <= k < here.len() && here[k] == loops[i];
                assert(walk[k] == loops[i]);
            } else {
                assert(away(loops[i]));
                let k = choose|k: int| 0 <= k < rest.len() && rest[k] == loops[i];
                assert(walk[here.len() + k] == loops[i]);
            }
        }
    }
}

/// The order of execution lists none but the given transactions, and each of those that leave their
/// account as it was.
pub proof fn law_order_lists_the_given(txs: Seq<RpcTransactionRecord>)
    ensures
        forall|i: int|
            0 <= i < execution_order(txs).len() ==> txs.contains(
                #[trigger] execution_order(txs)[i],
            ),
        forall|i: int|
            0 <= i < txs.len() && (#[trigger] txs[i]).initial_state_commitment
                == txs[i].final_state_commitment ==> execution_order(txs).contains(txs[i]),
{
    let order = execution_order(txs);
    let chained = chained_txs(txs);
    let loops = self_loop_txs(txs);
    let is_loop = |tx: RpcTransactionRecord| is_self_loop(tx);
    let is_chained = |tx: RpcTransactionRecord| !is_self_loop(tx);
    lemma_filtered(txs, is_loop);
    lemma_filtered(txs, is_chained);
    lemma_by_start_finite(chained);
    lemma_by_start_keys(chained);
    if let Some(state) = chain_start(chained, 0) {
        lemma_walk_members(txs_by_start(chained), loops, state);
        assert forall|i: int| 0 <= i < order.len() implies txs.contains(#[trigger] order[i]) by {
            if loops.contains(order[i]) {
                let k = choose|k: int| 0 <= k < loops.len() && loops[k] == order[i];
                assert(txs.contains(loops[k]));
            } else {
                let by_start = txs_by_start(chained);
                let key = choose|key: Word|
                    by_start.contains_key(key) && #[trigger] by_start[key] == order[i];
                assert(chained.contains(by_start[key]));
                let k = choose|k: int| 0 <= k < chained.len() && chained[k] == order[i];
                assert(txs.contains(chained[k]));
            }
        }
    } else {
        assert forall|i: int| 0 <= i < order.len() implies txs.contains(#[trigger] order[i]) by {
            assert(order[i] == loops[i]);
        }
    }
    assert forall|i: int|
        0 <= i < txs.len() && (#[trigger] txs[i]).initial_state_commitment
            == txs[i].final_state_commitment implies order.contains(txs[i]) by {
        assert(is_loop(txs[i]));
        let k = choose|k: int| 0 <= k < loops.len() && loops[k] == txs[i];
        if chain_start(chained, 0) is Some {
            assert(order.contains(loops[k]));
        } else {
            assert(order[k] == loops[k]);
        }
    }
}

/// The nullifiers of some transactions are, for any one of them, those of the transactions before
/// it, its own in their order, and those of the transactions behind it.
pub proof fn law_nullifiers_stand_in_order(txs: Seq<RpcTransactionRecord>, i: int)
    requires
        0 <= i < txs.len(),
    ensures
        nullifiers_of(txs) == nullifiers_of(txs.take(i)) + txs[i].input_notes@ + nullifiers_of(
            txs.skip(i + 1),
        ),
    decreases txs.len(),
{
    let before = txs.drop_last();
    if i < before.len() {
        law_nullifiers_stand_in_order(before, i);
        assert(before.take(i) =~= txs.take(i));
        assert(txs.skip(i + 1).drop_last() =~= before.skip(i + 1));
        assert(txs.skip(i + 1).last() == txs.last());
        assert(nullifiers_of(txs) =~= nullifiers_of(txs.take(i)) + txs[i].input_notes@
            + nullifiers_of(txs.skip(i + 1)));
    } else {
        assert(txs.take(i) =~= before);
        assert(txs.skip(i + 1).len() == 0);
        assert(nullifiers_of(txs.skip(i + 1)) =~= Seq::empty());
        assert(nullifiers_of(txs) =~= nullifiers_of(txs.take(i)) + txs[i].input_notes@
            + nullifiers_of(txs.skip(i + 1)));
    }
}

/// The nullifiers of some groups are, for any one of them, those of the groups before it, its own in
/// the order of execution, and those of the groups behind it.
pub proof fn law_groups_stand_in_order(
    groups: Seq<(AccountBlock, Seq<RpcTransactionRecord>)>,
    i: int,
)
    requires
        0 <= i < groups.len(),
    ensures
        group_nullifiers(groups) == group_nullifiers(groups.take(i)) + nullifiers_of(
            execution_order(groups[i].1),
        ) + group_nullifiers(groups.skip(i + 1)),
    decreases groups.len(),
{
    let before = groups.drop_last();
    let own = nullifiers_of(execution_order(groups[i].1));
    if i < before.len() {
        law_groups_stand_in_order(before, i);
        assert(before.take(i) =~= groups.take(i));
        assert(groups.skip(i + 1).drop_last() =~= before.skip(i + 1));
        assert(groups.skip(i + 1).last() == groups.last());
        assert(group_nullifiers(groups) =~= group_nullifiers(groups.take(i)) + own
            + group_nullifiers(groups.skip(i + 1)));
    } else {
        assert(groups.take(i) =~= before);
        assert(groups.skip(i + 1).len() == 0);
        assert(group_nullifiers(groups.skip(i + 1)) =~= Seq::empty());
        assert(group_nullifiers(groups) =~= group_nullifiers(groups.take(i)) + own
            + group_nullifiers(groups.skip(i + 1)));
    }
}

/// The nullifiers of a transaction are listed where the order of execution of its group has the
/// transaction, as it has on a genuine chain.
pub proof fn law_consumed_notes_are_listed(
    records: Seq<RpcTransactionRecord>,
    k: int,
    n: int,
)
    requires
        0 <= k < records.len(),
        0 <= n < records[k].input_notes@.len(),
        execution_order(
            group_of(
                records,
                AccountBlock { account_id: records[k].account_id, block_num: records[k].block_num },
            ),
        ).contains(records[k]),
    ensures
        group_nullifiers(ordered_entries(groups_of(records))).contains(
            records[k].input_notes@[n],
        ),
{
    let key = AccountBlock { account_id: records[k].account_id, block_num: records[k].block_num };
    let group = group_of(records, key);
    let keep = |tx: RpcTransactionRecord|
        tx.account_id == key.account_id && tx.block_num == key.block_num;
    lemma_filtered(records, keep);
    assert(keep(records[k]));
    assert(group.contains(records[k]));
    assert(group.len() > 0);
    lemma_groups_in_order(records);
    let groups = ordered_entries(groups_of(records));
    assert(groups_of(records).contains_key(key));
    assert(has_key(groups, key));
    let g = choose|g: int| 0 <= g < groups.len() && (#[trigger] groups[g]).0 == key;
    lemma_entry_in_map(groups, g);
    assert(groups[g].1 == group);
    let order = execution_order(group);
    let m = choose|m: int| 0 <= m < order.len() && order[m] == records[k];
    law_nullifiers_stand_in_order(order, m);
    law_groups_stand_in_order(groups, g);
    let own = nullifiers_of(order);
    let p = nullifiers_of(order.take(m)).len() + n;
    assert(own[p as int] == records[k].input_notes@[n]);
    let all = group_nullifiers(groups);
    let q = group_nullifiers(groups.take(g)).len() + p;
    assert(all[q as int] == own[p as int]);
}

/// Every nullifier that is listed is that of an input note of one of the transactions.
pub proof fn law_listed_notes_are_consumed(
    records: Seq<RpcTransactionRecord>,
    nullifier: Nullifier,
)
    requires
        group_nullifiers(ordered_entries(groups_of(records))).contains(nullifier),
    ensures
        exists|k: int|
            0 <= k < records.len() && (#[trigger] records[k]).input_notes@.contains(nullifier),
{
    lemma_groups_in_order(records);
    let groups = ordered_entries(groups_of(records));
    lemma_nullifier_is_of_a_group(groups, nullifier);
    let g = choose|g: int|
        0 <= g < groups.len() && nullifiers_of(execution_order((#[trigger] groups[g]).1)).contains(
            nullifier,
        );
    lemma_entry_in_map(groups, g);
    let key = groups[g].0;
    let group = group_of(records, key);
    assert(groups[g].1 == group);
    let order = execution_order(group);
    lemma_nullifier_is_of_a_tx(order, nullifier);
    let m = choose|m: int|
        0 <= m < order.len() && (#[trigger] order[m]).input_notes@.contains(nullifier);
    law_order_lists_the_given(group);
    assert(group.contains(order[m]));
    let keep = |tx: RpcTransactionRecord|
        tx.account_id == key.account_id && tx.block_num == key.block_num;
    lemma_filtered(records, keep);
    let j = choose|j: int| 0 <= j < group.len() && group[j] == order[m];
    assert(records.contains(group[j]));
    let k = choose|k: int| 0 <= k < records.len() && records[k] == group[j];
    assert(records[k].input_notes@.contains(nullifier));
}

proof fn lemma_nullifier_is_of_a_tx(txs: Seq<RpcTransactionRecord>, nullifier: Nullifier)
    requires
        nullifiers_of(txs).contains(nullifier),
    ensures
        exists|m: int| 0 <= m < txs.len() && (#[trigger] txs[m]).input_notes@.contains(nullifier),
    decreases txs.len(),
{
    let before = txs.drop_last();
    let earlier = nullifiers_of(before);
    let all = nullifiers_of(txs);
    let p = choose|p: int| 0 <= p < all.len() && all[p] == nullifier;
    if p < earlier.len() {
        assert(earlier[p] == nullifier);
        lemma_nullifier_is_of_a_tx(before, nullifier);
        let m = choose|m: int|
            0 <= m < before.len() && (#[trigger] before[m]).input_notes@.contains(nullifier);
        assert(txs[m] == before[m]);
    } else {
        assert(txs.last().input_notes@[p - earlier.len()] == nullifier);
        assert(txs[txs.len() - 1] == txs.last());
    }
}

proof fn lemma_nullifier_is_of_a_group(
    groups: Seq<(AccountBlock, Seq<RpcTransactionRecord>)>,
    nullifier: Nullifier,
)
    requires
        group_nullifiers(groups).contains(nullifier),
    ensures
        exists|g: int|
            0 <= g < groups.len() && nullifiers_of(
                execution_order((#[trigger] groups[g]).1),
            ).contains(nullifier),
    decreases groups.len(),
{
    let before = groups.drop_last();
    let earlier = group_nullifiers(before);
    let all = group_nullifiers(groups);
    let p = choose|p: int| 0 <= p < all.len() && all[p] == nullifier;
    if p < earlier.len() {
        assert(earlier[p] == nullifier);
        lemma_nullifier_is_of_a_group(before, nullifier);
        let g = choose|g: int|
            0 <= g < before.len() && nullifiers_of(
                execution_order((#[trigger] before[g]).1),
            ).contains(nullifier);
        assert(groups[g] == before[g]);
    } else {
        let own = nullifiers_of(execution_order(groups.last().1));
        assert(own[p - earlier.len()] == nullifier);
        assert(groups[groups.len() - 1] == groups.last());
    }
}

/// The latest block of an account is one with a transaction of the account, and none of its
/// transactions is in a later one.
pub proof fn law_latest_block_is_the_last(
    records: Seq<RpcTransactionRecord>,
    account_id: AccountId,
)
    ensures
        match latest_block(records, account_id) {
            Some(latest) => (exists|i: int|
                0 <= i < records.len() && (#[trigger] records[i]).account_id == account_id
                    && records[i].block_num == latest) && forall|i: int|
                0 <= i < records.len() && (#[trigger] records[i]).account_id == account_id
                    ==> records[i].block_num <= latest,
            None => forall|i: int|
                0 <= i < records.len() ==> (#[trigger] records[i]).account_id != account_id,
        },
    decreases records.len(),
{
    if records.len() > 0 {
        let before = records.drop_last();
        law_latest_block_is_the_last(before, account_id);
        assert(records[records.len() - 1] == records.last());
        assert forall|i: int| 0 <= i < before.len() implies #[trigger] records[i] == before[i] by {}
        if let Some(earlier) = latest_block(before, account_id) {
            let i = choose|i: int|
                0 <= i < before.len() && (#[trigger] before[i]).account_id == account_id
                    && before[i].block_num == earlier;
            assert(records[i].block_num == earlier);
        }
    }
}

/// An account with transactions ends in the state in which the chain of its latest block's
/// transactions ends, however they are listed.
pub proof fn law_account_ends_where_its_chain_ends(
    records: Seq<RpcTransactionRecord>,
    account_id: AccountId,
    block_num: BlockNumber,
    chain: Seq<RpcTransactionRecord>,
)
    requires
        forall|i: int|
            0 <= i < records.len() && (#[trigger] records[i]).account_id == account_id
                ==> records[i].block_num <= block_num,
        exists|i: int|
            0 <= i < records.len() && (#[trigger] records[i]).account_id == account_id
                && records[i].block_num == block_num,
        chain.len() > 0,
        is_linear_chain(chain),
        chained_txs(group_of(records, AccountBlock { account_id, block_num })).to_multiset()
            == chain.to_multiset(),
        forall|i: int|
            0 <= i < records.len() && (#[trigger] records[i]).account_id == account_id
                && records[i].block_num == block_num && records[i].initial_state_commitment
                == records[i].final_state_commitment ==> passes_through(
                chain,
                0,
                records[i].initial_state_commitment,
            ),
    ensures
        account_commitments(records).contains_key(account_id),
        account_commitments(records)[account_id] == chain.last().final_state_commitment,
{
    law_latest_block_is_the_last(records, account_id);
    let key = AccountBlock { account_id, block_num };
    let group = group_of(records, key);
    let keep = |tx: RpcTransactionRecord|
        tx.account_id == key.account_id && tx.block_num == key.block_num;
    lemma_filtered(records, keep);
    assert forall|i: int| 0 <= i < group.len() && is_self_loop(
        #[trigger] group[i],
    ) implies passes_through(chain, 0, group[i].initial_state_commitment) by {
        assert(keep(group[i]));
        let k = choose|k: int| 0 <= k < records.len() && records[k] == group[i];
        assert(records[k].account_id == account_id);
    }
    law_execution_order_is_recovered(group, chain);
    assert(latest_block(records, account_id) == Some(block_num));
}

/// An account has a commitment exactly where it has transactions.
pub proof fn law_accounts_with_transactions_have_commitments(
    records: Seq<RpcTransactionRecord>,
    account_id: AccountId,
)
    ensures
        account_commitments(records).contains_key(account_id) <==> exists|i: int|
            0 <= i < records.len() && (#[trigger] records[i]).account_id == account_id,
{
    law_latest_block_is_the_last(records, account_id);
}

/// Transactions that change their account have a start exactly where one of them starts from a state
/// that none of them ends in; they start from the state of the first such one.
pub proof fn law_start_is_no_result(txs: Seq<RpcTransactionRecord>, from: int)
    requires
        0 <= from <= txs.len(),
    ensures
        match chain_start(txs, from) {
            Some(state) => exists|i: int|
                from <= i < txs.len() && (#[trigger] txs[i]).initial_state_commitment == state
                    && !ends_in(txs, state) && forall|j: int|
                    from <= j < i ==> ends_in(txs, (#[trigger] txs[j]).initial_state_commitment),
            None => forall|j: int|
                from <= j < txs.len() ==> ends_in(
                    txs,
                    (#[trigger] txs[j]).initial_state_commitment,
                ),
        },
    decreases txs.len() - from,
{
    if from < txs.len() {
        law_start_is_no_result(txs, from + 1);
        if !ends_in(txs, txs[from].initial_state_commitment) {
            assert(txs[from].initial_state_commitment == chain_start(txs, from).unwrap());
        } else if let Some(state) = chain_start(txs, from + 1) {
            let i = choose|i: int|
                from + 1 <= i < txs.len() && (#[trigger] txs[i]).initial_state_commitment == state
                    && !ends_in(txs, state) && forall|j: int|
                    from + 1 <= j < i ==> ends_in(
                        txs,
                        (#[trigger] txs[j]).initial_state_commitment,
                    );
            assert(txs[i].initial_state_commitment == state);
            assert forall|j: int| from <= j < i implies ends_in(
                txs,
                (#[trigger] txs[j]).initial_state_commitment,
            ) by {}
        }
    }
}

/// A state leads on to the last of the transactions that start from it.
pub proof fn law_last_from_a_state_counts(txs: Seq<RpcTransactionRecord>, i: int)
    requires
        0 <= i < txs.len(),
        forall|j: int|
            i < j < txs.len() ==> (#[trigger] txs[j]).initial_state_commitment
                != txs[i].initial_state_commitment,
    ensures
        txs_by_start(txs).contains_pair(txs[i].initial_state_commitment, txs[i]),
    decreases txs.len(),
{
    let before = txs.drop_last();
    if i < before.len() {
        assert forall|j: int| i < j < before.len() implies (
        #[trigger] before[j]).initial_state_commitment != before[i].initial_state_commitment by {
            assert(before[j] == txs[j]);
        }
        law_last_from_a_state_counts(before, i);
        assert(txs[txs.len() - 1].initial_state_commitment != txs[i].initial_state_commitment);
    }
}

/// The groups are by account and block: a transaction is in the group of its own, and in no other.
pub proof fn law_transactions_are_grouped(records: Seq<RpcTransactionRecord>, key: AccountBlock)
    ensures
        forall|i: int|
            0 <= i < group_of(records, key).len() ==> {
                let tx = #[trigger] group_of(records, key)[i];
                records.contains(tx) && tx.account_id == key.account_id && tx.block_num
                    == key.block_num
            },
        forall|k: int|
            0 <= k < records.len() && (#[trigger] records[k]).account_id == key.account_id
                && records[k].block_num == key.block_num ==> group_of(records, key).contains(
                records[k],
            ) && groups_of(records).contains_key(key),
{
    let keep = |tx: RpcTransactionRecord|
        tx.account_id == key.account_id && tx.block_num == key.block_num;
    lemma_filtered(records, keep);
    assert forall|i: int| 0 <= i < group_of(records, key).len() implies {
        let tx = #[trigger] group_of(records, key)[i];
        records.contains(tx) && tx.account_id == key.account_id && tx.block_num == key.block_num
    } by {
        assert(keep(group_of(records, key)[i]));
    }
    assert forall|k: int|
        0 <= k < records.len() && (#[trigger] records[k]).account_id == key.account_id
            && records[k].block_num == key.block_num implies group_of(records, key).contains(
        records[k],
    ) && groups_of(records).contains_key(key) by {
        assert(keep(records[k]));
        assert(group_of(records, key).len() > 0);
    }
}

/// The transactions of a group stand in the order in which they were given.
pub proof fn law_groups_keep_their_order(
    first: Seq<RpcTransactionRecord>,
    second: Seq<RpcTransactionRecord>,
    key: AccountBlock,
)
    ensures
        group_of(first + second, key) == group_of(first, key) + group_of(second, key),
{
    Seq::filter_distributes_over_add(
        first,
        second,
        |tx: RpcTransactionRecord|
            tx.account_id == key.account_id && tx.block_num == key.block_num,
    );
}

/// Transactions that change their account, and transactions that leave it as it was, in a state or in
/// another, stand in the order in which they were given.
pub proof fn law_kinds_keep_their_order(
    first: Seq<RpcTransactionRecord>,
    second: Seq<RpcTransactionRecord>,
    state: Word,
)
    ensures
        chained_txs(first + second) == chained_txs(first) + chained_txs(second),
        self_loop_txs(first + second) == self_loop_txs(first) + self_loop_txs(second),
        loops_at(first + second, state) == loops_at(first, state) + loops_at(second, state),
        loops_away(first + second, state) == loops_away(first, state) + loops_away(second, state),
{
    Seq::filter_distributes_over_add(first, second, |tx: RpcTransactionRecord| !is_self_loop(tx));
    Seq::filter_distributes_over_add(first, second, |tx: RpcTransactionRecord| is_self_loop(tx));
    Seq::filter_distributes_over_add(
        first,
        second,
        |tx: RpcTransactionRecord| tx.initial_state_commitment == state,
    );
    Seq::filter_distributes_over_add(
        first,
        second,
        |tx: RpcTransactionRecord| tx.initial_state_commitment != state,
    );
}

/// Where every transaction leaves its account as it was, they were executed in the order in which
/// they were given.
pub proof fn law_idle_transactions_keep_their_order(txs: Seq<RpcTransactionRecord>)
    requires
        forall|i: int|
            0 <= i < txs.len() ==> (#[trigger] txs[i]).initial_state_commitment
                == txs[i].final_state_commitment,
    ensures
        has_start(txs),
        execution_order(txs) == txs,
{
    lemma_idle(txs);
}

proof fn lemma_idle(txs: Seq<RpcTransactionRecord>)
    requires
        forall|i: int|
            0 <= i < txs.len() ==> (#[trigger] txs[i]).initial_state_commitment
                == txs[i].final_state_commitment,
    ensures
        chained_txs(txs).len() == 0,
        self_loop_txs(txs) == txs,
    decreases txs.len(),
{
    reveal(Seq::filter);
    if txs.len() > 0 {
        let before = txs.drop_last();
        assert forall|i: int| 0 <= i < before.len() implies (
        #[trigger] before[i]).initial_state_commitment == before[i].final_state_commitment by {
            assert(before[i] == txs[i]);
        }
        lemma_idle(before);
        assert(txs[txs.len() - 1] == txs.last());
        assert(txs =~= before.push(txs.last()));
    } else {
        assert(self_loop_txs(txs) =~= txs);
    }
}

} // verus!

//! What a sync adds to the part of the chain that a client keeps.
use miden_protocol::crypto::merkle::mmr::PartialMmr;
use vstd::arithmetic::power2::{lemma_pow2_strictly_increases, lemma_pow2_unfold, pow2};
use vstd::prelude::*;

use super::error::{ChainValidationError, SyncError};
use super::execution::lemma_filtered;
use super::validation::planned_fetch;
use crate::block::{BlockHeader, HeaderView};
use crate::mmr::{
    accounts_for, add_leaf, added_leaf, applied_delta, apply_delta, commit_to_peaks, copy_mmr,
    follow_leaf, followed_leaf, is_followed, lists_node, max_leaves, mmr_leaves, mmr_leaves_of,
    mmr_nodes, mmr_nodes_of, mmr_peaks, mmr_view_of, peaks_commitment_of, stands_before_tree,
    MmrDelta, MmrPeaks, MmrView, PeaksView,
};
use crate::primitives::{BlockNumber, Word};
use crate::rpc::note::NoteSyncBlock;
use crate::sorted_map::{
    as_map, has_key, lemma_entry_in_map, lemma_ordered_entries, lemma_ordered_entries_exist,
    ordered_entries, sorted, Key, SortedMap,
};

verus! {

// PARTIAL BLOCKCHAIN UPDATES
// ================================================================================================

/// The block headers, authentication nodes and peaks that a client has to store after a sync.
#[derive(Debug)]
pub struct PartialBlockchainUpdates {
    /// The headers by block number, each with whether the block holds notes of the client.
    pub(crate) block_headers: SortedMap<BlockNumber, (BlockHeader, bool)>,
    /// The authentication nodes by their in-order indices.
    pub(crate) new_authentication_nodes: Vec<(usize, Word)>,
    /// The peaks at the new sync height.
    pub new_peaks: MmrPeaks,
}

/// What [`PartialBlockchainUpdates`] hold.
#[verifier::ext_equal]
pub ghost struct ChainUpdatesView {
    pub block_headers: Map<BlockNumber, (HeaderView, bool)>,
    pub new_authentication_nodes: Seq<(usize, Word)>,
    pub new_peaks: PeaksView,
}

/// Headers as their views.
pub open spec fn view_headers(headers: Map<BlockNumber, (BlockHeader, bool)>) -> Map<
    BlockNumber,
    (HeaderView, bool),
> {
    headers.map_values(|entry: (BlockHeader, bool)| (entry.0@, entry.1))
}

impl View for PartialBlockchainUpdates {
    type V = ChainUpdatesView;

    closed spec fn view(&self) -> ChainUpdatesView {
        ChainUpdatesView {
            block_headers: view_headers(self.block_headers@),
            new_authentication_nodes: self.new_authentication_nodes@,
            new_peaks: self.new_peaks@,
        }
    }
}

impl ChainUpdatesView {
    /// Nothing to store.
    pub open spec fn none() -> ChainUpdatesView {
        ChainUpdatesView {
            block_headers: Map::empty(),
            new_authentication_nodes: Seq::empty(),
            new_peaks: PeaksView { leaves: 0, peaks: Seq::empty() },
        }
    }

    /// The updates with one header more. A header that is there already stays, and counts as
    /// having notes of the client if either does.
    pub open spec fn with_block(
        self,
        header: HeaderView,
        has_client_notes: bool,
        nodes: Seq<(usize, Word)>,
    ) -> ChainUpdatesView {
        let block_num = header.fields.block_num;
        ChainUpdatesView {
            block_headers: if self.block_headers.contains_key(block_num) {
                let held = self.block_headers[block_num];
                self.block_headers.insert(block_num, (held.0, held.1 || has_client_notes))
            } else {
                self.block_headers.insert(block_num, (header, has_client_notes))
            },
            new_authentication_nodes: self.new_authentication_nodes + nodes,
            new_peaks: self.new_peaks,
        }
    }
}

impl Default for PartialBlockchainUpdates {
    fn default() -> (updates: PartialBlockchainUpdates)
        ensures
            updates.wf(),
            updates@ == ChainUpdatesView::none(),
    {
        let updates = PartialBlockchainUpdates {
            block_headers: SortedMap::new(),
            new_authentication_nodes: Vec::new(),
            new_peaks: MmrPeaks { leaves: 0, peaks: Vec::new() },
        };
        assert(view_headers(updates.block_headers@) =~= Map::empty());
        updates
    }
}

impl PartialBlockchainUpdates {
    pub closed spec fn wf(self) -> bool {
        self.block_headers.wf()
    }

    /// Adds a header, and the authentication nodes that come with it.
    pub fn insert(
        &mut self,
        block_header: BlockHeader,
        has_client_notes: bool,
        new_authentication_nodes: Vec<(usize, Word)>,
    )
        requires
            old(self).wf(),
        ensures
            final(self).wf(),
            final(self)@ == old(self)@.with_block(
                block_header@,
                has_client_notes,
                new_authentication_nodes@,
            ),
    {
        let ghost before = self.block_headers@;
        let block_num = block_header.block_num();
        let entry = match self.block_headers.get(&block_num) {
            Some(held) => (held.0.clone(), held.1 || has_client_notes),
            None => (block_header, has_client_notes),
        };
        let ghost entry_view = (entry.0@, entry.1);
        self.block_headers.insert(block_num, entry);
        let mut nodes = new_authentication_nodes;
        self.new_authentication_nodes.append(&mut nodes);
        assert(view_headers(self.block_headers@) =~= view_headers(before).insert(
            block_num,
            entry_view,
        ));
    }

    /// The headers in the order of their blocks, each with whether the block holds notes of the
    /// client.
    pub fn block_headers(&self) -> (headers: Vec<&(BlockHeader, bool)>)
        requires
            self.wf(),
        ensures
            sorted(ordered_entries(self@.block_headers)),
            as_map(ordered_entries(self@.block_headers)) == self@.block_headers,
            headers@.map_values(|entry: &(BlockHeader, bool)| (entry.0@, entry.1))
                == ordered_entries(self@.block_headers).map_values(
                |entry: (BlockNumber, (HeaderView, bool))| entry.1,
            ),
    {
        let mut headers: Vec<&(BlockHeader, bool)> = Vec::new();
        let mut i: usize = 0;
        while i < self.block_headers.entries.len()
            invariant
                i <= self.block_headers.entries.len(),
                headers@.len() == i,
                forall|j: int|
                    0 <= j < i ==> *(#[trigger] headers@[j]) == self.block_headers.entries@[j].1,
            decreases self.block_headers.entries.len() - i,
        {
            headers.push(&self.block_headers.entries[i].1);
            i += 1;
        }
        proof {
            let entries = self.block_headers.entries@;
            let views = entries.map_values(
                |entry: (BlockNumber, (BlockHeader, bool))| (entry.0, (entry.1.0@, entry.1.1)),
            );
            lemma_view_entries(entries, views);
            lemma_ordered_entries(views);
            assert(headers@.map_values(|entry: &(BlockHeader, bool)| (entry.0@, entry.1))
                =~= views.map_values(|entry: (BlockNumber, (HeaderView, bool))| entry.1));
        }
        headers
    }

    /// The authentication nodes in the order in which they were added.
    pub fn new_authentication_nodes(&self) -> (nodes: &Vec<(usize, Word)>)
        ensures
            nodes@ == self@.new_authentication_nodes,
    {
        &self.new_authentication_nodes
    }
}

proof fn lemma_view_entries(
    entries: Seq<(BlockNumber, (BlockHeader, bool))>,
    views: Seq<(BlockNumber, (HeaderView, bool))>,
)
    requires
        sorted(entries),
        views == entries.map_values(
            |entry: (BlockNumber, (BlockHeader, bool))| (entry.0, (entry.1.0@, entry.1.1)),
        ),
    ensures
        sorted(views),
        as_map(views) == view_headers(as_map(entries)),
{
    assert forall|i: int, j: int| 0 <= i < j < views.len() implies (#[trigger] views[i]).0 < (
    #[trigger] views[j]).0 by {
        assert(crate::sorted_map::Key::precedes(entries[i].0, entries[j].0));
    }
    let left = as_map(views);
    let right = view_headers(as_map(entries));
    assert forall|key: BlockNumber|
        #![trigger left.contains_key(key)]
        #![trigger right.contains_key(key)]
        left.contains_key(key) == right.contains_key(key) && (left.contains_key(key) ==> left[key]
            == right[key]) by {
        if has_key(views, key) {
            let i = choose|i: int| 0 <= i < views.len() && (#[trigger] views[i]).0 == key;
            assert(entries[i].0 == key);
            lemma_entry_in_map(views, i);
            lemma_entry_in_map(entries, i);
        }
        if has_key(entries, key) {
            let i = choose|i: int| 0 <= i < entries.len() && (#[trigger] entries[i]).0 == key;
            assert(views[i].0 == key);
        }
    }
    assert(left =~= right);
}

/// A block counts as having notes of the client once it was added as such, whatever is added
/// before or after.
pub proof fn law_client_notes_are_remembered(
    updates: ChainUpdatesView,
    first: HeaderView,
    second: HeaderView,
    first_notes: bool,
    second_notes: bool,
    first_nodes: Seq<(usize, Word)>,
    second_nodes: Seq<(usize, Word)>,
)
    ensures
        ({
            let once = updates.with_block(first, first_notes, first_nodes);
            let twice = once.with_block(second, second_notes, second_nodes);
            let block_num = first.fields.block_num;
            &&& twice.block_headers.contains_key(block_num)
            &&& first_notes ==> twice.block_headers[block_num].1
            &&& twice.block_headers[block_num].0 == once.block_headers[block_num].0
        }),
{
}

/// A block that is added leaves every other block as it was, is kept with its own header where it
/// was not there, and brings its nodes behind those that were there. The peaks stay.
pub proof fn law_added_block_is_kept(
    updates: ChainUpdatesView,
    header: HeaderView,
    has_client_notes: bool,
    nodes: Seq<(usize, Word)>,
)
    ensures
        ({
            let kept = updates.with_block(header, has_client_notes, nodes);
            let block_num = header.fields.block_num;
            let held = updates.new_authentication_nodes;
            &&& kept.block_headers.contains_key(block_num)
            &&& !updates.block_headers.contains_key(block_num)
                ==> kept.block_headers[block_num].0 == header
            &&& kept.block_headers[block_num].1 <==> (has_client_notes || (
            updates.block_headers.contains_key(block_num) && updates.block_headers[block_num].1))
            &&& forall|other: BlockNumber|
                other != block_num ==> (#[trigger] kept.block_headers.contains_key(other)
                    <==> updates.block_headers.contains_key(other))
            &&& forall|other: BlockNumber|
                other != block_num && updates.block_headers.contains_key(other)
                    ==> #[trigger] kept.block_headers[other] == updates.block_headers[other]
            &&& kept.new_authentication_nodes.len() == held.len() + nodes.len()
            &&& held.is_prefix_of(kept.new_authentication_nodes)
            &&& nodes.is_suffix_of(kept.new_authentication_nodes)
            &&& kept.new_peaks == updates.new_peaks
        }),
{
    let kept = updates.with_block(header, has_client_notes, nodes).new_authentication_nodes;
    let held = updates.new_authentication_nodes;
    assert(held =~= kept.subrange(0, held.len() as int));
    assert(nodes =~= kept.subrange(kept.len() - nodes.len(), kept.len() as int));
}

// SYNC HEIGHT
// ================================================================================================

/// The last of a number of blocks; the first block where there are none.
pub open spec fn last_block(leaves: usize) -> int {
    if leaves == 0 {
        0
    } else {
        leaves - 1
    }
}

/// The last of some blocks is the one that all the others stand before.
pub proof fn law_last_block_is_counted(leaves: usize)
    ensures
        leaves > 0 ==> last_block(leaves) < leaves && last_block(leaves) + 1 >= leaves,
        leaves <= 1 ==> last_block(leaves) == 0,
{
}

/// The last block that a partial range counts; the first block where it counts none.
pub fn sync_height(mmr: &PartialMmr) -> (height: Result<BlockNumber, SyncError>)
    ensures
        match height {
            Ok(height) => height == last_block(mmr_leaves_of(*mmr)),
            Err(error) => error == SyncError::InvalidPartialMmrForest && mmr_leaves_of(*mmr) - 1
                > u32::MAX,
        },
{
    let leaves: usize = mmr_leaves(mmr);
    let height: usize = if leaves == 0 {
        0
    } else {
        leaves - 1
    };
    if height > 0xffff_ffff {
        return Err(SyncError::InvalidPartialMmrForest);
    }
    Ok(height as u32)
}

// ADVANCING THE CHAIN
// ================================================================================================

/// What advancing a partial range over a delta to a chain tip gives: the range and the updates
/// after it. The delta excludes the tip, which is added as a leaf of its own.
pub open spec fn advanced_chain(
    mmr: MmrView,
    leaves: usize,
    data: Seq<Word>,
    tip: HeaderView,
    updates: ChainUpdatesView,
) -> Option<(MmrView, ChainUpdatesView)> {
    match applied_delta(mmr, leaves, data) {
        Some((applied, nodes)) => if peaks_commitment_of(applied.peaks)
            == tip.fields.chain_commitment && applied.leaves < max_leaves() {
            let (grown, more) = added_leaf(applied, tip.fields.commitment);
            let new_peaks = PeaksView { leaves: applied.leaves, peaks: applied.peaks };
            Some(
                (grown, ChainUpdatesView { new_peaks, ..updates }.with_block(tip, false, nodes + more)),
            )
        } else {
            None
        },
        None => None,
    }
}

/// Whether advancing a partial range over a delta to a chain tip fails with an error: the range
/// refuses the delta, the peaks after it do not open the chain commitment of the tip, or the range
/// is full.
pub open spec fn is_advance_error(
    mmr: MmrView,
    leaves: usize,
    data: Seq<Word>,
    tip: HeaderView,
    error: SyncError,
) -> bool {
    match applied_delta(mmr, leaves, data) {
        Some((applied, _)) => if peaks_commitment_of(applied.peaks) != tip.fields.chain_commitment {
            error == SyncError::ChainValidation(
                ChainValidationError::PeaksMismatch {
                    commitment: peaks_commitment_of(applied.peaks),
                    chain_commitment: tip.fields.chain_commitment,
                },
            )
        } else {
            applied.leaves >= max_leaves() && error is Mmr
        },
        None => error is Mmr,
    }
}

/// What advancing a partial range over a delta to a chain tip leaves behind where it fails: the
/// range and the updates after it. A delta that is refused changes nothing. A delta that is taken
/// changes the range; the peaks after it are kept once they open the chain commitment of the tip.
pub open spec fn failed_advance(
    mmr: MmrView,
    leaves: usize,
    data: Seq<Word>,
    tip: HeaderView,
    updates: ChainUpdatesView,
) -> (MmrView, ChainUpdatesView) {
    match applied_delta(mmr, leaves, data) {
        Some((applied, _)) => if peaks_commitment_of(applied.peaks) != tip.fields.chain_commitment {
            (applied, updates)
        } else {
            let new_peaks = PeaksView { leaves: applied.leaves, peaks: applied.peaks };
            (applied, ChainUpdatesView { new_peaks, ..updates })
        },
        None => (mmr, updates),
    }
}

/// Whether the nodes to store keep up with a range: those that were there stay, and with what was
/// added to them they list every node that the range holds and did not hold before.
pub open spec fn keeps_up(
    before: Map<usize, Word>,
    after: Map<usize, Word>,
    held: Seq<(usize, Word)>,
    kept: Seq<(usize, Word)>,
) -> bool {
    &&& held.len() <= kept.len()
    &&& kept.take(held.len() as int) == held
    &&& forall|index: usize| #[trigger]
        after.contains_key(index) ==> before.contains_key(index) || lists_node(
            kept.skip(held.len() as int),
            index,
        )
}

/// Advances a partial range over a delta to a chain tip. After the delta, and before the tip is
/// added, the peaks have to open the chain commitment of the tip. Each node that the range holds
/// then and did not hold before is added to those to store.
pub fn advance_mmr(
    mmr_delta: MmrDelta,
    chain_tip_header: &BlockHeader,
    current_partial_mmr: &mut PartialMmr,
    partial_blockchain_updates: &mut PartialBlockchainUpdates,
) -> (outcome: Result<(), SyncError>)
    requires
        mmr_delta.wf(),
        old(partial_blockchain_updates).wf(),
    ensures
        final(partial_blockchain_updates).wf(),
        match outcome {
            Ok(()) => advanced_chain(
                mmr_view_of(*old(current_partial_mmr)),
                mmr_delta.leaves,
                mmr_delta.data@,
                chain_tip_header@,
                old(partial_blockchain_updates)@,
            ) == Some(
                (
                    mmr_view_of(*final(current_partial_mmr)),
                    final(partial_blockchain_updates)@,
                ),
            ),
            Err(error) => is_advance_error(
                mmr_view_of(*old(current_partial_mmr)),
                mmr_delta.leaves,
                mmr_delta.data@,
                chain_tip_header@,
                error,
            ) && failed_advance(
                mmr_view_of(*old(current_partial_mmr)),
                mmr_delta.leaves,
                mmr_delta.data@,
                chain_tip_header@,
                old(partial_blockchain_updates)@,
            ) == (
                mmr_view_of(*final(current_partial_mmr)),
                final(partial_blockchain_updates)@,
            ),
        },
        outcome is Ok ==> keeps_up(
            mmr_nodes_of(*old(current_partial_mmr)),
            mmr_nodes_of(*final(current_partial_mmr)),
            old(partial_blockchain_updates)@.new_authentication_nodes,
            final(partial_blockchain_updates)@.new_authentication_nodes,
        ),
{
    let ghost start = mmr_view_of(*current_partial_mmr);
    let ghost delta = mmr_delta;
    let mut nodes = match apply_delta(current_partial_mmr, mmr_delta) {
        Ok(nodes) => nodes,
        Err(error) => return Err(SyncError::Mmr(error)),
    };
    let commitment = commit_to_peaks(current_partial_mmr);
    let chain_commitment = chain_tip_header.fields.chain_commitment;
    if commitment != chain_commitment {
        return Err(
            SyncError::ChainValidation(
                ChainValidationError::PeaksMismatch { commitment, chain_commitment },
            ),
        );
    }
    partial_blockchain_updates.new_peaks = mmr_peaks(current_partial_mmr);
    match add_leaf(current_partial_mmr, chain_tip_header.fields.commitment) {
        Ok(more) => {
            let mut more = more;
            nodes.append(&mut more);
        },
        Err(error) => return Err(SyncError::Mmr(error)),
    }
    proof {
        law_advance_stores_new_nodes(
            start,
            delta.leaves,
            delta.data@,
            chain_tip_header@,
            old(partial_blockchain_updates)@,
        );
    }
    partial_blockchain_updates.insert(chain_tip_header.clone(), false, nodes);
    Ok(())
}

/// Whether the nodes that a range reports when it takes a delta, and a leaf behind it, account for
/// what it holds then.
pub open spec fn reports_inserts(mmr: MmrView, leaves: usize, data: Seq<Word>, leaf: Word) -> bool {
    applied_delta(mmr, leaves, data) matches Some((applied, nodes)) ==> {
        let (grown, more) = added_leaf(applied, leaf);
        &&& accounts_for(mmr.nodes, applied.nodes, nodes)
        &&& accounts_for(applied.nodes, grown.nodes, more)
    }
}

/// After a range was advanced, every node that it holds and did not hold before is among the new
/// ones to store, so that what is stored still opens each block that it follows. What the delta
/// inserted and what the tip inserted is stored with its value, nothing else is, and what was to be
/// stored before stays.
pub proof fn law_advance_stores_new_nodes(
    mmr: MmrView,
    leaves: usize,
    data: Seq<Word>,
    tip: HeaderView,
    updates: ChainUpdatesView,
)
    requires
        reports_inserts(mmr, leaves, data, tip.fields.commitment),
    ensures
        advanced_chain(mmr, leaves, data, tip, updates) matches Some((grown, kept)) ==> {
            let (applied, by_delta) = applied_delta(mmr, leaves, data).unwrap();
            let by_tip = added_leaf(applied, tip.fields.commitment).1;
            let held = updates.new_authentication_nodes;
            let added = kept.new_authentication_nodes.skip(held.len() as int);
            &&& keeps_up(mmr.nodes, grown.nodes, held, kept.new_authentication_nodes)
            &&& mmr.nodes.dom().subset_of(grown.nodes.dom())
            &&& forall|i: int| 0 <= i < by_delta.len() ==> added.contains(#[trigger] by_delta[i])
            &&& forall|i: int| 0 <= i < by_tip.len() ==> added.contains(#[trigger] by_tip[i])
            &&& forall|i: int|
                0 <= i < added.len() ==> grown.nodes.contains_key((#[trigger] added[i]).0) && (
                by_delta.contains(added[i]) || by_tip.contains(added[i]))
        },
{
    if let Some((grown, kept)) = advanced_chain(mmr, leaves, data, tip, updates) {
        let (applied, by_delta) = applied_delta(mmr, leaves, data).unwrap();
        let by_tip = added_leaf(applied, tip.fields.commitment).1;
        let held = updates.new_authentication_nodes;
        let added = kept.new_authentication_nodes.skip(held.len() as int);
        assert(added =~= by_delta + by_tip);
        assert(kept.new_authentication_nodes.take(held.len() as int) =~= held);
        assert forall|i: int| 0 <= i < by_delta.len() implies added.contains(
            #[trigger] by_delta[i],
        ) by {
            assert(added[i] == by_delta[i]);
        }
        assert forall|i: int| 0 <= i < by_tip.len() implies added.contains(#[trigger] by_tip[i]) by {
            assert(added[by_delta.len() + i] == by_tip[i]);
        }
        assert forall|i: int| 0 <= i < added.len() implies grown.nodes.contains_key(
            (#[trigger] added[i]).0,
        ) && (by_delta.contains(added[i]) || by_tip.contains(added[i])) by {
            if i < by_delta.len() {
                assert(added[i] == by_delta[i]);
                assert(applied.nodes.contains_key(by_delta[i].0));
            } else {
                assert(added[i] == by_tip[i - by_delta.len()]);
            }
        }
        assert forall|index: usize| #[trigger]
            grown.nodes.contains_key(index) implies mmr.nodes.contains_key(index) || lists_node(
            added,
            index,
        ) by {
            if !mmr.nodes.contains_key(index) {
                if applied.nodes.contains_key(index) {
                    let i = choose|i: int|
                        0 <= i < by_delta.len() && (#[trigger] by_delta[i]).0 == index;
                    assert(added[i] == by_delta[i]);
                } else {
                    let i = choose|i: int|
                        0 <= i < by_tip.len() && (#[trigger] by_tip[i]).0 == index;
                    assert(added[by_delta.len() + i] == by_tip[i]);
                }
            }
        }
    }
}

/// A range that was advanced counts one leaf more than the delta, follows the leaves that it
/// followed, and the tip's header and the peaks before it are kept.
pub proof fn law_advance_adds_the_tip(
    mmr: MmrView,
    leaves: usize,
    data: Seq<Word>,
    tip: HeaderView,
    updates: ChainUpdatesView,
)
    requires
        leaves <= max_leaves(),
    ensures
        advanced_chain(mmr, leaves, data, tip, updates) matches Some((grown, kept)) ==> {
            &&& grown.leaves == leaves + 1
            &&& grown.followed == mmr.followed
            &&& kept.block_headers.contains_key(tip.fields.block_num)
            &&& kept.new_peaks.leaves == leaves
            &&& peaks_commitment_of(kept.new_peaks.peaks) == tip.fields.chain_commitment
        },
{
}

/// The tip that a range is advanced to is kept with its own header and, by itself, not as a block
/// with notes of the client; every other header stays as it was. The peaks that are kept are those
/// before the tip was added.
pub proof fn law_advance_keeps_the_tip_header(
    mmr: MmrView,
    leaves: usize,
    data: Seq<Word>,
    tip: HeaderView,
    updates: ChainUpdatesView,
)
    ensures
        advanced_chain(mmr, leaves, data, tip, updates) matches Some((_, kept)) ==> {
            let number = tip.fields.block_num;
            &&& !updates.block_headers.contains_key(number) ==> kept.block_headers[number] == (
                tip,
                false,
            )
            &&& updates.block_headers.contains_key(number) ==> kept.block_headers[number]
                == updates.block_headers[number]
            &&& forall|other: BlockNumber|
                other != number && updates.block_headers.contains_key(other)
                    ==> #[trigger] kept.block_headers.contains_pair(
                    other,
                    updates.block_headers[other],
                )
            &&& kept.block_headers.dom() == updates.block_headers.dom().insert(number)
            &&& applied_delta(mmr, leaves, data) matches Some((applied, _)) && kept.new_peaks.peaks
                == applied.peaks
        },
{
    if let Some((_, kept)) = advanced_chain(mmr, leaves, data, tip, updates) {
        assert(kept.block_headers.dom() =~= updates.block_headers.dom().insert(
            tip.fields.block_num,
        ));
    }
}

/// Where a range cannot be advanced, no header and no node is added to what is to be stored. The
/// peaks are blamed exactly where the delta is taken and the peaks after it do not open the chain
/// commitment of the tip, and then what is to be stored stays as it was.
pub proof fn law_failed_advance_stores_nothing(
    mmr: MmrView,
    leaves: usize,
    data: Seq<Word>,
    tip: HeaderView,
    updates: ChainUpdatesView,
    error: SyncError,
)
    requires
        advanced_chain(mmr, leaves, data, tip, updates) is None,
        is_advance_error(mmr, leaves, data, tip, error),
    ensures
        ({
            let (range, kept) = failed_advance(mmr, leaves, data, tip, updates);
            &&& kept.block_headers == updates.block_headers
            &&& kept.new_authentication_nodes == updates.new_authentication_nodes
            &&& range.followed == mmr.followed
            &&& applied_delta(mmr, leaves, data) is None ==> range == mmr && kept == updates
                && error is Mmr
            &&& applied_delta(mmr, leaves, data) matches Some((applied, _)) ==> range == applied && (
            error is ChainValidation <==> peaks_commitment_of(applied.peaks)
                != tip.fields.chain_commitment)
            &&& error is ChainValidation ==> kept == updates
            &&& applied_delta(mmr, leaves, data) is Some && error is Mmr ==> kept.new_peaks.leaves
                == range.leaves && kept.new_peaks.peaks == range.peaks
            &&& error matches SyncError::ChainValidation(wrong) ==> wrong == (
            ChainValidationError::PeaksMismatch {
                commitment: peaks_commitment_of(range.peaks),
                chain_commitment: tip.fields.chain_commitment,
            })
        }),
{
}

// FOLLOWING BLOCKS
// ================================================================================================

/// The nodes of a range that another does not have, in the order of their indices.
pub open spec fn new_nodes(before: Map<usize, Word>, after: Map<usize, Word>) -> Seq<
    (usize, Word),
> {
    ordered_entries(after).filter(|node: (usize, Word)| !before.contains_key(node.0))
}

/// What following a block with notes of the client gives: the range and the updates after it.
pub open spec fn followed_block(
    mmr: MmrView,
    header: HeaderView,
    path: Seq<Word>,
    updates: ChainUpdatesView,
) -> Option<(MmrView, ChainUpdatesView)> {
    let position = header.fields.block_num as usize;
    if mmr.followed.contains(position) {
        Some((mmr, updates.with_block(header, true, Seq::empty())))
    } else if path.len() > 255 || stands_before_tree(mmr.leaves, path.len(), position) {
        None
    } else {
        match followed_leaf(mmr, position, header.fields.commitment, path) {
            Some(after) => Some(
                (after, updates.with_block(header, true, new_nodes(mmr.nodes, after.nodes))),
            ),
            None => None,
        }
    }
}

/// Whether following a block fails with an error: its path cannot be one of its position, or does
/// not lead to a peak.
pub open spec fn is_follow_error(
    mmr: MmrView,
    header: HeaderView,
    path: Seq<Word>,
    error: SyncError,
) -> bool {
    let position = header.fields.block_num as usize;
    &&& !mmr.followed.contains(position)
    &&& if path.len() > 255 || stands_before_tree(mmr.leaves, path.len(), position) {
        error == SyncError::MisplacedPath { block_num: header.fields.block_num }
    } else {
        followed_leaf(mmr, position, header.fields.commitment, path) is None && error is Mmr
    }
}

/// Whether a range with some number of leaves has a tree of a depth, all of whose leaves stand
/// behind a position.
fn is_before_tree(leaves: usize, depth: usize, position: usize) -> (before: bool)
    requires
        leaves <= max_leaves(),
    ensures
        before == stands_before_tree(leaves, depth as nat, position),
{
    let mut size: u64 = 1;
    let mut i: usize = 0;
    proof {
        vstd::arithmetic::power2::lemma2_to64();
    }
    while i < depth
        invariant_except_break
            i <= depth,
            size == pow2(i as nat),
            0 < size <= 0x1_0000_0000,
        ensures
            0 < size <= 0x1_0000_0000,
            size == pow2(i as nat) && i <= depth && (i == depth || size == 0x1_0000_0000),
        decreases depth - i,
    {
        if size == 0x1_0000_0000 {
            break;
        }
        proof {
            lemma_pow2_unfold((i + 1) as nat);
            lemma_small_power(i as nat, size);
        }
        size = size * 2;
        i += 1;
    }
    let count: u64 = leaves as u64;
    if size == 0x1_0000_0000 {
        proof {
            if i < depth {
                lemma_pow2_strictly_increases(i as nat, depth as nat);
            }
            assert(leaves as int / pow2(depth as nat) as int == 0) by (nonlinear_arith)
                requires
                    leaves < pow2(depth as nat),
                    0 <= leaves,
            ;
        }
        return false;
    }
    proof {
        lemma_pow2_unfold((depth + 1) as nat);
        assert((count as int / (2 * size)) * (2 * size) <= count) by (nonlinear_arith)
            requires
                size > 0,
                count >= 0,
        ;
    }
    let start: u64 = (count / (2 * size)) * (2 * size);
    (count / size) % 2 == 1 && (position as u64) < start
}

proof fn lemma_small_power(i: nat, size: u64)
    requires
        size == pow2(i),
        size < 0x1_0000_0000,
    ensures
        2 * size <= 0x1_0000_0000,
{
    vstd::arithmetic::power2::lemma2_to64();
    assert(pow2(32) == 0x1_0000_0000);
    if i >= 32 {
        if i > 32 {
            lemma_pow2_strictly_increases(32, i);
        }
    } else if i < 31 {
        lemma_pow2_strictly_increases(i, 31);
    }
}

/// Keeps the nodes that a range did not have before.
fn select_new_nodes(before: &Vec<(usize, Word)>, after: &Vec<(usize, Word)>) -> (nodes: Vec<
    (usize, Word),
>)
    requires
        sorted(before@),
        sorted(after@),
    ensures
        nodes@ == new_nodes(as_map(before@), as_map(after@)),
{
    let ghost held = as_map(before@);
    let ghost keep = |node: (usize, Word)| !held.contains_key(node.0);
    let mut nodes: Vec<(usize, Word)> = Vec::new();
    let mut i: usize = 0;
    let mut k: usize = 0;
    assert(nodes@ =~= after@.take(0).filter(keep)) by {
        reveal(Seq::filter);
    }
    while i < after.len()
        invariant
            i <= after.len(),
            k <= before.len(),
            sorted(before@),
            sorted(after@),
            held == as_map(before@),
            keep == (|node: (usize, Word)| !held.contains_key(node.0)),
            nodes@ == after@.take(i as int).filter(keep),
            forall|j: int, m: int|
                0 <= j < k && i <= m < after@.len() ==> (#[trigger] before@[j]).0 < (
                #[trigger] after@[m]).0,
        decreases after.len() - i,
    {
        let index: usize = after[i].0;
        while k < before.len() && before[k].0 < index
            invariant
                i < after.len(),
                k <= before.len(),
                index == after@[i as int].0,
                sorted(after@),
                forall|j: int, m: int|
                    0 <= j < k && i <= m < after@.len() ==> (#[trigger] before@[j]).0 < (
                    #[trigger] after@[m]).0,
            decreases before.len() - k,
        {
            assert forall|m: int| i <= m < after@.len() implies before@[k as int].0 < (
            #[trigger] after@[m]).0 by {
                if m > i {
                    assert(crate::sorted_map::Key::precedes(after@[i as int].0, after@[m].0));
                }
            }
            k += 1;
        }
        let known = k < before.len() && before[k].0 == index;
        proof {
            assert(known == held.contains_key(index)) by {
                if has_key(before@, index) {
                    let j = choose|j: int|
                        0 <= j < before@.len() && (#[trigger] before@[j]).0 == index;
                    if j < k {
                        assert(before@[j].0 < after@[i as int].0);
                    } else if j > k {
                        assert(crate::sorted_map::Key::precedes(
                            before@[k as int].0,
                            before@[j].0,
                        ));
                    }
                }
                if known {
                    assert(before@[k as int].0 == index);
                }
            }
            assert(after@.take(i + 1).drop_last() =~= after@.take(i as int));
            assert(after@.take(i + 1).last() == after@[i as int]);
            reveal(Seq::filter);
        }
        if !known {
            nodes.push(after[i]);
        }
        i += 1;
    }
    proof {
        assert(after@.take(after@.len() as int) =~= after@);
        lemma_ordered_entries(after@);
    }
    nodes
}

/// Follows a block that holds notes of the client, and keeps its header. Where the range follows
/// the block already, there are no nodes to add.
pub fn follow_block(
    block_header: &BlockHeader,
    mmr_path: &Vec<Word>,
    current_partial_mmr: &mut PartialMmr,
    partial_blockchain_updates: &mut PartialBlockchainUpdates,
) -> (outcome: Result<(), SyncError>)
    requires
        old(partial_blockchain_updates).wf(),
    ensures
        final(partial_blockchain_updates).wf(),
        match outcome {
            Ok(()) => followed_block(
                mmr_view_of(*old(current_partial_mmr)),
                block_header@,
                mmr_path@,
                old(partial_blockchain_updates)@,
            ) == Some(
                (
                    mmr_view_of(*final(current_partial_mmr)),
                    final(partial_blockchain_updates)@,
                ),
            ),
            Err(error) => is_follow_error(
                mmr_view_of(*old(current_partial_mmr)),
                block_header@,
                mmr_path@,
                error,
            ) && mmr_view_of(*final(current_partial_mmr)) == mmr_view_of(
                *old(current_partial_mmr),
            ) && final(partial_blockchain_updates)@ == old(partial_blockchain_updates)@,
        },
        outcome is Ok ==> keeps_up(
            mmr_nodes_of(*old(current_partial_mmr)),
            mmr_nodes_of(*final(current_partial_mmr)),
            old(partial_blockchain_updates)@.new_authentication_nodes,
            final(partial_blockchain_updates)@.new_authentication_nodes,
        ),
{
    let ghost start = mmr_view_of(*current_partial_mmr);
    let ghost held = partial_blockchain_updates@;
    let position: usize = block_header.block_num() as usize;
    let mut nodes: Vec<(usize, Word)> = Vec::new();
    if !is_followed(current_partial_mmr, position) {
        let leaves: usize = mmr_leaves(current_partial_mmr);
        if mmr_path.len() > 255 || is_before_tree(leaves, mmr_path.len(), position) {
            return Err(SyncError::MisplacedPath { block_num: block_header.block_num() });
        }
        let before = mmr_nodes(current_partial_mmr);
        if let Err(error) = follow_leaf(
            current_partial_mmr,
            position,
            block_header.fields.commitment,
            mmr_path,
        ) {
            return Err(SyncError::Mmr(error));
        }
        let after = mmr_nodes(current_partial_mmr);
        nodes = select_new_nodes(&before, &after);
        proof {
            lemma_ordered_entries(after@);
            lemma_new_nodes(as_map(before@), as_map(after@));
        }
    }
    assert(nodes@.len() == 0 ==> nodes@ =~= Seq::empty());
    proof {
        let kept = held.new_authentication_nodes + nodes@;
        assert(kept.take(held.new_authentication_nodes.len() as int)
            =~= held.new_authentication_nodes);
        assert(kept.skip(held.new_authentication_nodes.len() as int) =~= nodes@);
    }
    partial_blockchain_updates.insert(block_header.clone(), true, nodes);
    Ok(())
}

/// A filter keeps nodes in the order of their indices.
proof fn lemma_filtered_sorted(
    entries: Seq<(usize, Word)>,
    keep: spec_fn((usize, Word)) -> bool,
)
    requires
        sorted(entries),
    ensures
        sorted(entries.filter(keep)),
    decreases entries.len(),
{
    reveal(Seq::filter);
    if entries.len() > 0 {
        let before = entries.drop_last();
        let last = entries.last();
        assert(sorted(before)) by {
            assert forall|i: int, j: int| 0 <= i < j < before.len() implies (
            #[trigger] before[i]).0.precedes((#[trigger] before[j]).0) by {
                assert(entries[i].0.precedes(entries[j].0));
            }
        }
        lemma_filtered_sorted(before, keep);
        lemma_filtered(before, keep);
        let kept = before.filter(keep);
        if keep(last) {
            let all = entries.filter(keep);
            assert forall|i: int, j: int| 0 <= i < j < all.len() implies (
            #[trigger] all[i]).0.precedes((#[trigger] all[j]).0) by {
                if j < kept.len() {
                    assert(all[i] == kept[i] && all[j] == kept[j]);
                } else {
                    assert(all[i] == kept[i]);
                    let k = choose|k: int| 0 <= k < before.len() && before[k] == kept[i];
                    assert(entries[k].0.precedes(entries[entries.len() - 1].0));
                }
            }
        }
    }
}

/// The new nodes are those that a range holds and did not hold before, with the values that it
/// holds.
proof fn lemma_new_nodes(before: Map<usize, Word>, after: Map<usize, Word>)
    requires
        sorted(ordered_entries(after)),
        as_map(ordered_entries(after)) == after,
    ensures
        forall|index: usize| #[trigger]
            after.contains_key(index) ==> before.contains_key(index) || lists_node(
                new_nodes(before, after),
                index,
            ),
        forall|i: int|
            0 <= i < new_nodes(before, after).len() ==> {
                let node = #[trigger] new_nodes(before, after)[i];
                &&& !before.contains_key(node.0)
                &&& after.contains_key(node.0)
                &&& after[node.0] == node.1
            },
        sorted(new_nodes(before, after)),
{
    let entries = ordered_entries(after);
    let nodes = new_nodes(before, after);
    let keep = |node: (usize, Word)| !before.contains_key(node.0);
    lemma_filtered(entries, keep);
    lemma_filtered_sorted(entries, keep);
    assert forall|index: usize| #[trigger] after.contains_key(index) implies before.contains_key(
        index,
    ) || lists_node(nodes, index) by {
        assert(has_key(entries, index));
        let i = choose|i: int| 0 <= i < entries.len() && (#[trigger] entries[i]).0 == index;
        if !before.contains_key(index) {
            assert(keep(entries[i]));
            let k = choose|k: int| 0 <= k < nodes.len() && nodes[k] == entries[i];
            assert(nodes[k].0 == index);
        }
    }
    assert forall|i: int| 0 <= i < nodes.len() implies {
        let node = #[trigger] nodes[i];
        &&& !before.contains_key(node.0)
        &&& after.contains_key(node.0)
        &&& after[node.0] == node.1
    } by {
        assert(keep(nodes[i]));
        let k = choose|k: int| 0 <= k < entries.len() && entries[k] == nodes[i];
        lemma_entry_in_map(entries, k);
    }
}

/// After a block was followed, the range follows it next to what it followed before, its header is
/// kept as that of a block with notes of the client, and the nodes that the range holds and did not
/// hold before, with their values, and no others are added to those to store.
pub proof fn law_following_stores_new_nodes(
    mmr: MmrView,
    header: HeaderView,
    path: Seq<Word>,
    updates: ChainUpdatesView,
)
    requires
        followed_block(mmr, header, path, updates) matches Some((after, _))
            && after.nodes.dom().finite(),
    ensures
        followed_block(mmr, header, path, updates) matches Some((after, kept)) ==> {
            let held = updates.new_authentication_nodes;
            let added = kept.new_authentication_nodes.skip(held.len() as int);
            let block_num = header.fields.block_num;
            &&& keeps_up(mmr.nodes, after.nodes, held, kept.new_authentication_nodes)
            &&& sorted(added)
            &&& forall|i: int|
                0 <= i < added.len() ==> {
                    &&& !mmr.nodes.contains_key((#[trigger] added[i]).0)
                    &&& after.nodes.contains_key(added[i].0)
                    &&& after.nodes[added[i].0] == added[i].1
                }
            &&& after.followed == mmr.followed.insert(block_num as usize)
            &&& kept.block_headers.contains_key(block_num)
            &&& kept.block_headers[block_num].1
            &&& !updates.block_headers.contains_key(block_num)
                ==> kept.block_headers[block_num].0 == header
        },
{
    let held = updates.new_authentication_nodes;
    if let Some((after, kept)) = followed_block(mmr, header, path, updates) {
        let added = kept.new_authentication_nodes.skip(held.len() as int);
        assert(kept.new_authentication_nodes.take(held.len() as int) =~= held);
        if mmr.followed.contains(header.fields.block_num as usize) {
            assert(added =~= Seq::empty());
            assert(sorted(added));
            assert(mmr.followed.insert(header.fields.block_num as usize) =~= mmr.followed);
        } else {
            lemma_ordered_entries_exist(after.nodes);
            lemma_new_nodes(mmr.nodes, after.nodes);
            assert(added =~= new_nodes(mmr.nodes, after.nodes));
        }
    }
}

/// Following a block that the range follows already leaves the range as it is and adds no nodes;
/// the block counts as having notes of the client.
pub proof fn law_followed_block_adds_no_nodes(
    mmr: MmrView,
    header: HeaderView,
    path: Seq<Word>,
    updates: ChainUpdatesView,
)
    requires
        mmr.followed.contains(header.fields.block_num as usize),
    ensures
        followed_block(mmr, header, path, updates) matches Some((after, kept)) && after == mmr
            && kept.new_authentication_nodes == updates.new_authentication_nodes
            && kept.block_headers.contains_key(header.fields.block_num)
            && kept.block_headers[header.fields.block_num].1,
{
    assert(updates.new_authentication_nodes + Seq::<(usize, Word)>::empty()
        =~= updates.new_authentication_nodes);
}

// CHAIN SYNC
// ================================================================================================

/// A sync's work on the chain. It is done on a copy of the client's partial range: whatever fails,
/// the range itself stays as it is until [`ChainSync::commit`].
pub struct ChainSync {
    pub(crate) working_mmr: PartialMmr,
    pub(crate) updates: PartialBlockchainUpdates,
}

/// What a [`ChainSync`] holds.
#[verifier::ext_equal]
pub ghost struct ChainSyncView {
    pub mmr: MmrView,
    pub updates: ChainUpdatesView,
}

impl View for ChainSync {
    type V = ChainSyncView;

    closed spec fn view(&self) -> ChainSyncView {
        ChainSyncView { mmr: mmr_view_of(self.working_mmr), updates: self.updates@ }
    }
}

/// A block with notes, and whether one of them made it relevant.
#[verifier::ext_equal]
pub ghost struct ScreenedBlock {
    pub header: HeaderView,
    pub path: Seq<Word>,
    pub relevant: bool,
}

impl ChainSyncView {
    /// The work with a block taken in: a relevant one is followed and kept, any other is passed
    /// over.
    pub open spec fn after_block(self, block: ScreenedBlock) -> Option<ChainSyncView> {
        if block.relevant {
            match followed_block(self.mmr, block.header, block.path, self.updates) {
                Some((mmr, updates)) => Some(ChainSyncView { mmr, updates }),
                None => None,
            }
        } else {
            Some(self)
        }
    }

    /// The work with some blocks taken in, one after the other.
    pub open spec fn after_blocks(self, blocks: Seq<ScreenedBlock>) -> Option<ChainSyncView>
        decreases blocks.len(),
    {
        if blocks.len() == 0 {
            Some(self)
        } else {
            match self.after_blocks(blocks.drop_last()) {
                Some(before) => before.after_block(blocks.last()),
                None => None,
            }
        }
    }
}

impl ChainSync {
    pub closed spec fn wf(self) -> bool {
        self.updates.wf()
    }

    /// Starts the work: advances a copy of the range over a delta to a chain tip.
    pub fn advance(
        mmr_delta: MmrDelta,
        chain_tip_header: &BlockHeader,
        current_partial_mmr: &PartialMmr,
    ) -> (sync: Result<ChainSync, SyncError>)
        requires
            mmr_delta.wf(),
        ensures
            match sync {
                Ok(sync) => sync.wf() && advanced_chain(
                    mmr_view_of(*current_partial_mmr),
                    mmr_delta.leaves,
                    mmr_delta.data@,
                    chain_tip_header@,
                    ChainUpdatesView::none(),
                ) == Some((sync@.mmr, sync@.updates)) && keeps_up(
                    mmr_nodes_of(*current_partial_mmr),
                    sync@.mmr.nodes,
                    Seq::empty(),
                    sync@.updates.new_authentication_nodes,
                ),
                Err(error) => is_advance_error(
                    mmr_view_of(*current_partial_mmr),
                    mmr_delta.leaves,
                    mmr_delta.data@,
                    chain_tip_header@,
                    error,
                ),
            },
    {
        let mut working_mmr = copy_mmr(current_partial_mmr);
        let mut updates = PartialBlockchainUpdates::default();
        match advance_mmr(mmr_delta, chain_tip_header, &mut working_mmr, &mut updates) {
            Ok(()) => Ok(ChainSync { working_mmr, updates }),
            Err(error) => Err(error),
        }
    }

    /// Takes in a block with notes, once its notes were screened.
    pub fn take_block(&mut self, block: &NoteSyncBlock, relevant: bool) -> (outcome: Result<
        (),
        SyncError,
    >)
        requires
            old(self).wf(),
        ensures
            final(self).wf(),
            match outcome {
                Ok(()) => old(self)@.after_block(
                    ScreenedBlock {
                        header: block.block_header@,
                        path: block.mmr_path@,
                        relevant,
                    },
                ) == Some(final(self)@) && keeps_up(
                    old(self)@.mmr.nodes,
                    final(self)@.mmr.nodes,
                    old(self)@.updates.new_authentication_nodes,
                    final(self)@.updates.new_authentication_nodes,
                ),
                Err(error) => relevant && is_follow_error(
                    old(self)@.mmr,
                    block.block_header@,
                    block.mmr_path@,
                    error,
                ) && final(self)@ == old(self)@,
            },
    {
        if !relevant {
            proof {
                let held = self@.updates.new_authentication_nodes;
                assert(held.take(held.len() as int) =~= held);
            }
            return Ok(());
        }
        follow_block(
            &block.block_header,
            &block.mmr_path,
            &mut self.working_mmr,
            &mut self.updates,
        )
    }

    /// Ends the work: the range becomes the one that was worked on. Returns what is to be stored.
    pub fn commit(self, current_partial_mmr: &mut PartialMmr) -> (updates: PartialBlockchainUpdates)
        requires
            self.wf(),
        ensures
            mmr_view_of(*final(current_partial_mmr)) == self@.mmr,
            updates.wf(),
            updates@ == self@.updates,
    {
        *current_partial_mmr = self.working_mmr;
        self.updates
    }
}

/// What a sync to a tip makes of a range: it is advanced over a delta to the tip, and takes in some
/// blocks.
pub open spec fn synced_chain(
    mmr: MmrView,
    leaves: usize,
    data: Seq<Word>,
    tip: HeaderView,
    blocks: Seq<ScreenedBlock>,
) -> Option<ChainSyncView> {
    match advanced_chain(mmr, leaves, data, tip, ChainUpdatesView::none()) {
        Some((mmr, updates)) => (ChainSyncView { mmr, updates }).after_blocks(blocks),
        None => None,
    }
}

/// After a sync to a tip, over a delta that leads up to it, the range counts the tip as its last
/// block, and the tip's header is kept.
pub proof fn law_synced_range_ends_at_the_tip(
    mmr: MmrView,
    leaves: usize,
    data: Seq<Word>,
    tip: HeaderView,
    blocks: Seq<ScreenedBlock>,
)
    requires
        leaves == tip.fields.block_num,
    ensures
        synced_chain(mmr, leaves, data, tip, blocks) matches Some(end) ==> {
            &&& end.mmr.leaves == tip.fields.block_num + 1
            &&& last_block(end.mmr.leaves) == tip.fields.block_num
            &&& end.updates.block_headers.contains_key(tip.fields.block_num)
        },
{
    if let Some((grown, updates)) = advanced_chain(
        mmr,
        leaves,
        data,
        tip,
        ChainUpdatesView::none(),
    ) {
        let start = ChainSyncView { mmr: grown, updates };
        law_relevant_blocks_are_followed(start, blocks);
        lemma_headers_stay(start, blocks);
    }
}

/// The sync behind a sync to a tip starts from that tip: a node that answers for that block on is
/// believed, and is asked for the blocks behind it, or for nothing where it is still at that tip.
pub proof fn law_next_sync_starts_from_the_tip(
    mmr: MmrView,
    leaves: usize,
    data: Seq<Word>,
    tip: HeaderView,
    blocks: Seq<ScreenedBlock>,
    current: BlockNumber,
    next_tip: BlockNumber,
    has_tags: bool,
    has_accounts: bool,
)
    requires
        leaves == tip.fields.block_num,
        synced_chain(mmr, leaves, data, tip, blocks) is Some,
        current == last_block(synced_chain(mmr, leaves, data, tip, blocks).unwrap().mmr.leaves),
        tip.fields.block_num <= next_tip,
    ensures
        current == tip.fields.block_num,
        planned_fetch(next_tip, current, next_tip, current, has_tags, has_accounts) matches Ok(plan)
            && (plan is None <==> next_tip == current) && (plan matches Some(plan) ==> {
            &&& plan.block_from == current + 1
            &&& plan.block_to == next_tip
        }),
{
    law_synced_range_ends_at_the_tip(mmr, leaves, data, tip, blocks);
}

/// Taking in blocks drops no header.
proof fn lemma_headers_stay(start: ChainSyncView, blocks: Seq<ScreenedBlock>)
    ensures
        start.after_blocks(blocks) matches Some(end) ==> start.updates.block_headers.dom().subset_of(
            end.updates.block_headers.dom(),
        ),
    decreases blocks.len(),
{
    if blocks.len() > 0 {
        lemma_headers_stay(start, blocks.drop_last());
    }
}

/// Once some blocks were taken in, the range follows every relevant one, next to what it followed
/// before, and the header of each is kept as that of a block with notes of the client.
pub proof fn law_relevant_blocks_are_followed(start: ChainSyncView, blocks: Seq<ScreenedBlock>)
    ensures
        start.after_blocks(blocks) matches Some(end) ==> {
            &&& forall|i: int|
                0 <= i < blocks.len() && (#[trigger] blocks[i]).relevant ==> {
                    let block_num = blocks[i].header.fields.block_num;
                    &&& end.mmr.followed.contains(block_num as usize)
                    &&& end.updates.block_headers.contains_key(block_num)
                    &&& end.updates.block_headers[block_num].1
                }
            &&& start.mmr.followed.subset_of(end.mmr.followed)
            &&& end.mmr.leaves == start.mmr.leaves
            &&& end.mmr.peaks == start.mmr.peaks
            &&& end.updates.new_peaks == start.updates.new_peaks
        },
    decreases blocks.len(),
{
    if blocks.len() > 0 {
        let before = blocks.drop_last();
        law_relevant_blocks_are_followed(start, before);
        if let Some(end) = start.after_blocks(blocks) {
            assert forall|i: int| 0 <= i < blocks.len() && (#[trigger] blocks[i]).relevant implies {
                let block_num = blocks[i].header.fields.block_num;
                &&& end.mmr.followed.contains(block_num as usize)
                &&& end.updates.block_headers.contains_key(block_num)
                &&& end.updates.block_headers[block_num].1
            } by {
                if i < before.len() {
                    assert(before[i] == blocks[i]);
                } else {
                    assert(blocks[i] == blocks.last());
                }
            }
        }
    }
}

/// Blocks without notes of the client leave no trace: only the relevant ones are kept.
pub proof fn law_irrelevant_blocks_leave_no_trace(start: ChainSyncView, blocks: Seq<ScreenedBlock>)
    ensures
        start.after_blocks(blocks) matches Some(end) ==> {
            &&& forall|block_num: BlockNumber| #[trigger]
                end.updates.block_headers.contains_key(block_num)
                    ==> start.updates.block_headers.contains_key(block_num) || (exists|i: int|
                    0 <= i < blocks.len() && (#[trigger] blocks[i]).relevant
                        && blocks[i].header.fields.block_num == block_num)
            &&& forall|position: usize| #[trigger]
                end.mmr.followed.contains(position) ==> start.mmr.followed.contains(position) || (
                exists|i: int|
                    0 <= i < blocks.len() && (#[trigger] blocks[i]).relevant
                        && blocks[i].header.fields.block_num as usize == position)
        },
        (forall|i: int| 0 <= i < blocks.len() ==> !(#[trigger] blocks[i]).relevant)
            ==> start.after_blocks(blocks) == Some(start),
    decreases blocks.len(),
{
    if blocks.len() > 0 {
        let before = blocks.drop_last();
        law_irrelevant_blocks_leave_no_trace(start, before);
        assert(blocks[blocks.len() - 1] == blocks.last());
        assert forall|i: int| 0 <= i < before.len() implies #[trigger] before[i] == blocks[i] by {}
        if let Some(end) = start.after_blocks(blocks) {
            let middle = start.after_blocks(before).unwrap();
            assert forall|block_num: BlockNumber| #[trigger]
                end.updates.block_headers.contains_key(
                    block_num,
                ) && !start.updates.block_headers.contains_key(block_num) implies exists|i: int|
                0 <= i < blocks.len() && (#[trigger] blocks[i]).relevant
                    && blocks[i].header.fields.block_num == block_num by {
                if middle.updates.block_headers.contains_key(block_num) {
                    let i = choose|i: int|
                        0 <= i < before.len() && (#[trigger] before[i]).relevant
                            && before[i].header.fields.block_num == block_num;
                    assert(blocks[i].relevant);
                } else {
                    assert(blocks[blocks.len() - 1].relevant);
                }
            }
            assert forall|position: usize| #[trigger]
                end.mmr.followed.contains(position) && !start.mmr.followed.contains(
                    position,
                ) implies exists|i: int|
                0 <= i < blocks.len() && (#[trigger] blocks[i]).relevant
                    && blocks[i].header.fields.block_num as usize == position by {
                if middle.mmr.followed.contains(position) {
                    let i = choose|i: int|
                        0 <= i < before.len() && (#[trigger] before[i]).relevant
                            && before[i].header.fields.block_num as usize == position;
                    assert(blocks[i].relevant);
                } else {
                    assert(blocks[blocks.len() - 1].relevant);
                }
            }
        }
    }
}

/// Whether a range that takes in some blocks holds finitely many nodes all along.
pub open spec fn stays_finite(start: ChainSyncView, blocks: Seq<ScreenedBlock>) -> bool {
    forall|n: int|
        0 <= n <= blocks.len() ==> (start.after_blocks(#[trigger] blocks.take(n)) matches Some(
            middle,
        ) ==> middle.mmr.nodes.dom().finite())
}

/// Once blocks were taken in, the nodes to store still list every node that the range holds beyond
/// what it held before them.
pub proof fn law_taken_blocks_store_their_nodes(start: ChainSyncView, blocks: Seq<ScreenedBlock>)
    requires
        stays_finite(start, blocks),
    ensures
        start.after_blocks(blocks) matches Some(end) ==> keeps_up(
            start.mmr.nodes,
            end.mmr.nodes,
            start.updates.new_authentication_nodes,
            end.updates.new_authentication_nodes,
        ),
    decreases blocks.len(),
{
    let held = start.updates.new_authentication_nodes;
    if blocks.len() == 0 {
        assert(held.take(held.len() as int) =~= held);
    } else {
        let before = blocks.drop_last();
        assert(blocks.take(before.len() as int) =~= before);
        assert(blocks.take(blocks.len() as int) =~= blocks);
        assert forall|n: int| 0 <= n <= before.len() implies (start.after_blocks(
            #[trigger] before.take(n),
        ) matches Some(middle) ==> middle.mmr.nodes.dom().finite()) by {
            assert(before.take(n) =~= blocks.take(n));
            assert(start.after_blocks(blocks.take(n)) == start.after_blocks(before.take(n)));
        }
        law_taken_blocks_store_their_nodes(start, before);
        if let Some(end) = start.after_blocks(blocks) {
            let middle = start.after_blocks(before).unwrap();
            let between = middle.updates.new_authentication_nodes;
            let kept = end.updates.new_authentication_nodes;
            let block = blocks.last();
            if block.relevant {
                assert(start.after_blocks(blocks.take(blocks.len() as int)) == Some(end));
                law_following_stores_new_nodes(
                    middle.mmr,
                    block.header,
                    block.path,
                    middle.updates,
                );
                assert(kept.take(held.len() as int) =~= between.take(held.len() as int)) by {
                    assert forall|i: int| 0 <= i < held.len() implies kept[i] == between[i] by {
                        assert(kept.take(between.len() as int)[i] == between[i]);
                    }
                }
                assert forall|index: usize| #[trigger]
                    end.mmr.nodes.contains_key(index) implies start.mmr.nodes.contains_key(index)
                    || lists_node(kept.skip(held.len() as int), index) by {
                    if middle.mmr.nodes.contains_key(index) {
                        if !start.mmr.nodes.contains_key(index) {
                            let rest = between.skip(held.len() as int);
                            let i = choose|i: int|
                                0 <= i < rest.len() && (#[trigger] rest[i]).0 == index;
                            assert(kept.take(between.len() as int)[held.len() + i] == rest[i]);
                            assert(kept.skip(held.len() as int)[i].0 == index);
                        }
                    } else {
                        let rest = kept.skip(between.len() as int);
                        let i = choose|i: int|
                            0 <= i < rest.len() && (#[trigger] rest[i]).0 == index;
                        assert(kept.skip(held.len() as int)[between.len() - held.len() + i].0
                            == index);
                    }
                }
            }
        }
    }
}

/// After a whole sync, every node that the range holds and did not hold before is among those to
/// store.
pub proof fn law_sync_stores_new_nodes(
    mmr: MmrView,
    leaves: usize,
    data: Seq<Word>,
    tip: HeaderView,
    blocks: Seq<ScreenedBlock>,
)
    requires
        reports_inserts(mmr, leaves, data, tip.fields.commitment),
        advanced_chain(mmr, leaves, data, tip, ChainUpdatesView::none()) matches Some((range, kept))
            ==> stays_finite((ChainSyncView { mmr: range, updates: kept }), blocks),
    ensures
        synced_chain(mmr, leaves, data, tip, blocks) matches Some(end) ==> keeps_up(
            mmr.nodes,
            end.mmr.nodes,
            Seq::empty(),
            end.updates.new_authentication_nodes,
        ),
{
    if let Some((range, kept)) = advanced_chain(
        mmr,
        leaves,
        data,
        tip,
        ChainUpdatesView::none(),
    ) {
        law_advance_stores_new_nodes(mmr, leaves, data, tip, ChainUpdatesView::none());
        let start = ChainSyncView { mmr: range, updates: kept };
        law_taken_blocks_store_their_nodes(start, blocks);
        if let Some(end) = start.after_blocks(blocks) {
            let first = kept.new_authentication_nodes;
            let all = end.updates.new_authentication_nodes;
            assert(first.skip(0) =~= first);
            assert(all.skip(0) =~= all);
            assert(all.take(0) =~= Seq::empty());
            assert forall|index: usize| #[trigger]
                end.mmr.nodes.contains_key(index) implies mmr.nodes.contains_key(index)
                || lists_node(all.skip(0), index) by {
                if range.nodes.contains_key(index) {
                    if !mmr.nodes.contains_key(index) {
                        let i = choose|i: int|
                            0 <= i < first.len() && (#[trigger] first[i]).0 == index;
                        assert(all.take(first.len() as int)[i] == first[i]);
                        assert(all[i].0 == index);
                    }
                } else {
                    let rest = all.skip(first.len() as int);
                    let i = choose|i: int| 0 <= i < rest.len() && (#[trigger] rest[i]).0 == index;
                    assert(all[first.len() + i].0 == index);
                }
            }
        }
    }
}

/// Following fails only for a block that the range does not follow. A path that cannot be one of the
/// block's position is reported with the block; any other failure is the range's refusal.
pub proof fn law_failed_follow_is_explained(
    mmr: MmrView,
    header: HeaderView,
    path: Seq<Word>,
    updates: ChainUpdatesView,
    error: SyncError,
)
    requires
        is_follow_error(mmr, header, path, error),
    ensures
        followed_block(mmr, header, path, updates) is None,
        !mmr.followed.contains(header.fields.block_num as usize),
        error matches SyncError::MisplacedPath { block_num } ==> block_num
            == header.fields.block_num && (path.len() >= 256 || stands_before_tree(
            mmr.leaves,
            path.len(),
            header.fields.block_num as usize,
        )),
        error is MisplacedPath || error is Mmr,
        path.len() >= 256 || stands_before_tree(
            mmr.leaves,
            path.len(),
            header.fields.block_num as usize,
        ) ==> error is MisplacedPath,
{
}

/// Nothing to store is nothing: no header, no node and no peak.
pub proof fn law_nothing_is_stored_at_first()
    ensures
        ChainUpdatesView::none().block_headers.dom() == Set::<BlockNumber>::empty(),
        ChainUpdatesView::none().new_authentication_nodes.len() == 0,
        ChainUpdatesView::none().new_peaks.leaves == 0,
        ChainUpdatesView::none().new_peaks.peaks.len() == 0,
{
}

} // verus!

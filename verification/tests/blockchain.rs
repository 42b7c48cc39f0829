use miden_protocol::block::BlockHeader as ProtocolHeader;
use miden_protocol::crypto::merkle::mmr::{Forest, Mmr, PartialMmr};
use miden_protocol::utils::serde::Serializable;
use miden_protocol::Word as ProtocolWord;
use pswap_sync::block::BlockHeader;
use pswap_sync::mmr::MmrDelta;
use pswap_sync::primitives::Word;
use pswap_sync::rpc::note::NoteSyncBlock;
use pswap_sync::sorted_map::SortedMap;
use pswap_sync::sync::blockchain::{
    advance_mmr, follow_block, sync_height, ChainSync, PartialBlockchainUpdates,
};
use pswap_sync::sync::error::{ChainValidationError, SyncError};
use pswap_sync::sync::state_sync::{begin_update, finish_update};
use pswap_sync::sync::validation::{plan_fetch, ChainMmrInfo};

fn plain_word(word: ProtocolWord) -> Word {
    let [a, b, c, d]: [u64; 4] = word.into();
    Word { a, b, c, d }
}

/// A chain: its headers, each with the commitment to the blocks before it, and its range.
struct Chain {
    headers: Vec<ProtocolHeader>,
    mmr: Mmr,
}

impl Chain {
    fn new(blocks: u32) -> Chain {
        let mut chain = Chain { headers: Vec::new(), mmr: Mmr::new() };
        chain.advance(blocks);
        chain
    }

    fn advance(&mut self, blocks: u32) {
        for _ in 0..blocks {
            let number = self.headers.len() as u32;
            let commitment = self.mmr.peaks().hash_peaks();
            let header =
                ProtocolHeader::mock(number, Some(commitment), None, &[], ProtocolWord::empty());
            self.mmr.add(header.commitment()).unwrap();
            self.headers.push(header);
        }
    }

    fn tip(&self) -> u32 {
        self.headers.len() as u32 - 1
    }

    fn header(&self, block_num: u32) -> BlockHeader {
        BlockHeader::from_bytes(self.headers[block_num as usize].to_bytes()).unwrap()
    }

    /// What a node sends for the blocks behind one, up to and without another.
    fn delta(&self, from_leaves: u32, to_leaves: u32) -> MmrDelta {
        let from = Forest::new(from_leaves as usize).expect("valid forest");
        let to = Forest::new(to_leaves as usize).expect("valid forest");
        let delta = self.mmr.get_delta(from, to).unwrap();
        MmrDelta {
            leaves: delta.forest.num_leaves(),
            data: delta.data.into_iter().map(plain_word).collect(),
        }
    }

    fn path(&self, block_num: u32) -> Vec<Word> {
        let opening = self.mmr.open(block_num as usize).unwrap();
        opening.merkle_path().nodes().iter().map(|node| plain_word(*node)).collect()
    }

    fn note_block(&self, block_num: u32) -> NoteSyncBlock {
        NoteSyncBlock {
            block_header: self.header(block_num),
            mmr_path: self.path(block_num),
            notes: SortedMap::new(),
        }
    }

    fn genesis_partial_mmr(&self) -> PartialMmr {
        let peaks = self.mmr.peaks_at(Forest::new(1).expect("valid forest")).unwrap();
        PartialMmr::from_peaks(peaks)
    }
}

/// One sync without notes, transactions or accounts. Returns the block that it reaches.
fn sync_blocks(chain: &Chain, partial_mmr: &mut PartialMmr) -> u32 {
    let mut update = begin_update(partial_mmr, vec![]).unwrap();
    let current = update.block_num;
    assert_eq!(current, sync_height(partial_mmr).unwrap());
    let chain_mmr_info = ChainMmrInfo {
        block_from: current,
        block_to: chain.tip(),
        mmr_delta: chain.delta(current + 1, chain.tip().max(current + 1)),
        block_header: chain.header(chain.tip()),
    };
    match plan_fetch(&chain_mmr_info, current, false, false).unwrap() {
        None => assert!(update.partial_blockchain_updates.block_headers().is_empty()),
        Some(plan) => {
            let header = chain_mmr_info.block_header;
            let sync = ChainSync::advance(chain_mmr_info.mmr_delta, &header, partial_mmr).unwrap();
            finish_update(&mut update, sync, &header, partial_mmr);
            assert_eq!(update.block_num, plan.block_to);
            assert_eq!(update.partial_blockchain_updates.new_peaks.leaves, plan.block_to as usize);
            let headers = update.partial_blockchain_updates.block_headers();
            assert_eq!(headers.last().unwrap().0, header);
        }
    }
    update.block_num
}

#[test]
fn advance_mmr_rejects_delta_inconsistent_with_chain_commitment() {
    let chain = Chain::new(4);
    let chain_tip = chain.tip();
    let chain_tip_header = chain.header(chain_tip);

    // An MMR delta consistent with the chain tip header advances the MMR...
    advance_mmr(
        chain.delta(1, chain_tip),
        &chain_tip_header,
        &mut chain.genesis_partial_mmr(),
        &mut PartialBlockchainUpdates::default(),
    )
    .unwrap();

    // ...but one that stops short of the chain tip fails the chain commitment check.
    let result = advance_mmr(
        chain.delta(1, chain_tip - 1),
        &chain_tip_header,
        &mut chain.genesis_partial_mmr(),
        &mut PartialBlockchainUpdates::default(),
    );
    let stopped = chain.mmr.peaks_at(Forest::new(2).unwrap()).unwrap().hash_peaks();
    match result {
        Err(SyncError::ChainValidation(ChainValidationError::PeaksMismatch {
            commitment,
            chain_commitment,
        })) => {
            assert_eq!(commitment, plain_word(stopped));
            assert_eq!(chain_commitment, chain_tip_header.fields.chain_commitment);
        }
        other => panic!("expected a peaks mismatch, got {other:?}"),
    }
}

#[test]
fn sync_state_across_multiple_iterations_with_same_mmr() {
    let mut chain = Chain::new(1);
    chain.advance(3);
    let chain_tip_1 = chain.tip();

    // Build the initial partial range from genesis (only 1 leaf).
    let mut partial_mmr = chain.genesis_partial_mmr();
    assert_eq!(partial_mmr.forest().num_leaves(), 1);

    // First sync
    assert_eq!(sync_blocks(&chain, &mut partial_mmr), chain_tip_1);
    let forest_1 = partial_mmr.forest();
    // The range should contain one leaf per block (genesis + the new blocks).
    assert_eq!(forest_1.num_leaves(), chain_tip_1 as usize + 1);

    // Second sync
    chain.advance(2);
    let chain_tip_2 = chain.tip();
    assert_eq!(sync_blocks(&chain, &mut partial_mmr), chain_tip_2);
    let forest_2 = partial_mmr.forest();
    assert!(forest_2 > forest_1);
    assert_eq!(forest_2.num_leaves(), chain_tip_2 as usize + 1);

    // Third sync (no new blocks)
    assert_eq!(sync_blocks(&chain, &mut partial_mmr), chain_tip_2);
    assert_eq!(partial_mmr.forest(), forest_2);
    assert_eq!(partial_mmr.peaks().hash_peaks(), chain.mmr.peaks().hash_peaks());
}

#[test]
fn sync_at_the_tip_changes_nothing() {
    let chain = Chain::new(4);
    let mut partial_mmr = chain.genesis_partial_mmr();
    assert_eq!(sync_blocks(&chain, &mut partial_mmr), 3);

    let update = begin_update(&partial_mmr, vec![]).unwrap();
    assert_eq!(update.block_num, 3);
    let chain_mmr_info = ChainMmrInfo {
        block_from: 3,
        block_to: 3,
        mmr_delta: MmrDelta { leaves: 4, data: vec![] },
        block_header: chain.header(3),
    };
    assert_eq!(plan_fetch(&chain_mmr_info, update.block_num, true, true).unwrap(), None);
    assert!(update.partial_blockchain_updates.block_headers().is_empty());
    assert!(update.note_updates.updated_input_notes.is_empty());
    assert!(update.note_updates.updated_output_notes.is_empty());
    assert!(update.note_updates.consumed_note_ids.is_empty());
    assert!(update.transaction_updates.updated_transaction_ids().is_empty());
    assert!(update.account_updates.updated_public_accounts().is_empty());
    assert!(update.account_updates.mismatched_private_accounts().is_empty());
}

#[test]
fn sync_state_tracks_note_blocks_in_mmr() {
    let chain = Chain::new(5);
    let chain_tip = chain.tip();
    let note_block_nums: Vec<u32> = vec![1, 2, 3];
    let mut partial_mmr = chain.genesis_partial_mmr();

    let mut sync =
        ChainSync::advance(chain.delta(1, chain_tip), &chain.header(chain_tip), &partial_mmr)
            .unwrap();
    for bn in &note_block_nums {
        sync.take_block(&chain.note_block(*bn), true).unwrap();
    }
    // A block without a relevant note is passed over.
    sync.take_block(&chain.note_block(0), false).unwrap();
    let updates = sync.commit(&mut partial_mmr);

    assert_eq!(partial_mmr.forest().num_leaves(), chain_tip as usize + 1);
    for bn in &note_block_nums {
        assert!(partial_mmr.is_tracked(*bn as usize));
        let opening = partial_mmr.open(*bn as usize).unwrap().unwrap();
        assert_eq!(opening.leaf(), chain.headers[*bn as usize].commitment());
    }
    assert!(!partial_mmr.is_tracked(0));

    let headers = updates.block_headers();
    let numbers: Vec<(u32, bool)> =
        headers.iter().map(|entry| (entry.0.block_num(), entry.1)).collect();
    assert_eq!(numbers, vec![(1, true), (2, true), (3, true), (4, false)]);
}

#[test]
fn advancing_keeps_the_tip_and_the_peaks() {
    let chain = Chain::new(6);
    let tip = chain.tip();
    let mut partial_mmr = chain.genesis_partial_mmr();
    let mut updates = PartialBlockchainUpdates::default();
    advance_mmr(chain.delta(1, tip), &chain.header(tip), &mut partial_mmr, &mut updates).unwrap();

    let before_tip = chain.mmr.peaks_at(Forest::new(tip as usize).unwrap()).unwrap();
    assert_eq!(updates.new_peaks.leaves, tip as usize);
    let peaks: Vec<Word> = before_tip.peaks().iter().map(|peak| plain_word(*peak)).collect();
    assert_eq!(updates.new_peaks.peaks, peaks);
    let headers = updates.block_headers();
    assert_eq!(headers.len(), 1);
    assert_eq!(headers[0].0, chain.header(tip));
    assert!(!headers[0].1);
    assert_eq!(sync_height(&partial_mmr).unwrap(), tip);
}

#[test]
fn failed_sync_leaves_the_range_as_it_is() {
    let chain = Chain::new(5);
    let partial_mmr = chain.genesis_partial_mmr();
    let outcome = ChainSync::advance(chain.delta(1, 2), &chain.header(3), &partial_mmr);
    assert!(matches!(outcome, Err(SyncError::ChainValidation(_))));

    // A delta that does not fit the range is refused by it.
    let delta = MmrDelta { leaves: 3, data: vec![] };
    let outcome = ChainSync::advance(delta, &chain.header(3), &partial_mmr);
    assert!(matches!(outcome, Err(SyncError::Mmr(_))));

    // A block with the path of another is refused after the range was advanced.
    let mut sync =
        ChainSync::advance(chain.delta(1, 4), &chain.header(4), &partial_mmr).unwrap();
    let mut block = chain.note_block(2);
    block.mmr_path = chain.path(1);
    assert!(matches!(sync.take_block(&block, true), Err(SyncError::Mmr(_))));
    assert_eq!(partial_mmr.forest().num_leaves(), 1);
    assert!(!partial_mmr.is_tracked(2));
}

#[test]
fn failed_advance_keeps_no_updates() {
    let chain = Chain::new(5);
    let mut updates = PartialBlockchainUpdates::default();
    updates.insert(chain.header(0), true, vec![(2, Word::empty())]);

    // Peaks that do not open the tip's commitment: the range has moved, the updates have not.
    let mut partial_mmr = chain.genesis_partial_mmr();
    let outcome =
        advance_mmr(chain.delta(1, 2), &chain.header(3), &mut partial_mmr, &mut updates);
    assert!(matches!(outcome, Err(SyncError::ChainValidation(_))));
    assert_eq!(partial_mmr.forest().num_leaves(), 2);
    assert_eq!(updates.new_peaks.leaves, 0);
    assert!(updates.new_peaks.peaks.is_empty());
    assert_eq!(updates.block_headers().len(), 1);
    assert_eq!(updates.new_authentication_nodes(), &vec![(2, Word::empty())]);

    // A delta that is refused: neither has.
    for delta in [
        MmrDelta { leaves: 1, data: vec![] },
        MmrDelta { leaves: 2, data: vec![Word::empty()] },
        MmrDelta { leaves: 4, data: vec![] },
    ] {
        let before = partial_mmr.peaks();
        let outcome = advance_mmr(delta, &chain.header(3), &mut partial_mmr, &mut updates);
        assert!(matches!(outcome, Err(SyncError::Mmr(_))));
        assert_eq!(partial_mmr.forest().num_leaves(), 2);
        assert_eq!(partial_mmr.peaks(), before);
        assert_eq!(updates.new_peaks.leaves, 0);
        assert_eq!(updates.block_headers().len(), 1);
    }
}

#[test]
fn following_a_block_adds_its_nodes_once() {
    let chain = Chain::new(5);
    let tip = chain.tip();
    let mut partial_mmr = chain.genesis_partial_mmr();
    let mut updates = PartialBlockchainUpdates::default();
    advance_mmr(chain.delta(1, tip), &chain.header(tip), &mut partial_mmr, &mut updates).unwrap();
    let advanced = updates.new_authentication_nodes().len();

    follow_block(&chain.header(2), &chain.path(2), &mut partial_mmr, &mut updates).unwrap();
    let nodes: Vec<(usize, Word)> =
        partial_mmr.nodes().map(|(index, node)| (index.inner(), plain_word(*node))).collect();
    let followed = updates.new_authentication_nodes().clone();
    assert!(followed.len() > advanced);
    for node in &followed[advanced..] {
        assert!(nodes.contains(node));
    }

    follow_block(&chain.header(2), &chain.path(2), &mut partial_mmr, &mut updates).unwrap();
    assert_eq!(updates.new_authentication_nodes(), &followed);
}

#[test]
fn blocks_are_followed_only_by_their_own_paths() {
    let chain = Chain::new(5);
    let tip = chain.tip();
    let mut partial_mmr = chain.genesis_partial_mmr();
    let mut updates = PartialBlockchainUpdates::default();
    advance_mmr(chain.delta(1, tip), &chain.header(tip), &mut partial_mmr, &mut updates).unwrap();

    // The path of another block.
    let outcome =
        follow_block(&chain.header(2), &chain.path(1), &mut partial_mmr, &mut updates);
    assert!(matches!(outcome, Err(SyncError::Mmr(_))));
    assert!(!partial_mmr.is_tracked(2));

    // A path as long as that of the last block, which stands in a tree of its own.
    let outcome = follow_block(&chain.header(2), &vec![], &mut partial_mmr, &mut updates);
    assert!(matches!(outcome, Err(SyncError::MisplacedPath { block_num: 2 })));

    let long = vec![Word::empty(); 256];
    let outcome = follow_block(&chain.header(2), &long, &mut partial_mmr, &mut updates);
    assert!(matches!(outcome, Err(SyncError::MisplacedPath { block_num: 2 })));
    assert_eq!(updates.block_headers().len(), 1);
}

#[test]
fn notes_of_the_client_are_remembered() {
    let chain = Chain::new(2);
    let mut updates = PartialBlockchainUpdates::default();
    updates.insert(chain.header(1), false, vec![(4, Word::empty())]);
    updates.insert(chain.header(1), true, vec![]);
    updates.insert(chain.header(0), true, vec![]);
    updates.insert(chain.header(0), false, vec![(2, Word::empty())]);
    let headers = updates.block_headers();
    let numbers: Vec<(u32, bool)> =
        headers.iter().map(|entry| (entry.0.block_num(), entry.1)).collect();
    assert_eq!(numbers, vec![(0, true), (1, true)]);
    assert_eq!(
        updates.new_authentication_nodes(),
        &vec![(4, Word::empty()), (2, Word::empty())]
    );
}

#[test]
fn height_of_an_empty_range_is_the_first_block() {
    assert_eq!(sync_height(&PartialMmr::default()).unwrap(), 0);
    let chain = Chain::new(3);
    assert_eq!(sync_height(&PartialMmr::from_peaks(chain.mmr.peaks())).unwrap(), 2);
}

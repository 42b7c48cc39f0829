//! The part of the chain's Merkle mountain range that a client keeps.
use miden_protocol::crypto::merkle::mmr::{
    Forest, MmrDelta as ProtocolDelta, MmrError, MmrPeaks as ProtocolPeaks, PartialMmr,
};
use miden_protocol::crypto::merkle::MerklePath;
use miden_protocol::{Felt, Word as ProtocolWord};
use vstd::arithmetic::power2::pow2;
use vstd::prelude::*;

use crate::primitives::Word;
use crate::sorted_map::{as_map, sorted};

verus! {

#[verifier::external_type_specification]
#[verifier::external_body]
pub struct ExPartialMmr(PartialMmr);

#[verifier::external_type_specification]
#[verifier::external_body]
pub struct ExMmrError(MmrError);

/// How many leaves a partial range counts.
pub uninterp spec fn mmr_leaves_of(mmr: PartialMmr) -> usize;

/// The peaks of a partial range, from the largest tree to the smallest.
pub uninterp spec fn mmr_peaks_of(mmr: PartialMmr) -> Seq<Word>;

/// The nodes that a partial range holds, by their in-order indices.
pub uninterp spec fn mmr_nodes_of(mmr: PartialMmr) -> Map<usize, Word>;

/// The positions of the leaves that a partial range follows.
pub uninterp spec fn mmr_followed_of(mmr: PartialMmr) -> Set<usize>;

/// What a partial range holds.
#[verifier::ext_equal]
pub ghost struct MmrView {
    pub leaves: usize,
    pub peaks: Seq<Word>,
    pub nodes: Map<usize, Word>,
    pub followed: Set<usize>,
}

pub open spec fn mmr_view_of(mmr: PartialMmr) -> MmrView {
    MmrView {
        leaves: mmr_leaves_of(mmr),
        peaks: mmr_peaks_of(mmr),
        nodes: mmr_nodes_of(mmr),
        followed: mmr_followed_of(mmr),
    }
}

/// The most leaves that a range can have on this machine.
pub open spec fn max_leaves() -> int {
    if u32::MAX < usize::MAX / 2 {
        u32::MAX as int
    } else {
        usize::MAX as int / 2
    }
}

/// The peaks of a range and the number of its leaves.
#[derive(Debug)]
pub struct MmrPeaks {
    pub leaves: usize,
    pub peaks: Vec<Word>,
}

/// What [`MmrPeaks`] hold.
#[verifier::ext_equal]
pub ghost struct PeaksView {
    pub leaves: usize,
    pub peaks: Seq<Word>,
}

impl View for MmrPeaks {
    type V = PeaksView;

    open spec fn view(&self) -> PeaksView {
        PeaksView { leaves: self.leaves, peaks: self.peaks@ }
    }
}

/// What leads from one state of a range to a later one, with more leaves.
#[derive(Debug)]
pub struct MmrDelta {
    pub leaves: usize,
    pub data: Vec<Word>,
}

impl MmrDelta {
    pub open spec fn wf(self) -> bool {
        self.leaves <= max_leaves()
    }
}

/// Copies a partial range with `PartialMmr::clone`. The claim is that the copy holds what the
/// range holds.
#[verifier::external_body]
pub(crate) fn copy_mmr(mmr: &PartialMmr) -> (copy: PartialMmr)
    ensures
        mmr_view_of(copy) == mmr_view_of(*mmr),
{
    mmr.clone()
}

/// Counts the leaves of a partial range with `PartialMmr::num_leaves`.
#[verifier::external_body]
pub(crate) fn mmr_leaves(mmr: &PartialMmr) -> (leaves: usize)
    ensures
        leaves == mmr_leaves_of(*mmr),
        leaves <= max_leaves(),
{
    mmr.num_leaves()
}

/// Reads the peaks of a partial range with `PartialMmr::peaks`.
#[verifier::external_body]
pub(crate) fn mmr_peaks(mmr: &PartialMmr) -> (peaks: MmrPeaks)
    ensures
        peaks@ == (PeaksView { leaves: mmr_leaves_of(*mmr), peaks: mmr_peaks_of(*mmr) }),
{
    let (forest, words) = mmr.peaks().into_parts();
    let peaks = words.into_iter().map(|word| {
        let [a, b, c, d]: [u64; 4] = word.into();
        Word { a, b, c, d }
    }).collect();
    MmrPeaks { leaves: forest.num_leaves(), peaks }
}

/// The commitment to the peaks of a range.
pub uninterp spec fn peaks_commitment_of(peaks: Seq<Word>) -> Word;

/// Computes the commitment to the peaks of a partial range with `MmrPeaks::hash_peaks`. The claim
/// is that it depends on the peaks alone.
#[verifier::external_body]
pub(crate) fn commit_to_peaks(mmr: &PartialMmr) -> (commitment: Word)
    ensures
        commitment == peaks_commitment_of(mmr_peaks_of(*mmr)),
{
    let [a, b, c, d]: [u64; 4] = ProtocolPeaks::from(mmr).hash_peaks().into();
    Word { a, b, c, d }
}

/// Whether a partial range follows the leaf at a position, as `PartialMmr::is_tracked` tells.
#[verifier::external_body]
pub(crate) fn is_followed(mmr: &PartialMmr, position: usize) -> (followed: bool)
    ensures
        followed == mmr_followed_of(*mmr).contains(position),
{
    mmr.is_tracked(position)
}

/// Lists the nodes of a partial range with `PartialMmr::nodes`, in the order of their indices.
#[verifier::external_body]
pub(crate) fn mmr_nodes(mmr: &PartialMmr) -> (nodes: Vec<(usize, Word)>)
    ensures
        sorted(nodes@),
        as_map(nodes@) == mmr_nodes_of(*mmr),
{
    mmr.nodes().map(|(index, word)| {
        let [a, b, c, d]: [u64; 4] = (*word).into();
        (index.inner(), Word { a, b, c, d })
    }).collect()
}

/// Whether some nodes stand for an index.
pub open spec fn lists_node(nodes: Seq<(usize, Word)>, index: usize) -> bool {
    exists|i: int| 0 <= i < nodes.len() && (#[trigger] nodes[i]).0 == index
}

/// Whether the nodes that were inserted into a range account for what it holds: each is held
/// afterwards, each node that is held afterwards was held before or is among them, and no index
/// was given up.
pub open spec fn accounts_for(
    before: Map<usize, Word>,
    after: Map<usize, Word>,
    inserted: Seq<(usize, Word)>,
) -> bool {
    &&& before.dom().subset_of(after.dom())
    &&& forall|i: int|
        0 <= i < inserted.len() ==> after.contains_key((#[trigger] inserted[i]).0)
            && after[inserted[i].0] == inserted[i].1
    &&& forall|index: usize| #[trigger]
        after.contains_key(index) ==> before.contains_key(index) || lists_node(inserted, index)
}

/// The peaks and the nodes of a partial range after a delta, and the nodes that were inserted; or
/// nothing, where the delta does not fit the range.
pub uninterp spec fn delta_effect_of(mmr: MmrView, leaves: usize, data: Seq<Word>) -> Option<
    (Seq<Word>, Map<usize, Word>, Seq<(usize, Word)>),
>;

/// What applying a delta to a partial range gives: the range after it, and the nodes that were
/// inserted; or nothing, where the delta does not fit the range. The range counts the leaves of the
/// delta and follows the leaves that it followed.
pub open spec fn applied_delta(mmr: MmrView, leaves: usize, data: Seq<Word>) -> Option<
    (MmrView, Seq<(usize, Word)>),
> {
    match delta_effect_of(mmr, leaves, data) {
        Some((peaks, nodes, inserted)) => Some(
            (MmrView { leaves, peaks, nodes, followed: mmr.followed }, inserted),
        ),
        None => None,
    }
}

/// Applies a delta with `PartialMmr::apply`. The claims are that the outcome depends on what the
/// range and the delta hold, that the range then counts the leaves of the delta and follows the
/// leaves that it followed, that the nodes which come back account for what the range holds, and
/// that a delta which does not fit leaves the range as it was.
#[verifier::external_body]
pub(crate) fn apply_delta(mmr: &mut PartialMmr, delta: MmrDelta) -> (outcome: Result<
    Vec<(usize, Word)>,
    MmrError,
>)
    requires
        delta.wf(),
    ensures
        match outcome {
            Ok(nodes) => delta_effect_of(mmr_view_of(*old(mmr)), delta.leaves, delta.data@) == Some(
                (mmr_peaks_of(*final(mmr)), mmr_nodes_of(*final(mmr)), nodes@),
            ) && mmr_leaves_of(*final(mmr)) == delta.leaves && mmr_followed_of(*final(mmr))
                == mmr_followed_of(*old(mmr)) && accounts_for(
                mmr_nodes_of(*old(mmr)),
                mmr_nodes_of(*final(mmr)),
                nodes@,
            ),
            Err(_) => delta_effect_of(mmr_view_of(*old(mmr)), delta.leaves, delta.data@) is None
                && mmr_view_of(*final(mmr)) == mmr_view_of(*old(mmr)),
        },
{
    let word = |w: Word| ProtocolWord::new([w.a, w.b, w.c, w.d].map(Felt::new_unchecked));
    let data = delta.data.into_iter().map(word).collect();
    let forest = Forest::new(delta.leaves).unwrap();
    let nodes = mmr.apply(ProtocolDelta { forest, data })?;
    Ok(nodes.into_iter().map(|(index, word)| {
        let [a, b, c, d]: [u64; 4] = word.into();
        (index.inner(), Word { a, b, c, d })
    }).collect())
}

/// The peaks and the nodes of a partial range after a leaf was added without being followed, and
/// the nodes that were inserted.
pub uninterp spec fn leaf_effect_of(mmr: MmrView, leaf: Word) -> (
    Seq<Word>,
    Map<usize, Word>,
    Seq<(usize, Word)>,
);

/// What adding a leaf to a partial range, without following it, gives: the range after it, with one
/// leaf more, and the nodes that were inserted.
pub open spec fn added_leaf(mmr: MmrView, leaf: Word) -> (MmrView, Seq<(usize, Word)>) {
    let (peaks, nodes, inserted) = leaf_effect_of(mmr, leaf);
    (
        MmrView { leaves: (mmr.leaves + 1) as usize, peaks, nodes, followed: mmr.followed },
        inserted,
    )
}

/// Adds a leaf with `PartialMmr::add`, without following it. The claims are that it is refused
/// exactly where the range is full, with the range left as it was, that the outcome depends on
/// what the range holds and on the leaf, that the range then counts one leaf more and follows the
/// leaves that it followed, and that the nodes which come back account for what the range holds.
#[verifier::external_body]
pub(crate) fn add_leaf(mmr: &mut PartialMmr, leaf: Word) -> (outcome: Result<
    Vec<(usize, Word)>,
    MmrError,
>)
    ensures
        outcome is Err <==> mmr_leaves_of(*old(mmr)) >= max_leaves(),
        match outcome {
            Ok(nodes) => leaf_effect_of(mmr_view_of(*old(mmr)), leaf) == (
                mmr_peaks_of(*final(mmr)),
                mmr_nodes_of(*final(mmr)),
                nodes@,
            ) && mmr_leaves_of(*final(mmr)) == mmr_leaves_of(*old(mmr)) + 1 && mmr_followed_of(
                *final(mmr),
            ) == mmr_followed_of(*old(mmr)) && accounts_for(
                mmr_nodes_of(*old(mmr)),
                mmr_nodes_of(*final(mmr)),
                nodes@,
            ),
            Err(_) => mmr_view_of(*final(mmr)) == mmr_view_of(*old(mmr)),
        },
{
    let felts = [leaf.a, leaf.b, leaf.c, leaf.d].map(Felt::new_unchecked);
    let nodes = mmr.add(ProtocolWord::new(felts), false)?;
    Ok(nodes.into_iter().map(|(index, word)| {
        let [a, b, c, d]: [u64; 4] = word.into();
        (index.inner(), Word { a, b, c, d })
    }).collect())
}

/// Whether a range with some number of leaves has a tree of a depth, all of whose leaves stand
/// behind a position.
pub open spec fn stands_before_tree(leaves: usize, depth: nat, position: usize) -> bool {
    &&& (leaves as int / pow2(depth) as int) % 2 == 1
    &&& position < (leaves as int / pow2(depth + 1) as int) * pow2(depth + 1)
}

/// The nodes of a partial range after a leaf was followed; or nothing, where the path does not lead
/// from the leaf to a peak.
pub uninterp spec fn followed_nodes_of(
    mmr: MmrView,
    position: usize,
    leaf: Word,
    path: Seq<Word>,
) -> Option<Map<usize, Word>>;

/// What following a leaf gives: the range after it, which follows that leaf as well and is
/// otherwise changed in its nodes alone; or nothing, where the path does not lead from the leaf to a
/// peak.
pub open spec fn followed_leaf(
    mmr: MmrView,
    position: usize,
    leaf: Word,
    path: Seq<Word>,
) -> Option<MmrView> {
    match followed_nodes_of(mmr, position, leaf, path) {
        Some(nodes) => Some(MmrView { nodes, followed: mmr.followed.insert(position), ..mmr }),
        None => None,
    }
}

/// Follows a leaf with `PartialMmr::track`. The claims are that the outcome depends on what the
/// range holds, on the position, on the leaf and on its path, that a refusal leaves the range as it
/// was, and that otherwise the range follows that leaf as well, counts the leaves that it counted,
/// has the peaks that it had, and still has a node wherever it had one. A position before the tree
/// that the path's length points to, and a path of more than 255 nodes, are left out: on these the
/// call does not return everywhere.
#[verifier::external_body]
pub(crate) fn follow_leaf(
    mmr: &mut PartialMmr,
    position: usize,
    leaf: Word,
    path: &Vec<Word>,
) -> (outcome: Result<(), MmrError>)
    requires
        path@.len() < 256,
        !stands_before_tree(mmr_leaves_of(*old(mmr)), path@.len(), position),
    ensures
        match outcome {
            Ok(()) => followed_nodes_of(mmr_view_of(*old(mmr)), position, leaf, path@) == Some(
                mmr_nodes_of(*final(mmr)),
            ) && mmr_followed_of(*final(mmr)) == mmr_followed_of(*old(mmr)).insert(position)
                && mmr_leaves_of(*final(mmr)) == mmr_leaves_of(*old(mmr)) && mmr_peaks_of(
                *final(mmr),
            ) == mmr_peaks_of(*old(mmr)) && mmr_nodes_of(*old(mmr)).dom().subset_of(
                mmr_nodes_of(*final(mmr)).dom(),
            ),
            Err(_) => followed_nodes_of(mmr_view_of(*old(mmr)), position, leaf, path@) is None
                && mmr_view_of(*final(mmr)) == mmr_view_of(*old(mmr)),
        },
{
    let word = |w: &Word| ProtocolWord::new([w.a, w.b, w.c, w.d].map(Felt::new_unchecked));
    mmr.track(position, word(&leaf), &MerklePath::new(path.iter().map(word).collect()))
}

} // verus!

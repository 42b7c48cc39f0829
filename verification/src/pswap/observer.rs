//! Watches the notes of a sync for those of tracked orders, and the transactions of this wallet
//! for new orders.
use vstd::prelude::*;

use super::discovery::{ChainNoteView, PswapChainNoteUpdate};
use super::lineage::{LineageView, PswapLineageRecord, PswapLineageState, RoundView};
use super::note::{raw_terms_of, PswapNote, PswapNoteAttachment, PswapTerms, PswapView};
use super::store::{round_plan, row_of, stored_round, subscription_of, RowView};
use crate::asset::{AssetAmount, MAX_ASSET_AMOUNT};
use crate::note::{
    note_id_of, view_attachments, AttachmentHeaders, AttachmentView, Note, NoteAttachment, NoteInclusionProof,
    NoteView, ProofView,
};
use crate::primitives::{AccountId, BlockNumber, NoteId, NoteTag, Word};
use crate::rpc::note::{CommittedNote, CommittedView, FetchedNote, FetchedView};
use crate::sync::tag::{NoteTagRecord, NoteTagSource};

verus! {

/// The scheme of the attachment that the PSWAP script puts on every note it emits.
pub const PSWAP_ATTACHMENT_SCHEME: u16 = 3;

/// Reads the constant `PswapNote::PSWAP_ATTACHMENT_SCHEME`; the claim is its value.
#[verifier::external_body]
fn pswap_attachment_scheme() -> (scheme: u16)
    ensures
        scheme == PSWAP_ATTACHMENT_SCHEME,
{
    miden_standards::note::PswapNote::PSWAP_ATTACHMENT_SCHEME.as_u16()
}

// CHAIN OBSERVER
// ================================================================================================

/// A note of the sync whose headers announce a PSWAP attachment. The attachment's content is
/// resolved after the sync.
#[derive(Debug)]
pub struct PendingPswapNote {
    pub note_id: NoteId,
    pub sender: AccountId,
    pub tag: NoteTag,
    pub block_num: BlockNumber,
    pub inclusion_proof: NoteInclusionProof,
}

/// What a [`PendingPswapNote`] stands for.
#[verifier::ext_equal]
pub ghost struct PendingView {
    pub note_id: NoteId,
    pub sender: AccountId,
    pub tag: NoteTag,
    pub block_num: BlockNumber,
    pub inclusion_proof: ProofView,
}

impl View for PendingPswapNote {
    type V = PendingView;

    open spec fn view(&self) -> PendingView {
        PendingView {
            note_id: self.note_id,
            sender: self.sender,
            tag: self.tag,
            block_num: self.block_num,
            inclusion_proof: self.inclusion_proof@,
        }
    }
}

pub open spec fn view_pending(pending: Seq<PendingPswapNote>) -> Seq<PendingView> {
    pending.map_values(|note: PendingPswapNote| note@)
}

/// Whether one of the headers announces a PSWAP attachment.
pub open spec fn announces_pswap(headers: AttachmentHeaders) -> bool {
    headers.slots().contains(Some(PSWAP_ATTACHMENT_SCHEME))
}

/// The pending note that a committed note becomes.
pub open spec fn pending_of(note: CommittedView) -> PendingView {
    PendingView {
        note_id: note.note_id,
        sender: note.metadata.sender,
        tag: note.metadata.tag,
        block_num: note.inclusion_proof.block_num,
        inclusion_proof: note.inclusion_proof,
    }
}

/// A PSWAP attachment is announced by any of the four slots.
pub proof fn law_any_slot_announces(headers: AttachmentHeaders)
    ensures
        announces_pswap(headers) <==> headers.first == Some(PSWAP_ATTACHMENT_SCHEME)
            || headers.second == Some(PSWAP_ATTACHMENT_SCHEME) || headers.third == Some(
            PSWAP_ATTACHMENT_SCHEME,
        ) || headers.fourth == Some(PSWAP_ATTACHMENT_SCHEME),
{
    let slots = headers.slots();
    assert(slots[0] == headers.first && slots[1] == headers.second && slots[2] == headers.third
        && slots[3] == headers.fourth);
    if slots.contains(Some(PSWAP_ATTACHMENT_SCHEME)) {
        let i = slots.index_of(Some(PSWAP_ATTACHMENT_SCHEME));
        assert(slots[i] == Some(PSWAP_ATTACHMENT_SCHEME));
    }
}

/// A pending note is the committed note: it has its identifier, the sender and the tag of its
/// metadata, and its place, in the block that the place names.
pub proof fn law_pending_note_is_the_committed_one(note: CommittedView)
    ensures
        pending_of(note).note_id == note.note_id,
        pending_of(note).sender == note.metadata.sender,
        pending_of(note).tag == note.metadata.tag,
        pending_of(note).inclusion_proof == note.inclusion_proof,
        pending_of(note).block_num == pending_of(note).inclusion_proof.block_num,
{
}

/// Collects, over one sync, the notes that announce a PSWAP attachment.
pub struct PswapChainObserver {
    pub pending_pswap_notes: Vec<PendingPswapNote>,
}

impl View for PswapChainObserver {
    type V = Seq<PendingView>;

    open spec fn view(&self) -> Seq<PendingView> {
        view_pending(self.pending_pswap_notes@)
    }
}

impl PswapChainObserver {
    pub fn new() -> (observer: PswapChainObserver)
        ensures
            observer@ == Seq::<PendingView>::empty(),
    {
        let observer = PswapChainObserver { pending_pswap_notes: Vec::new() };
        assert(observer@ =~= Seq::<PendingView>::empty());
        observer
    }

    /// Takes note of a committed note, if its headers announce a PSWAP attachment.
    pub fn observe(&mut self, committed_note: &CommittedNote)
        ensures
            final(self)@ == (if announces_pswap(committed_note.metadata.attachment_headers) {
                old(self)@.push(pending_of(committed_note@))
            } else {
                old(self)@
            }),
    {
        let scheme: u16 = pswap_attachment_scheme();
        let headers = &committed_note.metadata.attachment_headers;
        let announced = is_scheme(headers.first, scheme) || is_scheme(headers.second, scheme)
            || is_scheme(headers.third, scheme) || is_scheme(headers.fourth, scheme);
        proof {
            let slots = headers.slots();
            assert(slots[0] == headers.first && slots[1] == headers.second && slots[2]
                == headers.third && slots[3] == headers.fourth);
            if slots.contains(Some(PSWAP_ATTACHMENT_SCHEME)) {
                let i = slots.index_of(Some(PSWAP_ATTACHMENT_SCHEME));
                assert(slots[i] == Some(PSWAP_ATTACHMENT_SCHEME));
            }
        }
        if !announced {
            return;
        }
        let ghost before = self@;
        let inclusion_proof = committed_note.inclusion_proof.clone();
        self.pending_pswap_notes.push(
            PendingPswapNote {
                note_id: committed_note.note_id,
                sender: committed_note.sender(),
                tag: committed_note.tag(),
                block_num: inclusion_proof.block_num,
                inclusion_proof,
            },
        );
        assert(self@ =~= before.push(pending_of(committed_note@)));
    }

    /// Hands out what was collected and starts over.
    pub fn take_pending(&mut self) -> (pending: Vec<PendingPswapNote>)
        ensures
            view_pending(pending@) == old(self)@,
            final(self)@ == Seq::<PendingView>::empty(),
    {
        let mut pending: Vec<PendingPswapNote> = Vec::new();
        std::mem::swap(&mut pending, &mut self.pending_pswap_notes);
        assert(self@ =~= Seq::<PendingView>::empty());
        pending
    }
}

fn is_scheme(header: Option<u16>, scheme: u16) -> (same: bool)
    ensures
        same == (header == Some(scheme)),
{
    match header {
        Some(other) => other == scheme,
        None => false,
    }
}

/// Whether a sync holds nothing about any order: no pending note, and no consumed one.
pub fn is_quiet_sync(pending: &Vec<PendingPswapNote>, consumed_note_ids: &Vec<NoteId>) -> (quiet:
    bool)
    ensures
        quiet == (pending@.len() == 0 && consumed_note_ids@.len() == 0),
{
    pending.is_empty() && consumed_note_ids.is_empty()
}

// ATTACHMENTS
// ================================================================================================

/// The first attachment with a PSWAP scheme, from a position on.
pub open spec fn find_pswap_attachment(attachments: Seq<AttachmentView>) -> Option<
    AttachmentView,
>
    decreases attachments.len(),
{
    if attachments.len() == 0 {
        None
    } else if attachments[0].scheme == PSWAP_ATTACHMENT_SCHEME {
        Some(attachments[0])
    } else {
        find_pswap_attachment(attachments.skip(1))
    }
}

/// What a PSWAP attachment word `[amount, order, depth, 0]` says, if its amount and its depth are
/// in range.
pub open spec fn attachment_of_word(word: Word) -> Option<PswapNoteAttachment> {
    if word.a > MAX_ASSET_AMOUNT || word.c > u32::MAX {
        None
    } else {
        Some(
            PswapNoteAttachment {
                amount: AssetAmount { value: word.a },
                order_id: word.b,
                depth: word.c as u32,
            },
        )
    }
}

/// What a note's PSWAP attachment says; `None` when it has none, or an empty or malformed one.
pub open spec fn pswap_attachment_of(attachments: Seq<AttachmentView>) -> Option<
    PswapNoteAttachment,
> {
    match find_pswap_attachment(attachments) {
        None => None,
        Some(attachment) => if attachment.words.len() == 0 {
            None
        } else {
            attachment_of_word(attachment.words[0])
        },
    }
}

/// The first PSWAP attachment decides: its first word gives the amount, the order and the depth, in
/// this order. There is nothing to read where no attachment is a PSWAP attachment, where the first
/// one is empty, and where its amount or its depth is out of range.
pub proof fn law_first_pswap_attachment_decides(attachments: Seq<AttachmentView>, i: int)
    requires
        0 <= i <= attachments.len(),
        forall|j: int|
            0 <= j < i ==> (#[trigger] attachments[j]).scheme != PSWAP_ATTACHMENT_SCHEME,
        i < attachments.len() ==> attachments[i].scheme == PSWAP_ATTACHMENT_SCHEME,
    ensures
        i == attachments.len() ==> pswap_attachment_of(attachments) is None,
        i < attachments.len() && attachments[i].words.len() == 0 ==> pswap_attachment_of(
            attachments,
        ) is None,
        i < attachments.len() && attachments[i].words.len() > 0 ==> {
            let word = attachments[i].words[0];
            match pswap_attachment_of(attachments) {
                Some(attachment) => attachment.amount.value == word.a && attachment.order_id
                    == word.b && attachment.depth == word.c && attachment.amount.wf(),
                None => word.a > MAX_ASSET_AMOUNT || word.c > u32::MAX,
            }
        },
    decreases i,
{
    if i > 0 {
        let rest = attachments.skip(1);
        assert(attachments[0].scheme != PSWAP_ATTACHMENT_SCHEME);
        assert forall|j: int| 0 <= j < i - 1 implies (#[trigger] rest[j]).scheme
            != PSWAP_ATTACHMENT_SCHEME by {
            assert(rest[j] == attachments[j + 1]);
        }
        law_first_pswap_attachment_decides(rest, i - 1);
    }
}

/// Reads a note's PSWAP attachment.
pub fn extract_pswap_attachment(attachments: &Vec<NoteAttachment>) -> (attachment: Option<
    PswapNoteAttachment,
>)
    ensures
        attachment == pswap_attachment_of(view_attachments(attachments@)),
        attachment matches Some(attachment) ==> attachment.amount.wf(),
{
    let scheme: u16 = pswap_attachment_scheme();
    let ghost views = view_attachments(attachments@);
    let mut i: usize = 0;
    assert(views.skip(0) =~= views);
    while i < attachments.len()
        invariant
            i <= attachments.len(),
            scheme == PSWAP_ATTACHMENT_SCHEME,
            views == view_attachments(attachments@),
            find_pswap_attachment(views) == find_pswap_attachment(views.skip(i as int)),
        decreases attachments.len() - i,
    {
        assert(views.skip(i as int)[0] == attachments@[i as int]@);
        assert(views.skip(i as int).skip(1) =~= views.skip(i + 1));
        if attachments[i].scheme == scheme {
            if attachments[i].words.is_empty() {
                return None;
            }
            let word = attachments[i].words[0];
            let amount = match AssetAmount::new(word.a) {
                Ok(amount) => amount,
                Err(_) => {
                    return None;
                },
            };
            if word.c > u32::MAX as u64 {
                return None;
            }
            return Some(PswapNoteAttachment { amount, order_id: word.b, depth: word.c as u32 });
        }
        i += 1;
    }
    None
}

// RESOLUTION
// ================================================================================================

/// The first pending note with an identifier.
pub open spec fn find_pending(pending: Seq<PendingView>, id: NoteId) -> Option<PendingView>
    decreases pending.len(),
{
    if pending.len() == 0 {
        None
    } else if pending[0].note_id == id {
        Some(pending[0])
    } else {
        find_pending(pending.skip(1), id)
    }
}

/// The first lineage of an order.
pub open spec fn find_lineage(lineages: Seq<LineageView>, order_id: u64) -> Option<LineageView>
    decreases lineages.len(),
{
    if lineages.len() == 0 {
        None
    } else if lineages[0].order_id() == order_id {
        Some(lineages[0])
    } else {
        find_lineage(lineages.skip(1), order_id)
    }
}

/// The chain note that a fetched note becomes. It has to be one that was asked for, to carry a
/// readable PSWAP attachment, and to belong to a later round of an active lineage.
pub open spec fn resolve_note(
    pending: Seq<PendingView>,
    lineages: Seq<LineageView>,
    fetched: FetchedView,
) -> Option<ChainNoteView> {
    match (find_pending(pending, fetched.id()), pswap_attachment_of(fetched.attachments())) {
        (Some(note), Some(attachment)) => match find_lineage(lineages, attachment.order_id) {
            Some(lineage) if lineage.state == PswapLineageState::Active && attachment.depth
                > lineage.current_depth => Some(
                ChainNoteView {
                    note_id: note.note_id,
                    attachment,
                    sender: note.sender,
                    tag: note.tag,
                    block_num: note.block_num,
                    inclusion_proof: note.inclusion_proof,
                },
            ),
            _ => None,
        },
        _ => None,
    }
}

/// The chain notes that some fetched notes become, in their order.
pub open spec fn resolve_notes(
    pending: Seq<PendingView>,
    lineages: Seq<LineageView>,
    fetched: Seq<FetchedView>,
) -> Seq<ChainNoteView>
    decreases fetched.len(),
{
    if fetched.len() == 0 {
        Seq::empty()
    } else {
        let before = resolve_notes(pending, lineages, fetched.drop_last());
        match resolve_note(pending, lineages, fetched.last()) {
            Some(note) => before.push(note),
            None => before,
        }
    }
}

pub open spec fn view_fetched_notes(fetched: Seq<FetchedNote>) -> Seq<FetchedView> {
    fetched.map_values(|note: FetchedNote| note@)
}

fn position_of_pending(pending: &Vec<PendingPswapNote>, id: NoteId) -> (position: Option<usize>)
    ensures
        match position {
            Some(i) => i < pending@.len() && find_pending(view_pending(pending@), id) == Some(
                pending@[i as int]@,
            ),
            None => find_pending(view_pending(pending@), id) is None,
        },
{
    let ghost views = view_pending(pending@);
    let mut i: usize = 0;
    assert(views.skip(0) =~= views);
    while i < pending.len()
        invariant
            i <= pending.len(),
            views == view_pending(pending@),
            find_pending(views, id) == find_pending(views.skip(i as int), id),
        decreases pending.len() - i,
    {
        assert(views.skip(i as int)[0] == pending@[i as int]@);
        assert(views.skip(i as int).skip(1) =~= views.skip(i + 1));
        if pending[i].note_id == id {
            return Some(i);
        }
        i += 1;
    }
    None
}

fn position_of_lineage(lineages: &Vec<PswapLineageRecord>, order_id: u64) -> (position: Option<
    usize,
>)
    ensures
        match position {
            Some(i) => i < lineages@.len() && find_lineage(
                super::discovery::view_lineages(lineages@),
                order_id,
            ) == Some(lineages@[i as int]@),
            None => find_lineage(super::discovery::view_lineages(lineages@), order_id) is None,
        },
{
    let ghost views = super::discovery::view_lineages(lineages@);
    let mut i: usize = 0;
    assert(views.skip(0) =~= views);
    while i < lineages.len()
        invariant
            i <= lineages.len(),
            views == super::discovery::view_lineages(lineages@),
            find_lineage(views, order_id) == find_lineage(views.skip(i as int), order_id),
        decreases lineages.len() - i,
    {
        assert(views.skip(i as int)[0] == lineages@[i as int]@);
        assert(views.skip(i as int).skip(1) =~= views.skip(i + 1));
        if lineages[i].order_id() == order_id {
            return Some(i);
        }
        i += 1;
    }
    None
}

/// Resolves the pending notes of a sync against what was fetched of them and the lineages that
/// are tracked.
pub fn build_chain_note_updates(
    pending: &Vec<PendingPswapNote>,
    fetched: &Vec<FetchedNote>,
    lineages: &Vec<PswapLineageRecord>,
) -> (updates: Vec<PswapChainNoteUpdate>)
    ensures
        super::discovery::view_notes(updates@) == resolve_notes(
            view_pending(pending@),
            super::discovery::view_lineages(lineages@),
            view_fetched_notes(fetched@),
        ),
        forall|k: int|
            0 <= k < updates@.len() ==> is_of_one_pending(
                (#[trigger] updates@[k])@,
                view_pending(pending@),
            ),
{
    let mut updates: Vec<PswapChainNoteUpdate> = Vec::new();
    let ghost pending_views = view_pending(pending@);
    let ghost lineage_views = super::discovery::view_lineages(lineages@);
    let ghost fetched_views = view_fetched_notes(fetched@);
    let mut i: usize = 0;
    assert(super::discovery::view_notes(updates@) =~= Seq::<ChainNoteView>::empty());
    while i < fetched.len()
        invariant
            i <= fetched.len(),
            pending_views == view_pending(pending@),
            lineage_views == super::discovery::view_lineages(lineages@),
            fetched_views == view_fetched_notes(fetched@),
            super::discovery::view_notes(updates@) == resolve_notes(
                pending_views,
                lineage_views,
                fetched_views.take(i as int),
            ),
        decreases fetched.len() - i,
    {
        let ghost before = updates@;
        proof {
            assert(fetched_views.take(i + 1).drop_last() =~= fetched_views.take(i as int));
            assert(fetched_views.take(i + 1).last() == fetched@[i as int]@);
        }
        let note = &fetched[i];
        if let Some(p) = position_of_pending(pending, note.id()) {
            if let Some(attachment) = extract_pswap_attachment(note.attachments()) {
                if let Some(l) = position_of_lineage(lineages, attachment.order_id) {
                    if lineages[l].state == PswapLineageState::Active && attachment.depth
                        > lineages[l].current_depth {
                        let update = PswapChainNoteUpdate {
                            note_id: pending[p].note_id,
                            attachment,
                            sender: pending[p].sender,
                            tag: pending[p].tag,
                            block_num: pending[p].block_num,
                            inclusion_proof: pending[p].inclusion_proof.clone(),
                        };
                        let ghost view = update@;
                        updates.push(update);
                        assert(super::discovery::view_notes(updates@)
                            =~= super::discovery::view_notes(before).push(view));
                    }
                }
            }
        }
        i += 1;
    }
    assert(fetched_views.take(fetched_views.len() as int) =~= fetched_views);
    assert forall|k: int| 0 <= k < updates@.len() implies is_of_one_pending(
        (#[trigger] updates@[k])@,
        pending_views,
    ) by {
        assert(super::discovery::view_notes(updates@)[k] == updates@[k]@);
        law_resolved_notes_agree_with_pending_notes(
            pending_views,
            lineage_views,
            fetched_views,
            k,
        );
    }
    updates
}

/// Whether a chain note agrees with a pending note: in identifier, sender, tag, block and place.
pub open spec fn agrees(note: ChainNoteView, pending: PendingView) -> bool {
    &&& note.note_id == pending.note_id
    &&& note.sender == pending.sender
    &&& note.tag == pending.tag
    &&& note.block_num == pending.block_num
    &&& note.inclusion_proof == pending.inclusion_proof
}

/// Whether a chain note agrees with one of some pending notes.
pub open spec fn is_of_one_pending(note: ChainNoteView, pending: Seq<PendingView>) -> bool {
    exists|i: int| 0 <= i < pending.len() && agrees(note, #[trigger] pending[i])
}

proof fn lemma_found_pending(pending: Seq<PendingView>, id: NoteId)
    ensures
        match find_pending(pending, id) {
            Some(note) => exists|i: int|
                0 <= i < pending.len() && #[trigger] pending[i] == note && note.note_id == id
                    && forall|j: int| 0 <= j < i ==> (#[trigger] pending[j]).note_id != id,
            None => forall|j: int| 0 <= j < pending.len() ==> (#[trigger] pending[j]).note_id != id,
        },
    decreases pending.len(),
{
    if pending.len() > 0 && pending[0].note_id != id {
        let rest = pending.skip(1);
        lemma_found_pending(rest, id);
        if let Some(note) = find_pending(rest, id) {
            let i = choose|i: int|
                0 <= i < rest.len() && #[trigger] rest[i] == note && note.note_id == id && forall|
                    j: int,
                | 0 <= j < i ==> (#[trigger] rest[j]).note_id != id;
            assert(pending[i + 1] == note);
            assert forall|j: int| 0 <= j < i + 1 implies (#[trigger] pending[j]).note_id != id by {
                if j > 0 {
                    assert(rest[j - 1] == pending[j]);
                }
            }
        } else {
            assert forall|j: int| 0 <= j < pending.len() implies (#[trigger] pending[j]).note_id
                != id by {
                if j > 0 {
                    assert(rest[j - 1] == pending[j]);
                }
            }
        }
    } else if pending.len() > 0 {
        assert(pending[0].note_id == id);
    }
}

proof fn lemma_found_lineage(lineages: Seq<LineageView>, order_id: u64)
    ensures
        match find_lineage(lineages, order_id) {
            Some(lineage) => exists|i: int|
                0 <= i < lineages.len() && #[trigger] lineages[i] == lineage && lineage.order_id()
                    == order_id && forall|j: int|
                    0 <= j < i ==> (#[trigger] lineages[j]).order_id() != order_id,
            None => forall|j: int|
                0 <= j < lineages.len() ==> (#[trigger] lineages[j]).order_id() != order_id,
        },
    decreases lineages.len(),
{
    if lineages.len() > 0 && lineages[0].order_id() != order_id {
        let rest = lineages.skip(1);
        lemma_found_lineage(rest, order_id);
        if let Some(lineage) = find_lineage(rest, order_id) {
            let i = choose|i: int|
                0 <= i < rest.len() && #[trigger] rest[i] == lineage && lineage.order_id()
                    == order_id && forall|j: int|
                    0 <= j < i ==> (#[trigger] rest[j]).order_id() != order_id;
            assert(lineages[i + 1] == lineage);
            assert forall|j: int| 0 <= j < i + 1 implies (#[trigger] lineages[j]).order_id()
                != order_id by {
                if j > 0 {
                    assert(rest[j - 1] == lineages[j]);
                }
            }
        } else {
            assert forall|j: int| 0 <= j < lineages.len() implies (#[trigger] lineages[j]).order_id()
                != order_id by {
                if j > 0 {
                    assert(rest[j - 1] == lineages[j]);
                }
            }
        }
    } else if lineages.len() > 0 {
        assert(lineages[0].order_id() == order_id);
    }
}

/// A chain note that a fetched note becomes agrees with one and the same pending note, the first
/// with the fetched note's identifier. It carries the fetched note's PSWAP attachment, and belongs
/// to a later round of a tracked order that is still open.
pub proof fn law_resolved_note_agrees_with_its_pending_note(
    pending: Seq<PendingView>,
    lineages: Seq<LineageView>,
    fetched: FetchedView,
)
    requires
        resolve_note(pending, lineages, fetched) is Some,
    ensures
        ({
            let note = resolve_note(pending, lineages, fetched).unwrap();
            &&& note.note_id == fetched.id()
            &&& pswap_attachment_of(fetched.attachments()) == Some(note.attachment)
            &&& exists|i: int|
                0 <= i < pending.len() && agrees(note, #[trigger] pending[i]) && forall|j: int|
                    0 <= j < i ==> (#[trigger] pending[j]).note_id != note.note_id
            &&& exists|i: int|
                0 <= i < lineages.len() && (#[trigger] lineages[i]).order_id()
                    == note.attachment.order_id && lineages[i].state == PswapLineageState::Active
                    && note.attachment.depth > lineages[i].current_depth
        }),
{
    let note = resolve_note(pending, lineages, fetched).unwrap();
    lemma_found_pending(pending, fetched.id());
    lemma_found_lineage(lineages, note.attachment.order_id);
    let found = find_pending(pending, fetched.id()).unwrap();
    let i = choose|i: int|
        0 <= i < pending.len() && #[trigger] pending[i] == found && found.note_id == fetched.id()
            && forall|j: int| 0 <= j < i ==> (#[trigger] pending[j]).note_id != fetched.id();
    assert(agrees(note, pending[i]));
}

/// A fetched note that is pending, carries a readable PSWAP attachment and belongs to a later round
/// of an order becomes a chain note, where the first lineage of that order is active.
pub proof fn law_notes_of_open_orders_resolve(
    pending: Seq<PendingView>,
    lineages: Seq<LineageView>,
    fetched: FetchedView,
    at: int,
    of: int,
)
    requires
        0 <= at < pending.len(),
        pending[at].note_id == fetched.id(),
        pswap_attachment_of(fetched.attachments()) is Some,
        0 <= of < lineages.len(),
        lineages[of].order_id() == pswap_attachment_of(fetched.attachments()).unwrap().order_id,
        forall|j: int| 0 <= j < of ==> (#[trigger] lineages[j]).order_id() != lineages[of].order_id(),
        lineages[of].state == PswapLineageState::Active,
        pswap_attachment_of(fetched.attachments()).unwrap().depth > lineages[of].current_depth,
    ensures
        resolve_note(pending, lineages, fetched) is Some,
{
    lemma_found_pending(pending, fetched.id());
    let order_id = lineages[of].order_id();
    lemma_found_lineage(lineages, order_id);
    if let Some(lineage) = find_lineage(lineages, order_id) {
        let i = choose|i: int|
            0 <= i < lineages.len() && #[trigger] lineages[i] == lineage && lineage.order_id()
                == order_id && forall|j: int|
                0 <= j < i ==> (#[trigger] lineages[j]).order_id() != order_id;
        assert(i == of) by {
            if of < i {
                assert(lineages[of].order_id() != order_id);
            }
        }
    }
}

/// The resolved notes are what the fetched notes become: each of them agrees with one pending note,
/// and is what one of the fetched notes becomes.
pub proof fn law_resolved_notes_agree_with_pending_notes(
    pending: Seq<PendingView>,
    lineages: Seq<LineageView>,
    fetched: Seq<FetchedView>,
    k: int,
)
    requires
        0 <= k < resolve_notes(pending, lineages, fetched).len(),
    ensures
        is_of_one_pending(resolve_notes(pending, lineages, fetched)[k], pending),
        exists|f: int|
            0 <= f < fetched.len() && resolve_note(pending, lineages, #[trigger] fetched[f]) == Some(
                resolve_notes(pending, lineages, fetched)[k],
            ),
    decreases fetched.len(),
{
    let before = fetched.drop_last();
    let earlier = resolve_notes(pending, lineages, before);
    let notes = resolve_notes(pending, lineages, fetched);
    if k < earlier.len() {
        law_resolved_notes_agree_with_pending_notes(pending, lineages, before, k);
        assert(notes[k] == earlier[k]);
        let f = choose|f: int|
            0 <= f < before.len() && resolve_note(pending, lineages, #[trigger] before[f]) == Some(
                earlier[k],
            );
        assert(fetched[f] == before[f]);
    } else {
        assert(fetched[fetched.len() - 1] == fetched.last());
        law_resolved_note_agrees_with_its_pending_note(pending, lineages, fetched.last());
    }
}

/// The resolved notes stand in the order of the fetched ones, each fetched note giving at most one.
pub proof fn law_resolved_notes_keep_their_order(
    pending: Seq<PendingView>,
    lineages: Seq<LineageView>,
    first: Seq<FetchedView>,
    second: Seq<FetchedView>,
    note: FetchedView,
)
    ensures
        resolve_notes(pending, lineages, first + second) == resolve_notes(pending, lineages, first)
            + resolve_notes(pending, lineages, second),
        resolve_notes(pending, lineages, seq![note]).len() <= 1,
    decreases second.len(),
{
    assert(seq![note].drop_last() =~= Seq::empty());
    assert(resolve_notes(pending, lineages, seq![note].drop_last()).len() == 0);
    if second.len() == 0 {
        assert(first + second =~= first);
        assert(resolve_notes(pending, lineages, second) =~= Seq::empty());
    } else {
        law_resolved_notes_keep_their_order(pending, lineages, first, second.drop_last(), note);
        assert((first + second).drop_last() =~= first + second.drop_last());
        assert((first + second).last() == second.last());
    }
    assert(resolve_notes(pending, lineages, first + second) =~= resolve_notes(
        pending,
        lineages,
        first,
    ) + resolve_notes(pending, lineages, second));
}

/// No fetched note that becomes a chain note is left out.
pub proof fn law_no_resolved_note_is_left_out(
    pending: Seq<PendingView>,
    lineages: Seq<LineageView>,
    fetched: Seq<FetchedView>,
    f: int,
)
    requires
        0 <= f < fetched.len(),
        resolve_note(pending, lineages, fetched[f]) is Some,
    ensures
        resolve_notes(pending, lineages, fetched).contains(
            resolve_note(pending, lineages, fetched[f]).unwrap(),
        ),
    decreases fetched.len(),
{
    let before = fetched.drop_last();
    let earlier = resolve_notes(pending, lineages, before);
    let notes = resolve_notes(pending, lineages, fetched);
    let note = resolve_note(pending, lineages, fetched[f]).unwrap();
    if f < before.len() {
        assert(before[f] == fetched[f]);
        law_no_resolved_note_is_left_out(pending, lineages, before, f);
        let k = choose|k: int| 0 <= k < earlier.len() && earlier[k] == note;
        assert(notes[k] == note);
    } else {
        assert(notes[notes.len() - 1] == note);
    }
}

/// A note of an order that is not tracked, of one that has ended, or of a round that the lineage
/// already went through, resolves to nothing.
pub proof fn law_foreign_ended_and_stale_notes_dropped(
    pending: Seq<PendingView>,
    lineages: Seq<LineageView>,
    fetched: FetchedView,
)
    requires
        pswap_attachment_of(fetched.attachments()) matches Some(attachment) ==> (match find_lineage(
            lineages,
            attachment.order_id,
        ) {
            None => true,
            Some(lineage) => lineage.state != PswapLineageState::Active || attachment.depth
                <= lineage.current_depth,
        }),
    ensures
        resolve_note(pending, lineages, fetched) is None,
{
}

// TRANSACTION OBSERVER
// ================================================================================================

/// What tracking a new order adds to the store.
#[derive(Debug)]
pub struct Registration {
    pub record: PswapLineageRecord,
    pub tag: NoteTagRecord,
}

/// The record of an order at its creation: nothing of it is filled.
pub open spec fn initial_record(order: PswapView, submission_height: BlockNumber) -> LineageView {
    LineageView {
        original_pswap: order,
        current_tip_note_id: order.note.id,
        current_depth: 0,
        remaining_offered: order.terms.offered_asset,
        remaining_requested: order.terms.requested_asset,
        state: PswapLineageState::Active,
        created_at_block: submission_height,
        updated_at_block: submission_height,
    }
}

/// Builds the record of an order at its creation.
pub fn build_initial_lineage_record(order: &PswapNote, submission_height: BlockNumber) -> (record:
    PswapLineageRecord)
    ensures
        record@ == initial_record(order@, submission_height),
{
    PswapLineageRecord {
        original_pswap: order.clone(),
        current_tip_note_id: order.note.id(),
        current_depth: 0,
        remaining_offered: order.terms.offered_asset,
        remaining_requested: order.terms.requested_asset,
        state: PswapLineageState::Active,
        created_at_block: submission_height,
        updated_at_block: submission_height,
    }
}

/// The order that an output note creates: the note is a PSWAP note, and not a remainder emitted
/// while filling someone else's order.
pub open spec fn created_order(note: NoteView) -> Option<PswapView> {
    match raw_terms_of(note.bytes) {
        Some(raw) if raw.parent_depth == 0 => Some(PswapView { terms: PswapTerms::of(raw), note }),
        _ => None,
    }
}

/// The orders that some output notes create, in their order.
pub open spec fn created_orders(notes: Seq<NoteView>) -> Seq<PswapView>
    decreases notes.len(),
{
    if notes.len() == 0 {
        Seq::empty()
    } else {
        let before = created_orders(notes.drop_last());
        match created_order(notes.last()) {
            Some(order) => before.push(order),
            None => before,
        }
    }
}

/// The orders that are created are exactly those of the notes that are PSWAP notes at depth 0.
pub proof fn law_created_orders_are_of_the_notes(notes: Seq<NoteView>, order: PswapView)
    ensures
        created_orders(notes).contains(order) <==> exists|i: int|
            0 <= i < notes.len() && #[trigger] notes[i] == order.note && (raw_terms_of(
                notes[i].bytes,
            ) matches Some(raw) && raw.parent_depth == 0 && order.terms == PswapTerms::of(raw)),
    decreases notes.len(),
{
    if notes.len() > 0 {
        let before = notes.drop_last();
        law_created_orders_are_of_the_notes(before, order);
        let earlier = created_orders(before);
        let orders = created_orders(notes);
        assert(notes[notes.len() - 1] == notes.last());
        if earlier.contains(order) {
            let k = choose|k: int| 0 <= k < earlier.len() && earlier[k] == order;
            assert(orders[k] == order);
            let i = choose|i: int|
                0 <= i < before.len() && #[trigger] before[i] == order.note && (raw_terms_of(
                    before[i].bytes,
                ) matches Some(raw) && raw.parent_depth == 0 && order.terms == PswapTerms::of(raw));
            assert(notes[i] == before[i]);
        }
        if orders.contains(order) && !earlier.contains(order) {
            let k = choose|k: int| 0 <= k < orders.len() && orders[k] == order;
            if k < earlier.len() {
                assert(earlier[k] == order);
            }
            assert(notes[notes.len() - 1] == order.note);
        }
        if exists|i: int|
            0 <= i < notes.len() && #[trigger] notes[i] == order.note && (raw_terms_of(
                notes[i].bytes,
            ) matches Some(raw) && raw.parent_depth == 0 && order.terms == PswapTerms::of(raw)) {
            let i = choose|i: int|
                0 <= i < notes.len() && #[trigger] notes[i] == order.note && (raw_terms_of(
                    notes[i].bytes,
                ) matches Some(raw) && raw.parent_depth == 0 && order.terms == PswapTerms::of(raw));
            if i < before.len() {
                assert(before[i] == notes[i]);
            } else {
                assert(orders[orders.len() - 1] == order);
            }
        }
    }
}

/// The created orders stand in the order of the notes, each note creating at most one.
pub proof fn law_created_orders_keep_their_order(
    first: Seq<NoteView>,
    second: Seq<NoteView>,
    note: NoteView,
)
    ensures
        created_orders(first + second) == created_orders(first) + created_orders(second),
        created_orders(seq![note]).len() <= 1,
    decreases second.len(),
{
    assert(seq![note].drop_last() =~= Seq::empty());
    assert(created_orders(seq![note].drop_last()).len() == 0);
    if second.len() == 0 {
        assert(first + second =~= first);
        assert(created_orders(second) =~= Seq::empty());
    } else {
        law_created_orders_keep_their_order(first, second.drop_last(), note);
        assert((first + second).drop_last() =~= first + second.drop_last());
        assert((first + second).last() == second.last());
    }
    assert(created_orders(first + second) =~= created_orders(first) + created_orders(second));
}

/// An order starts open at depth 0, with its own note as the tip and with all that it offers and
/// requests still left, as of the block that it was submitted at.
pub proof fn law_order_starts_unfilled(order: PswapView, submission_height: BlockNumber)
    ensures
        ({
            let record = initial_record(order, submission_height);
            &&& record.original_pswap == order
            &&& record.current_tip_note_id == order.note.id
            &&& record.current_depth == 0
            &&& record.remaining_offered == record.terms().offered_asset
            &&& record.remaining_requested == record.terms().requested_asset
            &&& record.state == PswapLineageState::Active
            &&& record.created_at_block == submission_height
            &&& record.updated_at_block == record.created_at_block
        }),
{
}

/// Whether a registration is that of an order: its initial record, and a subscription to its
/// asset-pair tag.
pub open spec fn registers(
    registration: Registration,
    order: PswapView,
    submission_height: BlockNumber,
) -> bool {
    &&& registration.record@ == initial_record(order, submission_height)
    &&& registration.tag == subscription_of(order)
}

/// Registers the orders that this wallet creates. An order is tracked whoever its creator is, so
/// that a wallet that submits orders for others sees them too.
pub struct PswapTransactionObserver<S> {
    pub store: S,
}

impl<S> PswapTransactionObserver<S> {
    pub fn new(store: S) -> (observer: Self)
        ensures
            observer.store == store,
    {
        PswapTransactionObserver { store }
    }

    /// What the output notes of a transaction add to the store.
    pub fn observe(&self, output_notes: &Vec<Note>, submission_height: BlockNumber) -> (added: Vec<
        Registration,
    >)
        ensures
            added@.len() == created_orders(
                output_notes@.map_values(|note: Note| note@),
            ).len(),
            forall|i: int|
                0 <= i < added@.len() ==> registers(
                    #[trigger] added@[i],
                    created_orders(output_notes@.map_values(|note: Note| note@))[i],
                    submission_height,
                ),
    {
        let ghost notes = output_notes@.map_values(|note: Note| note@);
        let mut added: Vec<Registration> = Vec::new();
        let mut i: usize = 0;
        while i < output_notes.len()
            invariant
                i <= output_notes.len(),
                notes == output_notes@.map_values(|note: Note| note@),
                added@.len() == created_orders(notes.take(i as int)).len(),
                forall|j: int|
                    0 <= j < added@.len() ==> registers(
                        #[trigger] added@[j],
                        created_orders(notes.take(i as int))[j],
                        submission_height,
                    ),
            decreases output_notes.len() - i,
        {
            proof {
                assert(notes.take(i + 1).drop_last() =~= notes.take(i as int));
                assert(notes.take(i + 1).last() == output_notes@[i as int]@);
            }
            if let Some(order) = PswapNote::from_note(&output_notes[i]) {
                if order.terms.parent_depth == 0 {
                    let record = build_initial_lineage_record(&order, submission_height);
                    let tag = NoteTagRecord {
                        tag: record.asset_pair_tag(),
                        source: NoteTagSource::Subscription(record.current_tip_note_id),
                    };
                    added.push(Registration { record, tag });
                }
            }
            i += 1;
        }
        assert(notes.take(notes.len() as int) =~= notes);
        added
    }
}

/// The subscription that creating an order registers is the one that its terminal round drops.
pub proof fn law_registered_subscription_is_dropped(
    order: PswapView,
    submission_height: BlockNumber,
    current: RowView,
    round: RoundView,
    payback_present: bool,
    remainder_present: bool,
)
    requires
        order.wf(),
        note_id_of(order.note.bytes) == Some(order.note.id),
        current.original_pswap == row_of(initial_record(order, submission_height)).original_pswap,
        stored_round(Some(current), round) is Ok,
        round.state != PswapLineageState::Active,
    ensures
        round_plan(Some(current), round, payback_present, remainder_present) matches Ok(plan)
            && plan.dropped_tag == Some(subscription_of(order)),
{
}

} // verus!

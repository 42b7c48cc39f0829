//! What becomes of the notes that a node reports during a sync.
use vstd::prelude::*;

use crate::note::{
    view_attachments, AttachmentView, Note, NoteAttachment, NoteInclusionProof, NoteMetadata,
    NoteView, ProofView,
};
use crate::primitives::{NoteId, NoteType};
use crate::rpc::note::{CommittedNote, NoteSyncBlock};
use crate::sorted_map::{has_key, lemma_entry_in_map, Key, SortedMap};

verus! {

// VOTES
// ================================================================================================

/// A public note with the proof of its inclusion.
#[derive(Debug)]
pub struct InputNoteRecord {
    pub note: Note,
    pub metadata: NoteMetadata,
    pub attachments: Vec<NoteAttachment>,
    pub inclusion_proof: NoteInclusionProof,
}

/// What an [`InputNoteRecord`] stands for.
#[verifier::ext_equal]
pub ghost struct InputNoteView {
    pub note: NoteView,
    pub metadata: NoteMetadata,
    pub attachments: Seq<AttachmentView>,
    pub inclusion_proof: ProofView,
}

impl View for InputNoteRecord {
    type V = InputNoteView;

    open spec fn view(&self) -> InputNoteView {
        InputNoteView {
            note: self.note@,
            metadata: self.metadata,
            attachments: view_attachments(self.attachments@),
            inclusion_proof: self.inclusion_proof@,
        }
    }
}

/// What an observer votes for when a note is reported. Several votes are folded by precedence:
/// committing comes before inserting, inserting before observing, and observing before
/// discarding. The first of the observers with the highest precedence supplies the payload.
#[derive(Debug)]
pub enum NoteUpdateAction {
    /// The note is to be marked as committed, and its inclusion proof stored.
    Commit(CommittedNote),
    /// The public note is to be stored.
    Insert(InputNoteRecord),
    /// The note is not stored, but the header of its block is.
    Observe,
    /// The note does not matter.
    Discard,
}

impl NoteUpdateAction {
    pub open spec fn spec_precedence(self) -> u8 {
        match self {
            NoteUpdateAction::Commit(_) => 3,
            NoteUpdateAction::Insert(_) => 2,
            NoteUpdateAction::Observe => 1,
            NoteUpdateAction::Discard => 0,
        }
    }

    fn precedence(&self) -> (precedence: u8)
        ensures
            precedence == self.spec_precedence(),
    {
        match self {
            NoteUpdateAction::Commit(_) => 3,
            NoteUpdateAction::Insert(_) => 2,
            NoteUpdateAction::Observe => 1,
            NoteUpdateAction::Discard => 0,
        }
    }
}

/// The vote that counts: the first of those with the highest precedence; a discard where there is
/// none.
pub open spec fn folded_votes(votes: Seq<NoteUpdateAction>) -> NoteUpdateAction
    decreases votes.len(),
{
    if votes.len() == 0 {
        NoteUpdateAction::Discard
    } else {
        let before = folded_votes(votes.drop_last());
        if votes.last().spec_precedence() > before.spec_precedence() {
            votes.last()
        } else {
            before
        }
    }
}

/// Folds the votes of all observers on one note, given in the order of the observers.
pub fn fold_votes(votes: Vec<NoteUpdateAction>) -> (selected: NoteUpdateAction)
    ensures
        selected == folded_votes(votes@),
{
    let mut votes = votes;
    let ghost all = votes@;
    let mut best: Option<usize> = None;
    let mut highest: u8 = 0;
    let mut i: usize = 0;
    while i < votes.len()
        invariant
            i <= votes.len(),
            votes@ == all,
            highest == folded_votes(all.take(i as int)).spec_precedence(),
            match best {
                Some(at) => at < i && folded_votes(all.take(i as int)) == all[at as int],
                None => folded_votes(all.take(i as int)) == NoteUpdateAction::Discard,
            },
        decreases votes.len() - i,
    {
        proof {
            assert(all.take(i + 1).drop_last() =~= all.take(i as int));
            assert(all.take(i + 1).last() == all[i as int]);
        }
        let precedence: u8 = votes[i].precedence();
        if precedence > highest {
            highest = precedence;
            best = Some(i);
        }
        i += 1;
    }
    assert(all.take(all.len() as int) =~= all);
    match best {
        Some(at) => votes.swap_remove(at),
        None => NoteUpdateAction::Discard,
    }
}

/// The vote that counts has the highest precedence of all, and no vote before it has as high a
/// one.
pub proof fn law_first_highest_vote_counts(votes: Seq<NoteUpdateAction>)
    ensures
        forall|i: int|
            0 <= i < votes.len() ==> (#[trigger] votes[i]).spec_precedence() <= folded_votes(
                votes,
            ).spec_precedence(),
        folded_votes(votes) !is Discard ==> exists|i: int|
            0 <= i < votes.len() && #[trigger] votes[i] == folded_votes(votes) && forall|j: int|
                0 <= j < i ==> (#[trigger] votes[j]).spec_precedence() < folded_votes(
                    votes,
                ).spec_precedence(),
    decreases votes.len(),
{
    if votes.len() > 0 {
        let before = votes.drop_last();
        law_first_highest_vote_counts(before);
        assert(forall|i: int| 0 <= i < before.len() ==> #[trigger] votes[i] == before[i]);
        assert forall|i: int| 0 <= i < votes.len() implies (
        #[trigger] votes[i]).spec_precedence() <= folded_votes(votes).spec_precedence() by {
            if i < before.len() {
                assert(before[i].spec_precedence() <= folded_votes(before).spec_precedence());
            }
        }
        if folded_votes(votes) !is Discard {
            if votes.last().spec_precedence() > folded_votes(before).spec_precedence() {
                let i = votes.len() - 1;
                assert(votes[i] == folded_votes(votes));
                assert forall|j: int| 0 <= j < i implies (
                #[trigger] votes[j]).spec_precedence() < folded_votes(
                    votes,
                ).spec_precedence() by {
                    assert(before[j].spec_precedence() <= folded_votes(before).spec_precedence());
                }
            } else {
                let i = choose|i: int|
                    0 <= i < before.len() && #[trigger] before[i] == folded_votes(before)
                        && forall|j: int|
                        0 <= j < i ==> (#[trigger] before[j]).spec_precedence() < folded_votes(
                            before,
                        ).spec_precedence();
                assert(votes[i] == folded_votes(votes));
                assert forall|j: int| 0 <= j < i implies (
                #[trigger] votes[j]).spec_precedence() < folded_votes(
                    votes,
                ).spec_precedence() by {
                    assert(votes[j] == before[j]);
                }
            }
        }
    }
}

/// Committing comes before inserting, inserting before observing, and observing before discarding;
/// what a vote carries makes no difference.
pub proof fn law_votes_are_ranked(note: CommittedNote, record: InputNoteRecord)
    ensures
        NoteUpdateAction::Commit(note).spec_precedence() > NoteUpdateAction::Insert(
            record,
        ).spec_precedence(),
        NoteUpdateAction::Insert(record).spec_precedence()
            > NoteUpdateAction::Observe.spec_precedence(),
        NoteUpdateAction::Observe.spec_precedence() > NoteUpdateAction::Discard.spec_precedence(),
{
}

/// A note is discarded exactly where every vote discards it.
pub proof fn law_discard_is_unanimous(votes: Seq<NoteUpdateAction>)
    ensures
        folded_votes(votes) is Discard <==> forall|i: int|
            0 <= i < votes.len() ==> #[trigger] votes[i] is Discard,
{
    law_first_highest_vote_counts(votes);
    if folded_votes(votes) is Discard {
        assert forall|i: int| 0 <= i < votes.len() implies #[trigger] votes[i] is Discard by {
            assert(votes[i].spec_precedence() <= folded_votes(votes).spec_precedence());
        }
    }
}

/// What became of a note: the vote that counts, and whether the note is an input note of the
/// client, as taking it in showed.
#[derive(Debug)]
pub struct ScreenedNote {
    pub action: NoteUpdateAction,
    pub is_input_note: bool,
}

impl ScreenedNote {
    /// Whether the note makes its block one whose header is to be kept: a committed note does where
    /// it is an input note, an inserted or an observed one does always.
    pub open spec fn spec_is_relevant(self) -> bool {
        match self.action {
            NoteUpdateAction::Commit(_) => self.is_input_note,
            NoteUpdateAction::Insert(_) => true,
            NoteUpdateAction::Observe => true,
            NoteUpdateAction::Discard => false,
        }
    }

    pub fn is_relevant(&self) -> (relevant: bool)
        ensures
            relevant == self.spec_is_relevant(),
    {
        match self.action {
            NoteUpdateAction::Commit(_) => self.is_input_note,
            NoteUpdateAction::Insert(_) => true,
            NoteUpdateAction::Observe => true,
            NoteUpdateAction::Discard => false,
        }
    }
}

/// A discarded note keeps no block, a committed one keeps its block where it is an input note, and an
/// inserted or an observed one keeps its block.
pub proof fn law_notes_keep_their_blocks(note: ScreenedNote)
    ensures
        note.action is Discard ==> !note.spec_is_relevant(),
        note.action is Commit ==> (note.spec_is_relevant() <==> note.is_input_note),
        note.action is Insert || note.action is Observe ==> note.spec_is_relevant(),
{
}

/// Whether the header of a block is to be kept: one of its notes makes it so.
pub fn makes_block_relevant(notes: &Vec<ScreenedNote>) -> (relevant: bool)
    ensures
        relevant <==> exists|i: int|
            0 <= i < notes@.len() && (#[trigger] notes@[i]).spec_is_relevant(),
{
    let mut i: usize = 0;
    while i < notes.len()
        invariant
            i <= notes.len(),
            forall|j: int| 0 <= j < i ==> !(#[trigger] notes@[j]).spec_is_relevant(),
        decreases notes.len() - i,
    {
        if notes[i].is_relevant() {
            assert(notes@[i as int].spec_is_relevant());
            return true;
        }
        i += 1;
    }
    false
}

// CONTENT
// ================================================================================================

/// What was fetched of a note: the whole of a public note; of a private one its attachments, where
/// it has some.
#[derive(Debug)]
pub enum SyncedNoteDetails {
    Public(Note, NoteMetadata, Vec<NoteAttachment>),
    Private(Option<Vec<NoteAttachment>>),
}

/// What [`SyncedNoteDetails`] stand for.
#[verifier::ext_equal]
pub ghost enum DetailsView {
    Public(NoteView, NoteMetadata, Seq<AttachmentView>),
    Private(Option<Seq<AttachmentView>>),
}

impl View for SyncedNoteDetails {
    type V = DetailsView;

    open spec fn view(&self) -> DetailsView {
        match self {
            SyncedNoteDetails::Public(note, metadata, attachments) => DetailsView::Public(
                note@,
                *metadata,
                view_attachments(attachments@),
            ),
            SyncedNoteDetails::Private(Some(attachments)) => DetailsView::Private(
                Some(view_attachments(attachments@)),
            ),
            SyncedNoteDetails::Private(None) => DetailsView::Private(None),
        }
    }
}

/// The inclusion proof of a note in the first of some blocks that has the note.
pub open spec fn proof_in_blocks(blocks: Seq<NoteSyncBlock>, id: NoteId) -> Option<ProofView>
    decreases blocks.len(),
{
    if blocks.len() == 0 {
        None
    } else {
        match proof_in_blocks(blocks.drop_last(), id) {
            Some(inclusion) => Some(inclusion),
            None => if blocks.last().notes@.contains_key(id) {
                Some(blocks.last().notes@[id].inclusion_proof@)
            } else {
                None
            },
        }
    }
}

/// The records of public notes with an inclusion proof, by the identifiers of the notes.
pub open spec fn public_records(
    entries: Seq<(NoteId, SyncedNoteDetails)>,
    blocks: Seq<NoteSyncBlock>,
) -> Map<NoteId, InputNoteView>
    decreases entries.len(),
{
    if entries.len() == 0 {
        Map::empty()
    } else {
        let before = public_records(entries.drop_last(), blocks);
        match (entries.last().1@, proof_in_blocks(blocks, entries.last().0)) {
            (DetailsView::Public(note, metadata, attachments), Some(inclusion_proof)) => {
                before.insert(
                    note.id,
                    InputNoteView { note, metadata, attachments, inclusion_proof },
                )
            },
            _ => before,
        }
    }
}

/// A note's inclusion proof is the one that the first of the blocks with the note holds for it, and
/// there is none where no block has the note.
pub proof fn law_first_block_with_the_note_proves_it(blocks: Seq<NoteSyncBlock>, id: NoteId)
    ensures
        match proof_in_blocks(blocks, id) {
            Some(inclusion) => exists|i: int|
                0 <= i < blocks.len() && (#[trigger] blocks[i]).notes@.contains_key(id)
                    && blocks[i].notes@[id].inclusion_proof@ == inclusion && forall|j: int|
                    0 <= j < i ==> !(#[trigger] blocks[j]).notes@.contains_key(id),
            None => forall|j: int|
                0 <= j < blocks.len() ==> !(#[trigger] blocks[j]).notes@.contains_key(id),
        },
    decreases blocks.len(),
{
    if blocks.len() > 0 {
        let before = blocks.drop_last();
        law_first_block_with_the_note_proves_it(before, id);
        assert(blocks[blocks.len() - 1] == blocks.last());
        assert forall|j: int| 0 <= j < before.len() implies #[trigger] blocks[j] == before[j] by {}
        if let Some(inclusion) = proof_in_blocks(before, id) {
            let i = choose|i: int|
                0 <= i < before.len() && (#[trigger] before[i]).notes@.contains_key(id)
                    && before[i].notes@[id].inclusion_proof@ == inclusion && forall|j: int|
                    0 <= j < i ==> !(#[trigger] before[j]).notes@.contains_key(id);
            assert(blocks[i].notes@.contains_key(id));
            assert forall|j: int| 0 <= j < i implies !(
            #[trigger] blocks[j]).notes@.contains_key(id) by {
                assert(!before[j].notes@.contains_key(id));
            }
        } else if blocks.last().notes@.contains_key(id) {
            let i = blocks.len() - 1;
            assert(blocks[i].notes@.contains_key(id));
        }
    }
}

/// Whether a record is that of a fetched public note: it has its note, metadata and attachments, and
/// the inclusion proof that the blocks hold for it.
pub open spec fn is_record_of(
    record: InputNoteView,
    entry: (NoteId, SyncedNoteDetails),
    blocks: Seq<NoteSyncBlock>,
) -> bool {
    &&& entry.1@ == DetailsView::Public(record.note, record.metadata, record.attachments)
    &&& proof_in_blocks(blocks, entry.0) == Some(record.inclusion_proof)
}

/// Every record is that of a fetched public note, under its note's identifier.
pub proof fn law_records_are_of_public_notes(
    entries: Seq<(NoteId, SyncedNoteDetails)>,
    blocks: Seq<NoteSyncBlock>,
    id: NoteId,
)
    requires
        public_records(entries, blocks).contains_key(id),
    ensures
        public_records(entries, blocks)[id].note.id == id,
        exists|i: int|
            0 <= i < entries.len() && is_record_of(
                public_records(entries, blocks)[id],
                #[trigger] entries[i],
                blocks,
            ),
    decreases entries.len(),
{
    if entries.len() > 0 {
        let before = entries.drop_last();
        assert(entries[entries.len() - 1] == entries.last());
        let record = public_records(entries, blocks)[id];
        if !is_record_of(record, entries.last(), blocks) || record.note.id != id {
            assert(public_records(before, blocks).contains_key(id));
            law_records_are_of_public_notes(before, blocks, id);
            let i = choose|i: int|
                0 <= i < before.len() && is_record_of(
                    public_records(before, blocks)[id],
                    #[trigger] before[i],
                    blocks,
                );
            assert(entries[i] == before[i]);
        }
    }
}

/// Every fetched public note that a block proves has a record, which is its own where no later one
/// is of the same note.
pub proof fn law_proven_public_notes_have_records(
    entries: Seq<(NoteId, SyncedNoteDetails)>,
    blocks: Seq<NoteSyncBlock>,
    i: int,
    record: InputNoteView,
)
    requires
        0 <= i < entries.len(),
        is_record_of(record, entries[i], blocks),
    ensures
        public_records(entries, blocks).contains_key(record.note.id),
        (forall|j: int|
            i < j < entries.len() ==> !((#[trigger] entries[j]).1@ matches DetailsView::Public(
                note,
                _,
                _,
            ) && note.id == record.note.id)) ==> public_records(entries, blocks)[record.note.id]
            == record,
    decreases entries.len(),
{
    let before = entries.drop_last();
    if i < before.len() {
        assert(before[i] == entries[i]);
        law_proven_public_notes_have_records(before, blocks, i, record);
        if forall|j: int|
            i < j < entries.len() ==> !((#[trigger] entries[j]).1@ matches DetailsView::Public(
                note,
                _,
                _,
            ) && note.id == record.note.id) {
            assert forall|j: int| i < j < before.len() implies !((
            #[trigger] before[j]).1@ matches DetailsView::Public(note, _, _) && note.id
                == record.note.id) by {
                assert(before[j] == entries[j]);
            }
            assert(entries[entries.len() - 1] == entries.last());
        }
    }
}

/// The attachments of private notes, by the identifiers of the notes.
pub open spec fn attachments_of_private(synced: Map<NoteId, SyncedNoteDetails>) -> Map<
    NoteId,
    Seq<AttachmentView>,
> {
    Map::new(
        |id: NoteId| synced.contains_key(id) && synced[id]@ matches DetailsView::Private(Some(_)),
        |id: NoteId| (synced[id]@->Private_0)->Some_0,
    )
}

/// The attachments are those of the fetched private notes that carry some, each under its note.
pub proof fn law_private_attachments_are_kept(
    synced: Map<NoteId, SyncedNoteDetails>,
    id: NoteId,
    attachments: Seq<AttachmentView>,
)
    ensures
        attachments_of_private(synced).contains_pair(id, attachments) <==> synced.contains_key(id)
            && synced[id]@ == DetailsView::Private(Some(attachments)),
        attachments_of_private(synced).dom().subset_of(synced.dom()),
{
}

/// Records as their views.
pub open spec fn view_records(records: Map<NoteId, InputNoteRecord>) -> Map<NoteId, InputNoteView> {
    records.map_values(|record: InputNoteRecord| record@)
}

/// Attachments by note as their views.
pub open spec fn view_attachment_map(attachments: Map<NoteId, Vec<NoteAttachment>>) -> Map<
    NoteId,
    Seq<AttachmentView>,
> {
    attachments.map_values(|attachments: Vec<NoteAttachment>| view_attachments(attachments@))
}

fn find_proof(blocks: &Vec<NoteSyncBlock>, id: NoteId) -> (inclusion: Option<NoteInclusionProof>)
    requires
        forall|i: int| 0 <= i < blocks@.len() ==> (#[trigger] blocks@[i]).notes.wf(),
    ensures
        match inclusion {
            Some(inclusion) => Some(inclusion@),
            None => None,
        } == proof_in_blocks(blocks@, id),
{
    let mut found: Option<NoteInclusionProof> = None;
    let mut i: usize = 0;
    while i < blocks.len()
        invariant
            i <= blocks.len(),
            forall|j: int| 0 <= j < blocks@.len() ==> (#[trigger] blocks@[j]).notes.wf(),
            match found {
                Some(inclusion) => Some(inclusion@),
                None => None,
            } == proof_in_blocks(blocks@.take(i as int), id),
        decreases blocks.len() - i,
    {
        proof {
            assert(blocks@.take(i + 1).drop_last() =~= blocks@.take(i as int));
            assert(blocks@.take(i + 1).last() == blocks@[i as int]);
        }
        if found.is_none() {
            if let Some(note) = blocks[i].notes.get(&id) {
                found = Some(note.inclusion_proof.clone());
            }
        }
        i += 1;
    }
    assert(blocks@.take(blocks@.len() as int) =~= blocks@);
    found
}

fn copy_attachments(attachments: &Vec<NoteAttachment>) -> (copy: Vec<NoteAttachment>)
    ensures
        view_attachments(copy@) == view_attachments(attachments@),
{
    let mut copy: Vec<NoteAttachment> = Vec::new();
    let mut i: usize = 0;
    while i < attachments.len()
        invariant
            i <= attachments.len(),
            copy@.len() == i,
            forall|j: int| 0 <= j < i ==> (#[trigger] copy@[j])@ == attachments@[j]@,
        decreases attachments.len() - i,
    {
        copy.push(attachments[i].clone());
        i += 1;
    }
    assert(view_attachments(copy@) =~= view_attachments(attachments@));
    copy
}

/// Pairs each public note with the inclusion proof that the blocks hold for it. Private notes, and
/// public ones without such a proof, are left out.
pub fn build_public_note_records(
    synced_notes: &SortedMap<NoteId, SyncedNoteDetails>,
    note_blocks: &Vec<NoteSyncBlock>,
) -> (records: SortedMap<NoteId, InputNoteRecord>)
    requires
        synced_notes.wf(),
        forall|i: int| 0 <= i < note_blocks@.len() ==> (#[trigger] note_blocks@[i]).notes.wf(),
    ensures
        records.wf(),
        view_records(records@) == public_records(synced_notes.entries@, note_blocks@),
{
    let ghost entries = synced_notes.entries@;
    let mut records: SortedMap<NoteId, InputNoteRecord> = SortedMap::new();
    let mut i: usize = 0;
    assert(view_records(records@) =~= Map::empty());
    while i < synced_notes.entries.len()
        invariant
            i <= synced_notes.entries.len(),
            entries == synced_notes.entries@,
            records.wf(),
            forall|j: int| 0 <= j < note_blocks@.len() ==> (#[trigger] note_blocks@[j]).notes.wf(),
            view_records(records@) == public_records(entries.take(i as int), note_blocks@),
        decreases synced_notes.entries.len() - i,
    {
        let ghost before = records@;
        proof {
            assert(entries.take(i + 1).drop_last() =~= entries.take(i as int));
            assert(entries.take(i + 1).last() == entries[i as int]);
        }
        let id = synced_notes.entries[i].0;
        if let SyncedNoteDetails::Public(note, metadata, attachments) = &synced_notes.entries[i].1 {
            if let Some(inclusion_proof) = find_proof(note_blocks, id) {
                let record = InputNoteRecord {
                    note: note.clone(),
                    metadata: *metadata,
                    attachments: copy_attachments(attachments),
                    inclusion_proof,
                };
                let ghost view = record@;
                records.insert(note.id, record);
                assert(view_records(records@) =~= view_records(before).insert(note.id, view));
            }
        }
        i += 1;
    }
    assert(entries.take(entries.len() as int) =~= entries);
    records
}

/// The attachments of private notes among what was fetched.
pub fn collect_private_attachments(synced_notes: &SortedMap<NoteId, SyncedNoteDetails>) -> (
attachments: SortedMap<NoteId, Vec<NoteAttachment>>)
    requires
        synced_notes.wf(),
    ensures
        attachments.wf(),
        view_attachment_map(attachments@) == attachments_of_private(synced_notes@),
{
    let ghost entries = synced_notes.entries@;
    let mut collected: SortedMap<NoteId, Vec<NoteAttachment>> = SortedMap::new();
    let mut i: usize = 0;
    while i < synced_notes.entries.len()
        invariant
            i <= synced_notes.entries.len(),
            synced_notes.wf(),
            entries == synced_notes.entries@,
            collected.wf(),
            forall|id: NoteId| #[trigger]
                collected@.contains_key(id) ==> has_key(entries.take(i as int), id),
            forall|j: int|
                0 <= j < i ==> match (#[trigger] entries[j]).1@ {
                    DetailsView::Private(Some(attachments)) => collected@.contains_key(
                        entries[j].0,
                    ) && view_attachments(collected@[entries[j].0]@) == attachments,
                    _ => !collected@.contains_key(entries[j].0),
                },
        decreases synced_notes.entries.len() - i,
    {
        let ghost before = collected@;
        let id = synced_notes.entries[i].0;
        proof {
            assert forall|j: int| 0 <= j < i implies (#[trigger] entries[j]).0 != id by {
                assert(entries[j].0.precedes(entries[i as int].0));
                NoteId::lemma_irreflexive(id);
            }
            assert(!has_key(entries.take(i as int), id)) by {
                if has_key(entries.take(i as int), id) {
                    let j = choose|j: int|
                        0 <= j < i && (#[trigger] entries.take(i as int)[j]).0 == id;
                    assert(entries[j].0 == id);
                }
            }
            assert(entries.take(i + 1)[i as int].0 == id);
            assert forall|other: NoteId| has_key(entries.take(i as int), other) implies has_key(
                entries.take(i + 1),
                other,
            ) by {
                let j = choose|j: int|
                    0 <= j < i && (#[trigger] entries.take(i as int)[j]).0 == other;
                assert(entries.take(i + 1)[j].0 == other);
            }
        }
        if let SyncedNoteDetails::Private(Some(attachments)) = &synced_notes.entries[i].1 {
            let copy = copy_attachments(attachments);
            collected.insert(id, copy);
        }
        i += 1;
    }
    proof {
        assert(entries.take(entries.len() as int) =~= entries);
        let left = view_attachment_map(collected@);
        let right = attachments_of_private(synced_notes@);
        assert forall|id: NoteId|
            #![trigger left.contains_key(id)]
            #![trigger right.contains_key(id)]
            left.contains_key(id) == right.contains_key(id) && (left.contains_key(id) ==> left[id]
                == right[id]) by {
            if has_key(entries, id) {
                let j = choose|j: int| 0 <= j < entries.len() && (#[trigger] entries[j]).0 == id;
                lemma_entry_in_map(entries, j);
            } else {
                assert(!collected@.contains_key(id));
            }
        }
        assert(left =~= right);
    }
    collected
}

/// What an observer is shown of a committed note besides the note itself: its record, where it is
/// public and was fetched, and its attachments. Those of a private note come from what was fetched
/// for private notes, those of a public one from its record.
pub fn resolve_content<'a>(
    committed_note: &CommittedNote,
    public_notes: &'a SortedMap<NoteId, InputNoteRecord>,
    private_attachments: &'a SortedMap<NoteId, Vec<NoteAttachment>>,
) -> (content: (Option<&'a InputNoteRecord>, Option<&'a Vec<NoteAttachment>>))
    requires
        public_notes.wf(),
        private_attachments.wf(),
    ensures
        ({
            let id = committed_note.note_id;
            if committed_note.metadata.note_type is Private {
                &&& content.0 is None
                &&& content.1 == if private_attachments@.contains_key(id) {
                    Some(&private_attachments@[id])
                } else {
                    None
                }
            } else if public_notes@.contains_key(id) {
                &&& content.0 == Some(&public_notes@[id])
                &&& content.1 == Some(&public_notes@[id].attachments)
            } else {
                content.0 is None && content.1 is None
            }
        }),
{
    let id = committed_note.note_id;
    match committed_note.metadata.note_type {
        NoteType::Private => (None, private_attachments.get(&id)),
        NoteType::Public => match public_notes.get(&id) {
            Some(record) => (Some(record), Some(&record.attachments)),
            None => (None, None),
        },
    }
}

} // verus!

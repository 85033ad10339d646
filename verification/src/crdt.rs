//! The shared text: a replicated document together with the plain text that was
//! last known of it.
use vstd::prelude::*;
use std::collections::HashSet;
use crate::differ::{
    applicable, apply_edit, apply_edits, compute_diff, deleted, diff_edits, edits_view, is_least,
    is_script, is_within, left_to_right, lemma_script_len, position_after, touched, Edit, EditKind,
    EditOp,
};
use crate::history::{
    added_bytes, all_cuts, all_halves, block_ids, can_be_held, carried_bytes, cuts_of, fits,
    go_together, halves_in, held_ids, is_ready, is_update, lemma_added_bytes,
    lemma_can_be_held_insert, lemma_empty_can_be_held, lemma_fewer, lemma_held_adds_nothing,
    lemma_held_facts, lemma_held_ids_insert, lemma_marks_insert, uncut,
};
use crate::ready::{has_bytes, has_needed, BlockId};
use crate::replica::{
    apply_update, begin, counts, decode_state_vector, decode_update, decoded_clocks, doc_state,
    empty_state_vector, encode_diff, encode_state_vector, fills_gap, finish_with_text,
    finish_with_update, insert_text, merged_line, merged_text, new_between, new_doc, no_clocks, own_clock,
    read_text, remove_text, stands_apart, state_vector, text_units, txn_outcome, txn_state,
    DocState, ROOT,
};
use crate::text::{
    byte_len, chars_of, lemma_byte_len_at_least_len, lemma_byte_len_concat, lemma_byte_len_take,
    same_bytes, same_text, span_bytes,
};
use crate::update::{bounded, check_entries, entries_fit, scan, scan_of, Contents, CLOCK_LIMIT};

verus! {

/// A replica of the shared text.
pub struct CrdtEngine {
    doc: yrs::Doc,
    /// Last-known plain text; mirrors the replicated text.
    pub snapshot: String,
    /// Updates of peers that came before what they build on.
    waiting: Vec<Vec<u8>>,
    /// Where the updates in the document divide content, or can.
    cuts: HashSet<u64>,
    /// The second halves of the characters that they carry.
    halves: HashSet<u64>,
}

/// What can be said of an engine.
#[verifier::ext_equal]
pub struct EngineView {
    /// The replicated document.
    pub state: DocState,
    /// The snapshot.
    pub known: Seq<char>,
    /// The updates that wait for what they build on.
    pub waiting: Set<Seq<u8>>,
}

/// Why an update of a peer was not taken.
#[derive(Debug)]
pub enum RemoteUpdateError {
    /// The bytes are no update: they are not sound, or `yrs` says why.
    Decode(Option<yrs::encoding::read::Error>),
}

impl RemoteUpdateError {
    /// What to tell the user.
    pub fn message(&self) -> (text: String)
        ensures
            text@ == "failed to decode remote update"@,
    {
        "failed to decode remote update".to_owned()
    }
}

/// Whether `bytes` encode a state vector with the entries `clocks`.
pub open spec fn encodes_clocks(bytes: Seq<u8>, clocks: Map<u64, u32>) -> bool {
    entries_fit(bytes) && decoded_clocks(bytes) == Some(clocks)
}

/// The entries of the state vector that a peer sent; none if it sent something
/// else.
pub open spec fn peer_clocks(bytes: Seq<u8>) -> Map<u64, u32> {
    match decoded_clocks(bytes) {
        Some(clocks) if entries_fit(bytes) => clocks,
        _ => no_clocks(),
    }
}

/// A peer that sends a state vector is taken to have what the state vector says, and
/// one that sends anything else to have nothing.
pub proof fn law_peer_has_what_its_state_vector_says(bytes: Seq<u8>, clocks: Map<u64, u32>)
    ensures
        encodes_clocks(bytes, clocks) ==> peer_clocks(bytes) == clocks,
        (forall|any: Map<u64, u32>| !#[trigger] encodes_clocks(bytes, any)) ==> peer_clocks(bytes)
            == Map::<u64, u32>::empty(),
{
    if let Some(any) = decoded_clocks(bytes) {
        if entries_fit(bytes) {
            assert(encodes_clocks(bytes, any));
        }
    }
}

/// What holds of every document between two calls: no edit is open, the content
/// is what the updates say, and the updates came in an order in which each fits.
pub open spec fn consistent(state: DocState) -> bool {
    &&& !state.open_edits
    &&& !state.applied
    &&& state.typed == 0
    &&& state.agrees()
    &&& can_be_held(state.updates)
}

/// Whether a document in the state `before` has become one in the state `after`
/// by taking `update`.
pub open spec fn received(before: DocState, update: Seq<u8>, after: DocState) -> bool {
    &&& after.updates == before.updates.insert(update)
    &&& consistent(after)
}

/// Whether a document in the state `before` has become one in the state `after`
/// by edits of its own, which `update` carries.
pub open spec fn edited(before: DocState, update: Seq<u8>, after: DocState) -> bool {
    &&& received(before, update, after)
    &&& takes(before, update)
    &&& stands_apart(update, before.updates)
    &&& before.has_space(carried_bytes(update))
    &&& carried_bytes(update) <= byte_len(after.text)
}

/// The views of a list of updates.
pub open spec fn listed(updates: Seq<Vec<u8>>) -> Set<Seq<u8>> {
    Set::new(|u: Seq<u8>| exists|i: int|
        0 <= i < updates.len() && (#[trigger] updates[i])@ == u)
}

/// Whether a document in the state `state` can take `update`: the update fits, and
/// the length of the text can still be counted then.
pub open spec fn takes(state: DocState, update: Seq<u8>) -> bool {
    fits(state.updates, update) && state.has_space(added_bytes(state.updates, update))
}

/// Whether none of the updates that wait can be taken.
pub open spec fn none_taken(waiting: Set<Seq<u8>>, state: DocState) -> bool {
    forall|w: Seq<u8>| #[trigger] waiting.contains(w) ==> !takes(state, w)
}

/// Whether an engine that was `before` is `after` once it was given the update
/// `data`: nothing that was there is lost, the update is in the document or waits,
/// every update that can be taken has been, and the snapshot is the text. If
/// nothing that waits could be taken before, then an update that cannot be taken
/// leaves the document as it was, and one that is there already changes nothing.
pub open spec fn gathered(before: EngineView, data: Seq<u8>, after: EngineView) -> bool {
    &&& consistent(after.state)
    &&& after.mirrors()
    &&& before.state.updates.subset_of(after.state.updates)
    &&& after.state.updates.union(after.waiting) == before.state.updates.union(
        before.waiting,
    ).insert(data)
    &&& if takes(before.state, data) {
        after.state.updates.contains(data) && after.waiting.subset_of(before.waiting)
    } else {
        after.waiting.subset_of(before.waiting.insert(data))
    }
    &&& none_taken(after.waiting, after.state)
    &&& none_taken(before.waiting, before.state) ==> {
        &&& !takes(before.state, data) || before.state.updates.contains(data) ==> after.state
            == before.state
        &&& before.state.updates.union(before.waiting).contains(data) ==> after.waiting
            == before.waiting
    }
}

/// For each unit of a text whether it is still there: nothing for one that is
/// new.
pub open spec fn mark_edit(marks: Seq<Option<BlockId>>, edit: Edit) -> Seq<Option<BlockId>> {
    match edit.kind {
        EditKind::Insert => marks.take(edit.pos as int) + Seq::new(
            edit.content.len(),
            |i: int| None::<BlockId>,
        ) + marks.skip(edit.pos as int),
        EditKind::Delete => marks.take(edit.pos as int) + marks.skip(
            (edit.pos + edit.len) as int,
        ),
    }
}

/// The marks after some edits, the first one first.
pub open spec fn mark_edits(marks: Seq<Option<BlockId>>, edits: Seq<Edit>) -> Seq<
    Option<BlockId>,
>
    decreases edits.len(),
{
    if edits.len() == 0 {
        marks
    } else {
        mark_edit(mark_edits(marks, edits.drop_last()), edits.last())
    }
}

/// The marks of a text that was not edited.
pub open spec fn marks_of(ids: Seq<BlockId>) -> Seq<Option<BlockId>> {
    ids.map_values(|id: BlockId| Some(id))
}

/// Whether `ids` are as the marks say: the same unit where there is one, and one
/// that is not among `held` where there is none.
pub open spec fn follows_marks(
    marks: Seq<Option<BlockId>>,
    held: Set<BlockId>,
    ids: Seq<BlockId>,
) -> bool {
    &&& ids.len() == marks.len()
    &&& forall|i: int|
        0 <= i < ids.len() ==> match #[trigger] marks[i] {
            Some(id) => ids[i] == id,
            None => !held.contains(ids[i]),
        }
}

/// The bytes that some edits insert.
pub open spec fn inserted_bytes(edits: Seq<Edit>) -> nat
    decreases edits.len(),
{
    if edits.len() == 0 {
        0
    } else {
        inserted_bytes(edits.drop_last()) + match edits.last().kind {
            EditKind::Insert => byte_len(edits.last().content),
            EditKind::Delete => 0,
        }
    }
}

/// Whether a document in the state `before`, whose text starts with `known`, has
/// become one in the state `after` by the edits that lead from `known` to
/// `new_content` and by no others: the text is the new content and what followed;
/// characters that the edits leave alone stay the units that they were, only what
/// the edits insert is new, and the edits touch as little as can be.
pub open spec fn edited_to(
    before: DocState,
    known: Seq<char>,
    new_content: Seq<char>,
    after: DocState,
) -> bool {
    let n = known.len() as int;
    let edits = diff_edits(known, new_content);
    &&& after.text == new_content + before.text.skip(n)
    &&& follows_marks(
        mark_edits(marks_of(before.ids.take(n)), edits) + marks_of(before.ids.skip(n)),
        held_ids(before.updates),
        after.ids,
    )
    &&& before.clock <= after.clock <= before.clock + inserted_bytes(edits)
    &&& is_script(known, edits, new_content)
    &&& is_least(known, new_content, touched(edits))
}

/// How many of some marks are those of units that are still there.
pub open spec fn kept_marks(marks: Seq<Option<BlockId>>) -> nat
    decreases marks.len(),
{
    if marks.len() == 0 {
        0
    } else {
        kept_marks(marks.drop_last()) + if marks.last() is Some {
            1nat
        } else {
            0nat
        }
    }
}

proof fn lemma_kept_concat(a: Seq<Option<BlockId>>, b: Seq<Option<BlockId>>)
    ensures
        kept_marks(a + b) == kept_marks(a) + kept_marks(b),
        kept_marks(b) <= b.len(),
    decreases b.len(),
{
    if b.len() > 0 {
        lemma_kept_concat(a, b.drop_last());
        assert((a + b).drop_last() =~= a + b.drop_last());
    } else {
        assert(a + b =~= a);
    }
}

/// The marks of a text that was not edited are all there.
proof fn lemma_kept_marks_of(ids: Seq<BlockId>)
    ensures
        kept_marks(marks_of(ids)) == ids.len(),
    decreases ids.len(),
{
    if ids.len() > 0 {
        lemma_kept_marks_of(ids.drop_last());
        assert(marks_of(ids).drop_last() =~= marks_of(ids.drop_last()));
    }
}

/// Whether each mark is one of `ids`, or that of a new unit.
spec fn marks_among(marks: Seq<Option<BlockId>>, ids: Seq<BlockId>) -> bool {
    forall|i: int|
        0 <= i < marks.len() ==> (#[trigger] marks[i] matches Some(id) ==> ids.contains(id))
}

/// Edits take away no more marks than they delete characters.
proof fn lemma_kept_by_edits(ids: Seq<BlockId>, text: Seq<char>, edits: Seq<Edit>)
    requires
        ids.len() == text.len(),
        left_to_right(text, edits),
    ensures
        mark_edits(marks_of(ids), edits).len() == apply_edits(text, edits).len(),
        kept_marks(mark_edits(marks_of(ids), edits)) + deleted(edits) >= ids.len(),
        marks_among(mark_edits(marks_of(ids), edits), ids),
    decreases edits.len(),
{
    if edits.len() == 0 {
        lemma_kept_marks_of(ids);
        assert forall|i: int| 0 <= i < ids.len() implies (#[trigger] marks_of(
            ids,
        )[i] matches Some(id) ==> ids.contains(id)) by {
            assert(ids[i] == ids[i]);
        }
    } else {
        let init = edits.drop_last();
        let edit = edits.last();
        assert forall|i: int| 0 <= i < init.len() implies applicable(
            apply_edits(text, #[trigger] init.take(i)),
            init[i],
        ) by {
            assert(init.take(i) =~= edits.take(i));
        }
        lemma_kept_by_edits(ids, text, init);
        assert(edits.take(edits.len() - 1) =~= init);
        let marks = mark_edits(marks_of(ids), init);
        let pos = edit.pos as int;
        assert(marks =~= marks.take(pos) + marks.skip(pos));
        lemma_kept_concat(marks.take(pos), marks.skip(pos));
        match edit.kind {
            EditKind::Insert => {
                let none = Seq::new(edit.content.len(), |i: int| None::<BlockId>);
                lemma_kept_concat(marks.take(pos), none);
                lemma_kept_concat(marks.take(pos) + none, marks.skip(pos));
            },
            EditKind::Delete => {
                let end = pos + edit.len;
                assert(marks.skip(pos) =~= marks.subrange(pos, end) + marks.skip(end));
                lemma_kept_concat(marks.subrange(pos, end), marks.skip(end));
                lemma_kept_concat(marks.take(pos), marks.subrange(pos, end));
                lemma_kept_concat(marks.take(pos), marks.skip(end));
                assert(kept_marks(marks.subrange(pos, end)) <= edit.len) by {
                    lemma_kept_concat(Seq::empty(), marks.subrange(pos, end));
                }
            },
        }
    }
}

/// Where the marks say that a unit is there still, it is one of the units.
proof fn lemma_kept_are_there(
    marks: Seq<Option<BlockId>>,
    held: Set<BlockId>,
    ids: Seq<BlockId>,
    among: Seq<BlockId>,
)
    requires
        follows_marks(marks, held, ids),
        marks_among(marks, among),
    ensures
        ids.filter(|id: BlockId| among.contains(id)).len() >= kept_marks(marks),
    decreases marks.len(),
{
    reveal(Seq::filter);
    if marks.len() > 0 {
        let fewer = marks.drop_last();
        assert forall|i: int| 0 <= i < ids.drop_last().len() implies match #[trigger] fewer[i] {
            Some(id) => ids.drop_last()[i] == id,
            None => !held.contains(ids.drop_last()[i]),
        } by {
            assert(fewer[i] == marks[i]);
        }
        assert forall|i: int| 0 <= i < fewer.len() implies (
        #[trigger] fewer[i] matches Some(id) ==> among.contains(id)) by {
            assert(fewer[i] == marks[i]);
        }
        lemma_kept_are_there(fewer, held, ids.drop_last(), among);
        assert(marks[marks.len() - 1] == marks.last());
    }
}

/// An edit of the text leaves alone what the old and the new content have in common:
/// of the characters that were there, at least as many are still the units that
/// they were as there are in any text that can be found in both contents, and all
/// that follow the snapshot. What another peer does to these units at the same time
/// is not lost.
pub proof fn law_edit_keeps_what_is_common(
    before: EngineView,
    new_content: Seq<char>,
    update: Option<Seq<u8>>,
    after: EngineView,
    common: Seq<char>,
)
    requires
        before.in_step(),
        before.state.ids.len() == before.state.text.len(),
        changed_to(before, new_content, update, after),
        is_within(common, before.known),
        is_within(common, new_content),
    ensures
        after.state.ids.filter(|id: BlockId| before.state.ids.contains(id)).len() >= common.len()
            + before.state.text.len() - before.known.len(),
{
    let ids = before.state.ids;
    if update is None {
        lemma_kept_marks_of(ids);
        assert forall|i: int| 0 <= i < ids.len() implies (#[trigger] marks_of(
            ids,
        )[i] matches Some(id) ==> ids.contains(id)) by {
            assert(ids[i] == ids[i]);
        }
        lemma_kept_are_there(marks_of(ids), Set::empty(), ids, ids);
        crate::differ::lemma_within_len(common, before.known);
    } else {
        reveal(is_least);
        let n = before.known.len() as int;
        let edits = diff_edits(before.known, new_content);
        let front = mark_edits(marks_of(ids.take(n)), edits);
        let back = marks_of(ids.skip(n));
        lemma_kept_by_edits(ids.take(n), before.known, edits);
        lemma_kept_marks_of(ids.skip(n));
        lemma_kept_concat(front, back);
        lemma_script_len(before.known, edits);
        assert(is_within(common, before.known));
        assert(kept_marks(front) >= common.len());
        assert forall|i: int| 0 <= i < (front + back).len() implies (
        #[trigger] (front + back)[i] matches Some(id) ==> ids.contains(id)) by {
            if i < front.len() {
                if let Some(id) = front[i] {
                    assert(ids.take(n).contains(id));
                    let k = choose|k: int| 0 <= k < n && ids.take(n)[k] == id;
                    assert(ids[k] == id);
                }
            } else {
                assert(ids[i - front.len() + n] == ids.skip(n)[i - front.len()]);
            }
        }
        lemma_kept_are_there(
            front + back,
            held_ids(before.state.updates),
            after.state.ids,
            ids,
        );
    }
}

impl View for CrdtEngine {
    type V = EngineView;

    closed spec fn view(&self) -> EngineView {
        EngineView {
            state: doc_state(self.doc),
            known: self.snapshot@,
            waiting: listed(self.waiting@),
        }
    }
}

impl EngineView {
    /// An engine with an empty text.
    pub open spec fn fresh() -> EngineView {
        EngineView { state: DocState::fresh(), known: Seq::empty(), waiting: Set::empty() }
    }

    /// The snapshot is the replicated text.
    pub open spec fn mirrors(self) -> bool {
        self.known == self.state.text
    }

    /// The replicated text is plain, and the snapshot is a copy of it, or of
    /// its front part after a text was seeded before another.
    pub open spec fn in_step(self) -> bool {
        &&& self.state.plain()
        &&& self.known.len() <= self.state.text.len()
        &&& self.state.text.take(self.known.len() as int) == self.known
    }

    /// Whether a local edit to `new_content` can be made: the snapshot must be
    /// in step, and the change must fit into the counters of the document.
    pub open spec fn accepts(self, new_content: Seq<char>) -> bool {
        &&& self.in_step()
        &&& new_content != self.known ==> self.state.has_room(byte_len(new_content))
    }
}

/// Whether an engine that was `before` is `after` once `content` was seeded.
pub open spec fn seeded(before: EngineView, content: Seq<char>, after: EngineView) -> bool {
    if content.len() == 0 {
        after == before
    } else {
        &&& after.known == content
        &&& after.waiting == before.waiting
        &&& after.state.text == content + before.state.text
        &&& after.state.units == before.state.units + byte_len(content)
        &&& before.state.clock <= after.state.clock <= before.state.clock + byte_len(content)
        &&& after.state.ids.skip(content.len() as int) == before.state.ids
        &&& exists|update: Seq<u8>| #[trigger] edited(before.state, update, after.state)
    }
}

/// Whether an engine that was `before` is `after` once its text was changed to
/// `new_content`, and `update` carries the change: the edits that lead from the
/// one text to the other were made. There is none if the text did not change.
pub open spec fn changed_to(
    before: EngineView,
    new_content: Seq<char>,
    update: Option<Seq<u8>>,
    after: EngineView,
) -> bool {
    match update {
        None => new_content == before.known && after == before,
        Some(bytes) => {
            &&& new_content != before.known
            &&& after.known == new_content
            &&& after.waiting == before.waiting
            &&& edited_to(before.state, before.known, new_content, after.state)
            &&& edited(before.state, bytes, after.state)
        },
    }
}

impl CrdtEngine {
    /// The state of the replicated document.
    pub open spec fn state(&self) -> DocState {
        self@.state
    }

    /// The snapshot: the text as it was last known.
    pub open spec fn known(&self) -> Seq<char> {
        self@.known
    }

    /// What holds of every engine.
    pub open spec fn inv(&self) -> bool {
        consistent(self.state()) && self.noted()
    }

    /// What is divided and what must not be is noted, and only updates wait.
    pub closed spec fn noted(&self) -> bool {
        &&& self.cuts@ == all_cuts(doc_state(self.doc).updates)
        &&& self.halves@ == all_halves(doc_state(self.doc).updates)
        &&& forall|i: int|
            0 <= i < self.waiting@.len() ==> is_update((#[trigger] self.waiting@[i])@)
    }

    /// The snapshot is the replicated text.
    pub open spec fn mirrors(&self) -> bool {
        self@.mirrors()
    }

    /// The snapshot is a copy of the replicated text, or of its front part.
    pub open spec fn in_step(&self) -> bool {
        self@.in_step()
    }

    /// Whether a local edit to `new_content` can be made.
    pub open spec fn accepts(&self, new_content: Seq<char>) -> bool {
        self@.accepts(new_content)
    }

    /// An engine with an empty text.
    pub fn new() -> (engine: CrdtEngine)
        ensures
            engine.inv(),
            engine.in_step(),
            engine.mirrors(),
            engine@ == EngineView::fresh(),
    {
        let doc = new_doc(ROOT);
        let engine = CrdtEngine {
            doc,
            snapshot: String::new(),
            waiting: Vec::new(),
            cuts: HashSet::new(),
            halves: HashSet::new(),
        };
        proof {
            lemma_empty_can_be_held();
            assert(engine.state().text.take(0) =~= engine.known());
            assert(engine@.waiting =~= Set::empty());
            assert(engine@.known =~= Seq::empty());
        }
        engine
    }

    /// Notes what an update divides and carries that is now in the document.
    fn note(&mut self, update: &[u8], Ghost(before): Ghost<Set<Seq<u8>>>)
        requires
            is_update(update@),
            doc_state(old(self).doc).updates == before.insert(update@),
            old(self).cuts@ == all_cuts(before),
            old(self).halves@ == all_halves(before),
            forall|i: int|
                0 <= i < old(self).waiting@.len() ==> is_update((#[trigger] old(self).waiting@[i])@),
        ensures
            final(self).noted(),
            final(self)@ == old(self)@,
            final(self).waiting == old(self).waiting,
            final(self).doc == old(self).doc,
    {
        match scan(update) {
            Some(contents) => {
                insert_all(&mut self.cuts, &contents.cuts);
                insert_all(&mut self.halves, &contents.halves);
                proof {
                    lemma_marks_insert(before, update@);
                }
            },
            None => {},
        }
    }

    /// Tells whether an update can be taken.
    fn can_take(&self, data: &[u8], contents: &Contents) -> (ok: bool)
        requires
            self.inv(),
            is_update(data@),
            scan_of(data@) matches Some(found) && contents.scan(found.pos) == found,
            bounded(contents.blocks@),
        ensures
            ok == takes(self.state(), data@),
    {
        let ghost update = data@;
        let units: u32 = text_units(&self.doc, ROOT);
        let sv = state_vector(&self.doc);
        let ghost held = held_ids(self.state().updates);
        if !has_bytes(&sv, contents, u32::MAX - units, Ghost(held)) || !has_needed(
            &sv,
            contents,
            Ghost(held),
            Ghost(scan_of(update)->0),
        ) {
            return false;
        }
        let mut own: HashSet<u64> = HashSet::new();
        insert_all(&mut own, &contents.halves);
        proof {
            let updates = self.state().updates;
            lemma_held_facts(updates);
            lemma_marks_insert(updates, update);
            assert(own@ =~= contents.halves@.to_set());
        }
        let a = holds_any(&own, &contents.cuts);
        let b = holds_any(&self.halves, &contents.cuts);
        let c = holds_any(&self.cuts, &contents.halves);
        proof {
            let updates = self.state().updates;
            let cuts = all_cuts(updates.insert(update));
            let halves = all_halves(updates.insert(update));
            if a {
                let i = choose|i: int|
                    0 <= i < contents.cuts@.len() && own@.contains(#[trigger] contents.cuts@[i]);
                assert(cuts.contains(contents.cuts@[i]) && halves.contains(contents.cuts@[i]));
            }
            if b {
                let i = choose|i: int|
                    0 <= i < contents.cuts@.len() && self.halves@.contains(
                        #[trigger] contents.cuts@[i],
                    );
                assert(cuts.contains(contents.cuts@[i]) && halves.contains(contents.cuts@[i]));
            }
            if c {
                let i = choose|i: int|
                    0 <= i < contents.halves@.len() && self.cuts@.contains(
                        #[trigger] contents.halves@[i],
                    );
                assert(cuts.contains(contents.halves@[i]) && halves.contains(contents.halves@[i]));
            }
            if !a && !b && !c {
                assert forall|k: u64| cuts.contains(k) implies !halves.contains(k) by {
                    if cuts_of(update).contains(k) {
                        let i = choose|i: int|
                            0 <= i < contents.cuts@.len() && contents.cuts@[i] == k;
                        assert(contents.cuts@[i] == k);
                    }
                    if halves_in(update).contains(k) {
                        let i = choose|i: int|
                            0 <= i < contents.halves@.len() && contents.halves@[i] == k;
                        assert(contents.halves@[i] == k);
                    }
                }
            }
        }
        !a && !b && !c
    }

    /// Takes an update that fits.
    fn take(&mut self, data: &[u8])
        requires
            old(self).inv(),
            takes(old(self).state(), data@),
        ensures
            final(self).inv(),
            received(old(self).state(), data@, final(self).state()),
            final(self).waiting == old(self).waiting,
            final(self).known() == old(self).known(),
            old(self).state().updates.contains(data@) ==> final(self).state() == old(self).state(),
    {
        let ghost before = self.state();
        match decode_update(data) {
            Ok(update) => {
                let mut txn = begin(&mut self.doc);
                let _ = apply_update(&mut txn, update);
                finish_with_text(txn, ROOT);
                proof {
                    lemma_can_be_held_insert(before.updates, data@);
                    if before.updates.contains(data@) {
                        assert(self.state() =~= before);
                    }
                }
                self.note(data, Ghost(before.updates));
            },
            Err(_) => {},
        }
    }

    /// Tells whether an update that waits can be taken.
    fn can_take_waiting(&self, i: usize) -> (ok: bool)
        requires
            self.inv(),
            i < self.waiting@.len(),
        ensures
            ok == takes(self.state(), self.waiting@[i as int]@),
    {
        let update = self.waiting[i].as_slice();
        match scan(update) {
            Some(contents) => self.can_take(update, &contents),
            None => false,
        }
    }

    /// Takes an update that waits and fits.
    fn take_waiting(&mut self, i: usize)
        requires
            old(self).inv(),
            i < old(self).waiting@.len(),
            takes(old(self).state(), old(self).waiting@[i as int]@),
        ensures
            final(self).inv(),
            final(self).known() == old(self).known(),
            final(self).waiting@.len() == old(self).waiting@.len() - 1,
            final(self)@.waiting.subset_of(old(self)@.waiting),
            old(self).state().updates.subset_of(final(self).state().updates),
            final(self).state().updates.union(final(self)@.waiting) == old(
                self,
            ).state().updates.union(old(self)@.waiting),
    {
        let ghost list = self.waiting@;
        let ghost first = self@;
        let bytes = self.waiting.remove(i);
        proof {
            assert(self.waiting@ =~= list.remove(i as int));
            assert forall|j: int| 0 <= j < self.waiting@.len() implies is_update(
                (#[trigger] self.waiting@[j])@,
            ) by {
                if j < i {
                    assert(self.waiting@[j] == list[j]);
                } else {
                    assert(self.waiting@[j] == list[j + 1]);
                }
            }
            lemma_listed_remove(list, i as int);
        }
        self.take(bytes.as_slice());
        proof {
            assert(self.state().updates.union(self@.waiting) =~= first.state.updates.union(
                first.waiting,
            ));
        }
    }

    /// Takes every update that waits and can be taken.
    fn settle(&mut self)
        requires
            old(self).inv(),
        ensures
            final(self).inv(),
            final(self).known() == old(self).known(),
            old(self).state().updates.subset_of(final(self).state().updates),
            final(self).state().updates.union(final(self)@.waiting) == old(
                self,
            ).state().updates.union(old(self)@.waiting),
            final(self)@.waiting.subset_of(old(self)@.waiting),
            none_taken(final(self)@.waiting, final(self).state()),
            none_taken(old(self)@.waiting, old(self).state()) ==> final(self)@ == old(self)@,
    {
        let mut i: usize = 0;
        while i < self.waiting.len()
            invariant
                i <= self.waiting@.len(),
                self.inv(),
                self.known() == old(self).known(),
                old(self).state().updates.subset_of(self.state().updates),
                self.state().updates.union(self@.waiting) == old(self).state().updates.union(
                    old(self)@.waiting,
                ),
                self@.waiting.subset_of(old(self)@.waiting),
                forall|j: int|
                    0 <= j < i ==> !takes(self.state(), (#[trigger] self.waiting@[j])@),
                none_taken(old(self)@.waiting, old(self).state()) ==> self@ == old(self)@,
            decreases self.waiting@.len(), self.waiting@.len() - i,
        {
            assert(self@.waiting.contains(self.waiting@[i as int]@));
            if self.can_take_waiting(i) {
                self.take_waiting(i);
                i = 0;
            } else {
                i += 1;
            }
        }
    }

    /// Puts initial content at the start of the text.
    pub fn seed(&mut self, content: &str)
        requires
            old(self).inv(),
            content@.len() > 0 ==> old(self).state().has_room(byte_len(content@)),
        ensures
            final(self).inv(),
            seeded(old(self)@, content@, final(self)@),
            content@.len() > 0 && old(self).state().plain() ==> final(self).in_step(),
            content@.len() > 0 && old(self).state().text.len() == 0 ==> final(self).mirrors(),
    {
        if content.is_empty() {
            return;
        }
        let ghost before = self.state();
        let mut txn = begin(&mut self.doc);
        proof {
            assert(before.text.take(0) =~= Seq::empty());
            assert(byte_len(before.text.take(0)) == 0);
        }
        insert_text(&mut txn, ROOT, 0, content);
        let update = finish_with_update(txn);
        self.snapshot = content.to_owned();
        self.note(update.as_slice(), Ghost(before.updates));
        proof {
            assert(before.text.skip(0) =~= before.text);
            assert(before.ids.skip(0) =~= before.ids);
            assert(self.state().text =~= content@ + before.text);
            lemma_byte_len_concat(content@, before.text);
            lemma_edit_listed(before, update@, self.state());
            assert(edited(before, update@, self.state()));
            assert(self.state().text.take(content@.len() as int) =~= content@);
        }
    }

    /// Applies a local change of the text, which is now `new_content`. Returns
    /// the update to broadcast, or `None` if the content did not change. The
    /// update is incremental: it carries the edits that [`compute_diff`] finds.
    pub fn apply_local_edit(&mut self, new_content: &str) -> (update: Option<Vec<u8>>)
        requires
            old(self).inv(),
            old(self).accepts(new_content@),
        ensures
            final(self).inv(),
            final(self).in_step(),
            changed_to(
                old(self)@,
                new_content@,
                (match update {
                    Some(bytes) => Some(bytes@),
                    None => None,
                }),
                final(self)@,
            ),
            old(self).mirrors() ==> final(self).mirrors(),
    {
        let ghost before = self.state();
        proof {
            lemma_byte_len_at_least_len(new_content@);
            lemma_byte_len_at_least_len(before.text);
        }
        let ops = compute_diff(self.snapshot.as_str(), new_content);
        if ops.is_empty() {
            return None;
        }
        let ghost known = self.known();
        let front = chars_of(self.snapshot.as_str());
        let mut txn = begin(&mut self.doc);
        make_edits(&mut txn, &front, &ops);
        let update = finish_with_update(txn);
        self.snapshot = new_content.to_owned();
        self.note(update.as_slice(), Ghost(before.updates));
        proof {
            lemma_byte_len_concat(new_content@, before.text.skip(known.len() as int));
            lemma_edit_listed(before, update@, self.state());
            assert(self.state().text.take(new_content@.len() as int) =~= new_content@);
        }
        Some(update)
    }

    /// Takes over the replicated text after an update. Returns it if it differs
    /// from the one last known.
    pub fn adopt_text(&mut self, new_text: String) -> (changed: Option<String>)
        ensures
            old(self).inv() ==> final(self).inv(),
            final(self)@ == (EngineView { known: new_text@, ..old(self)@ }),
            changed is None <==> new_text@ == old(self).known(),
            changed matches Some(text) ==> text@ == new_text@,
    {
        if same_text(new_text.as_str(), self.snapshot.as_str()) {
            None
        } else {
            self.snapshot = new_text.clone();
            Some(new_text)
        }
    }

    /// Applies an update of a peer. Returns the new text if it changed, `None`
    /// otherwise.
    ///
    /// Bytes that are no update are refused and change nothing. An update that
    /// comes before what it builds on waits, and is taken once that is there. So
    /// does one that would divide a character.
    pub fn apply_remote_update(&mut self, data: &[u8]) -> (result: Result<
        Option<String>,
        RemoteUpdateError,
    >)
        requires
            old(self).inv(),
        ensures
            final(self).inv(),
            result is Ok <==> is_update(data@),
            match result {
                Err(RemoteUpdateError::Decode(_)) => final(self)@ == old(self)@,
                Ok(changed) => {
                    &&& gathered(old(self)@, data@, final(self)@)
                    &&& changed is None <==> final(self).known() == old(self).known()
                    &&& changed matches Some(text) ==> text@ == final(self).known()
                },
            },
    {
        let contents = match scan(data) {
            Some(contents) => contents,
            None => {
                return Err(RemoteUpdateError::Decode(None));
            },
        };
        if let Err(e) = decode_update(data) {
            return Err(RemoteUpdateError::Decode(Some(e)));
        }
        let ghost before = self@;
        let ghost all = before.state.updates.union(before.waiting).insert(data@);
        let ghost list = self.waiting@;
        if self.can_take(data, &contents) {
            self.take(data);
        } else if !self.is_waiting(data) {
            self.waiting.push(vstd::slice::slice_to_vec(data));
            proof {
                lemma_listed_push(list, self.waiting@.last());
                assert(self.waiting@ =~= list.push(self.waiting@.last()));
                assert forall|i: int| 0 <= i < self.waiting@.len() implies is_update(
                    (#[trigger] self.waiting@[i])@,
                ) by {
                    if i < list.len() {
                        assert(self.waiting@[i] == list[i]);
                    }
                }
            }
        }
        proof {
            assert(self.state().updates.union(self@.waiting) =~= all);
            lemma_held_facts(before.state.updates);
            if before.state.updates.contains(data@) {
                lemma_held_adds_nothing(before.state.updates, data@);
            }
            if before.waiting.contains(data@) {
                assert(before.waiting.insert(data@) =~= before.waiting);
            }
        }
        self.settle();
        let new_text = read_text(&self.doc, ROOT);
        let changed = self.adopt_text(new_text);
        Ok(changed)
    }

    /// Tells whether an update waits.
    fn is_waiting(&self, data: &[u8]) -> (there: bool)
        ensures
            there == self@.waiting.contains(data@),
    {
        let mut i: usize = 0;
        while i < self.waiting.len()
            invariant
                i <= self.waiting@.len(),
                forall|j: int| 0 <= j < i ==> (#[trigger] self.waiting@[j])@ != data@,
            decreases self.waiting@.len() - i,
        {
            if same_bytes(self.waiting[i].as_slice(), data) {
                assert(self.waiting@[i as int]@ == data@);
                return true;
            }
            i += 1;
        }
        false
    }

    /// The state vector in bytes, for the first step of a sync.
    pub fn state_vector_bytes(&self) -> (bytes: Vec<u8>)
        ensures
            encodes_clocks(bytes@, self.state().clocks),
    {
        let sv = state_vector(&self.doc);
        encode_state_vector(&sv)
    }

    /// An update with what a peer lacks that has the state vector
    /// `peer_sv_bytes`, for the second step of a sync. A peer that sent anything
    /// else is taken to have nothing.
    pub fn encode_state_as_update(&self, peer_sv_bytes: &[u8]) -> (update: Vec<u8>)
        requires
            self.inv(),
        ensures
            fills_gap(update@, peer_clocks(peer_sv_bytes@), self.state().updates),
    {
        let sv = if check_entries(peer_sv_bytes) {
            match decode_state_vector(peer_sv_bytes) {
                Ok(sv) => sv,
                Err(_) => empty_state_vector(),
            }
        } else {
            empty_state_vector()
        };
        encode_diff(&self.doc, &sv)
    }

    /// Tells whether the counters of the document have room for `text`.
    pub fn has_room_for(&self, text: &str) -> (room: bool)
        ensures
            room == self.state().has_room(byte_len(text@)),
    {
        let bytes: usize = text.as_bytes().len();
        let units: u32 = text_units(&self.doc, ROOT);
        let clock: u32 = own_clock(&self.doc);
        clock <= CLOCK_LIMIT && bytes <= (u32::MAX - units) as usize && bytes <= (CLOCK_LIMIT
            - clock) as usize
    }

    /// Tells whether a local edit to `new_content` can be made.
    pub fn accepts_edit(&self, new_content: &str) -> (accepted: bool)
        ensures
            accepted == self.accepts(new_content@),
    {
        let text = read_text(&self.doc, ROOT);
        let bytes: usize = text.as_str().as_bytes().len();
        let len: usize = self.snapshot.as_str().unicode_len();
        if bytes != text_units(&self.doc, ROOT) as usize || len > text.as_str().unicode_len() {
            return false;
        }
        if !same_text(text.as_str().substring_char(0, len), self.snapshot.as_str()) {
            return false;
        }
        same_text(new_content, self.snapshot.as_str()) || self.has_room_for(new_content)
    }

    /// Current text content.
    pub fn current_text(&self) -> (text: &str)
        ensures
            text@ == self.known(),
    {
        self.snapshot.as_str()
    }
}

/// A document whose edits were listed is as it should be.
proof fn lemma_edit_listed(before: DocState, update: Seq<u8>, after: DocState)
    requires
        consistent(before),
        after.updates == before.updates.insert(update),
        !after.open_edits,
        !after.applied,
        after.ids.len() == after.text.len(),
        is_update(update),
        is_ready(before.updates, update),
        uncut(before.updates.insert(update)),
        stands_apart(update, before.updates),
        carried_bytes(update) <= byte_len(after.text),
        before.has_space(carried_bytes(update)),
        after.has_space(0),
        after.typed == 0,
        counts(
            after.clocks,
            held_ids(before.updates).union(block_ids(update)),
        ),
        go_together(after.updates) ==> merged_text(after.updates) == after.text,
        go_together(after.updates) ==> merged_line(after.updates) == after.line,
        before.plain() ==> after.plain(),
    ensures
        edited(before, update, after),
{
    lemma_held_ids_insert(before.updates, update);
    lemma_can_be_held_insert(before.updates, update);
    lemma_fewer(before.updates, after.updates);
    lemma_added_bytes(before.updates, update);
}

/// The list without one item.
proof fn lemma_listed_remove(list: Seq<Vec<u8>>, i: int)
    requires
        0 <= i < list.len(),
    ensures
        listed(list) == listed(list.remove(i)).insert(list[i]@),
{
    let rest = list.remove(i);
    assert forall|u: Seq<u8>| listed(list).contains(u) <==> listed(rest).insert(
        list[i]@,
    ).contains(u) by {
        if listed(list).contains(u) && u != list[i]@ {
            let j = choose|j: int| 0 <= j < list.len() && (#[trigger] list[j])@ == u;
            if j < i {
                assert(rest[j] == list[j]);
            } else {
                assert(rest[j - 1] == list[j]);
            }
        }
        if listed(rest).contains(u) {
            let j = choose|j: int| 0 <= j < rest.len() && (#[trigger] rest[j])@ == u;
            if j < i {
                assert(list[j] == rest[j]);
            } else {
                assert(list[j + 1] == rest[j]);
            }
        }
        assert(list[i]@ == list[i]@);
    }
    assert(listed(list) =~= listed(rest).insert(list[i]@));
}

/// The list with one more item.
proof fn lemma_listed_push(list: Seq<Vec<u8>>, bytes: Vec<u8>)
    ensures
        listed(list.push(bytes)) == listed(list).insert(bytes@),
{
    let more = list.push(bytes);
    lemma_listed_remove(more, list.len() as int);
    assert(more.remove(list.len() as int) =~= list);
}

/// Adds some numbers to a set.
fn insert_all(set: &mut HashSet<u64>, keys: &Vec<u64>)
    ensures
        final(set)@ == old(set)@.union(keys@.to_set()),
{
    let ghost before = set@;
    let mut i: usize = 0;
    assert(set@ =~= before.union(keys@.take(0).to_set()));
    while i < keys.len()
        invariant
            i <= keys@.len(),
            set@ == before.union(keys@.take(i as int).to_set()),
        decreases keys@.len() - i,
    {
        let k: u64 = keys[i];
        set.insert(k);
        proof {
            let part = keys@.take(i as int);
            let more = keys@.take(i + 1);
            assert(more =~= part.push(k));
            assert forall|x: u64| more.to_set().contains(x) <==> part.to_set().contains(x) || x
                == k by {
                if part.contains(x) {
                    let j = choose|j: int| 0 <= j < part.len() && part[j] == x;
                    assert(more[j] == x);
                }
                assert(more[i as int] == k);
                if more.contains(x) {
                    let j = choose|j: int| 0 <= j < more.len() && more[j] == x;
                    if j < i {
                        assert(part[j] == x);
                    }
                }
            }
            assert(set@ =~= before.union(more.to_set()));
        }
        i += 1;
    }
    assert(keys@.take(keys@.len() as int) =~= keys@);
}

/// Tells whether a set holds one of some numbers.
fn holds_any(set: &HashSet<u64>, keys: &Vec<u64>) -> (found: bool)
    ensures
        found == (exists|i: int| 0 <= i < keys@.len() && set@.contains(#[trigger] keys@[i])),
{
    let mut i: usize = 0;
    while i < keys.len()
        invariant
            i <= keys@.len(),
            forall|j: int| 0 <= j < i ==> !set@.contains(#[trigger] keys@[j]),
        decreases keys@.len() - i,
    {
        if set.contains(&keys[i]) {
            assert(set@.contains(keys@[i as int]));
            return true;
        }
        i += 1;
    }
    false
}

/// Where the edits before the `i`-th one leave the position.
spec fn position_before(edits: Seq<Edit>, i: int) -> nat {
    if i <= 0 {
        0
    } else {
        position_after(edits[i - 1])
    }
}

/// What edits that work from left to right have passed does not change any more.
proof fn lemma_passed_text_stays(text: Seq<char>, edits: Seq<Edit>, i: int, j: int)
    requires
        left_to_right(text, edits),
        0 <= i <= j <= edits.len(),
    ensures
        position_before(edits, i) <= position_before(edits, j) <= apply_edits(
            text,
            edits.take(j),
        ).len(),
        apply_edits(text, edits.take(j)).take(position_before(edits, i) as int) == apply_edits(
            text,
            edits.take(i),
        ).take(position_before(edits, i) as int),
    decreases j,
{
    let at = position_before(edits, i) as int;
    if j > 0 {
        let before = apply_edits(text, edits.take(j - 1));
        let after = apply_edits(text, edits.take(j));
        let edit = edits[j - 1];
        assert(edits.take(j).drop_last() =~= edits.take(j - 1));
        assert(after == apply_edit(before, edit));
        assert(applicable(before, edit));
        if i < j {
            lemma_passed_text_stays(text, edits, i, j - 1);
            assert(at <= position_before(edits, j - 1) <= edit.pos);
            assert(after.take(at) =~= before.take(at));
        }
    }
}

/// What the first `i` edits have passed is part of the text that all lead to.
proof fn lemma_passed_in_goal(text: Seq<char>, edits: Seq<Edit>, i: int)
    requires
        left_to_right(text, edits),
        0 <= i <= edits.len(),
    ensures
        position_before(edits, i) <= apply_edits(text, edits.take(i)).len(),
        position_before(edits, i) <= byte_len(
            apply_edits(text, edits.take(i)).take(position_before(edits, i) as int),
        ) <= byte_len(apply_edits(text, edits)),
{
    let at = position_before(edits, i) as int;
    let goal = apply_edits(text, edits);
    assert(edits.take(edits.len() as int) =~= edits);
    lemma_passed_text_stays(text, edits, i, i);
    lemma_passed_text_stays(text, edits, i, edits.len() as int);
    lemma_byte_len_take(goal, 0, at);
    lemma_byte_len_at_least_len(goal.take(at));
}

/// Whether a position in `now` with `bytes` bytes in front of it is the one from
/// which on `now` goes on as `front` does from `used` on.
spec fn in_sync(now: Seq<char>, at: int, bytes: int, front: Seq<char>, used: int) -> bool {
    &&& 0 <= at <= now.len()
    &&& 0 <= used <= front.len()
    &&& now.skip(at) == front.skip(used)
    &&& bytes == byte_len(now.take(at))
}

/// The position moves on by `ahead` characters.
proof fn lemma_move_on(
    now: Seq<char>,
    at: int,
    bytes: int,
    front: Seq<char>,
    used: int,
    ahead: int,
)
    requires
        in_sync(now, at, bytes, front, used),
        0 <= ahead <= now.len() - at,
    ensures
        used + ahead <= front.len(),
        in_sync(
            now,
            at + ahead,
            bytes + byte_len(front.subrange(used, used + ahead)),
            front,
            used + ahead,
        ),
        bytes + byte_len(front.subrange(used, used + ahead)) <= byte_len(now),
{
    assert(now.skip(at).len() == front.skip(used).len());
    assert(now.subrange(at, at + ahead) =~= now.skip(at).take(ahead));
    assert(front.subrange(used, used + ahead) =~= front.skip(used).take(ahead));
    lemma_byte_len_take(now, at, at + ahead);
    assert(now.skip(at + ahead) =~= now.skip(at).skip(ahead));
    assert(front.skip(used + ahead) =~= front.skip(used).skip(ahead));
}

/// A deletion takes away what follows the position.
proof fn lemma_deletion(
    now: Seq<char>,
    at: int,
    bytes: int,
    front: Seq<char>,
    used: int,
    edit: Edit,
)
    requires
        in_sync(now, at, bytes, front, used),
        edit.kind == EditKind::Delete,
        edit.pos == at,
        applicable(now, edit),
    ensures
        used + edit.len <= front.len(),
        in_sync(apply_edit(now, edit), at, bytes, front, used + edit.len),
        byte_len(now.take(at + edit.len)) == bytes + byte_len(
            front.subrange(used, used + edit.len),
        ),
        byte_len(now) == byte_len(apply_edit(now, edit)) + byte_len(
            front.subrange(used, used + edit.len),
        ),
{
    let to = at + edit.len;
    lemma_move_on(now, at, bytes, front, used, edit.len as int);
    let next = apply_edit(now, edit);
    assert(next.take(at) =~= now.take(at));
    assert(next.skip(at) =~= now.skip(to));
    lemma_byte_len_take(now, to, to);
    lemma_byte_len_concat(now.take(at), now.skip(to));
}

/// An insertion puts text in front of the position.
proof fn lemma_insertion(
    now: Seq<char>,
    at: int,
    bytes: int,
    front: Seq<char>,
    used: int,
    edit: Edit,
)
    requires
        in_sync(now, at, bytes, front, used),
        edit.kind == EditKind::Insert,
        edit.pos == at,
        applicable(now, edit),
    ensures
        in_sync(
            apply_edit(now, edit),
            at + edit.content.len(),
            bytes + byte_len(edit.content),
            front,
            used,
        ),
        byte_len(apply_edit(now, edit)) == byte_len(now) + byte_len(edit.content),
{
    let next = apply_edit(now, edit);
    let end = at + edit.content.len();
    assert(next.take(end) =~= now.take(at) + edit.content);
    assert(next.skip(end) =~= now.skip(at));
    assert(next =~= (now.take(at) + edit.content) + now.skip(at));
    lemma_byte_len_concat(now.take(at), edit.content);
    lemma_byte_len_concat(now.take(at) + edit.content, now.skip(at));
    lemma_byte_len_take(now, at, at);
}

/// Whether `now` followed by `tail` is the text of an open transaction that
/// began in the state `start` and has added `added` bytes since. `marks` are those
/// of `now`, and `kept` are the units of `tail`.
spec fn under_way(
    state: DocState,
    start: DocState,
    now: Seq<char>,
    tail: Seq<char>,
    added: int,
    marks: Seq<Option<BlockId>>,
    kept: Seq<BlockId>,
) -> bool {
    &&& marks.len() == now.len()
    &&& kept.len() == tail.len()
    &&& state.ids.len() == state.text.len()
    &&& follows_marks(marks + marks_of(kept), held_ids(start.updates), state.ids)
    &&& state.plain()
    &&& state.text == now + tail
    &&& state.units <= start.units + added
    &&& start.clock <= state.clock <= start.clock + added
    &&& state.updates == start.updates
    &&& state.typed == added
    &&& !state.applied
}

/// The units that a deletion leaves.
proof fn lemma_marks_deleted(
    marks: Seq<Option<BlockId>>,
    kept: Seq<BlockId>,
    edit: Edit,
    held: Set<BlockId>,
    before: Seq<BlockId>,
    after: Seq<BlockId>,
)
    requires
        edit.kind == EditKind::Delete,
        edit.pos + edit.len <= marks.len(),
        follows_marks(marks + marks_of(kept), held, before),
        after == before.take(edit.pos as int) + before.skip((edit.pos + edit.len) as int),
    ensures
        follows_marks(mark_edit(marks, edit) + marks_of(kept), held, after),
{
    let old_marks = marks + marks_of(kept);
    let new_marks = mark_edit(marks, edit) + marks_of(kept);
    let at = edit.pos as int;
    let n = edit.len as int;
    assert(new_marks =~= old_marks.take(at) + old_marks.skip(at + n));
    assert forall|i: int| 0 <= i < after.len() implies match #[trigger] new_marks[i] {
        Some(id) => after[i] == id,
        None => !held.contains(after[i]),
    } by {
        if i < at {
            assert(new_marks[i] == old_marks[i] && after[i] == before[i]);
        } else {
            assert(new_marks[i] == old_marks[i + n] && after[i] == before[i + n]);
        }
    }
}

/// The units after an insertion.
proof fn lemma_marks_inserted(
    marks: Seq<Option<BlockId>>,
    kept: Seq<BlockId>,
    edit: Edit,
    before: DocState,
    after: Seq<BlockId>,
)
    requires
        edit.kind == EditKind::Insert,
        edit.pos <= marks.len(),
        follows_marks(marks + marks_of(kept), held_ids(before.updates), before.ids),
        new_between(before, edit.pos as int, edit.content.len() as int, after),
    ensures
        follows_marks(mark_edit(marks, edit) + marks_of(kept), held_ids(before.updates), after),
{
    let held = held_ids(before.updates);
    let old_marks = marks + marks_of(kept);
    let new_marks = mark_edit(marks, edit) + marks_of(kept);
    let at = edit.pos as int;
    let n = edit.content.len() as int;
    let fresh = Seq::new(edit.content.len(), |i: int| None::<BlockId>);
    assert(new_marks =~= old_marks.take(at) + fresh + old_marks.skip(at));
    assert forall|i: int| 0 <= i < after.len() implies match #[trigger] new_marks[i] {
        Some(id) => after[i] == id,
        None => !held.contains(after[i]),
    } by {
        if i < at {
            assert(new_marks[i] == old_marks[i]);
            assert(after.take(at)[i] == before.ids.take(at)[i]);
        } else if i < at + n {
            assert(new_marks[i] == None::<BlockId>);
        } else {
            assert(new_marks[i] == old_marks[i - n]);
            assert(after.skip(at + n)[i - at - n] == before.ids.skip(at)[i - at - n]);
        }
    }
}

/// Makes the edit `op`, where `bytes` bytes are in front of its position and
/// `len` bytes are to be deleted.
fn make_edit(
    txn: &mut yrs::TransactionMut<'_>,
    op: &EditOp,
    bytes: u32,
    len: u32,
    Ghost(start): Ghost<DocState>,
    Ghost(now): Ghost<Seq<char>>,
    Ghost(tail): Ghost<Seq<char>>,
    Ghost(added): Ghost<int>,
    Ghost(marks): Ghost<Seq<Option<BlockId>>>,
    Ghost(kept): Ghost<Seq<BlockId>>,
)
    requires
        under_way(txn_state(*old(txn)), start, now, tail, added, marks, kept),
        applicable(now, op@),
        byte_len(now.take(op.pos as int)) == bytes,
        op.kind == EditKind::Delete ==> byte_len(now.take(op.pos + op.len)) == bytes + len,
        op.kind == EditKind::Insert ==> start.has_room(
            (added + byte_len(op.content@)) as nat,
        ),
        0 <= added,
    ensures
        under_way(
            txn_state(*final(txn)),
            start,
            apply_edit(now, op@),
            tail,
            if op.kind == EditKind::Insert {
                added + byte_len(op.content@)
            } else {
                added
            },
            mark_edit(marks, op@),
            kept,
        ),
        txn_state(*final(txn)).open_edits,
        txn_outcome(*final(txn)) == txn_outcome(*old(txn)),
{
    let ghost whole = txn_state(*txn).text;
    let ghost at = op.pos as int;
    let ghost next = apply_edit(now, op@);
    let ghost before = txn_state(*txn);
    proof {
        assert(whole.take(at) =~= now.take(at));
        lemma_byte_len_concat(now, tail);
        lemma_byte_len_concat(next, tail);
    }
    match op.kind {
        EditKind::Delete => {
            let ghost to = at + op.len;
            proof {
                assert(whole.take(to) =~= now.take(to));
                lemma_byte_len_take(now, at, to);
                lemma_byte_len_concat(now.take(at), now.skip(to));
            }
            remove_text(txn, ROOT, bytes, len);
            assert(txn_state(*txn).text == whole.take(at) + whole.skip(to));
            assert(txn_state(*txn).text =~= next + tail);
            proof {
                let ids = txn_state(*txn).ids;
                lemma_marks_deleted(marks, kept, op@, held_ids(start.updates), before.ids, ids);
            }
        },
        EditKind::Insert => {
            proof {
                lemma_byte_len_take(now, at, at);
                lemma_byte_len_concat(now.take(at), op.content@);
                lemma_byte_len_concat(now.take(at) + op.content@, now.skip(at));
            }
            insert_text(txn, ROOT, bytes, op.content.as_str());
            assert(txn_state(*txn).text == whole.take(at) + op.content@ + whole.skip(at));
            assert(txn_state(*txn).text =~= next + tail);
            proof {
                let ids = txn_state(*txn).ids;
                lemma_marks_inserted(marks, kept, op@, before, ids);
            }
        },
    }
}

/// Makes the edits `ops` to the front part of the text, which is `front`. Their
/// positions count characters; the transaction is told positions in bytes.
#[verifier::rlimit(40)]
fn make_edits(txn: &mut yrs::TransactionMut<'_>, front: &Vec<char>, ops: &Vec<EditOp>)
    requires
        txn_state(*old(txn)).plain(),
        front@.len() <= txn_state(*old(txn)).text.len(),
        txn_state(*old(txn)).text.take(front@.len() as int) == front@,
        left_to_right(front@, edits_view(ops@)),
        txn_state(*old(txn)).has_room(byte_len(apply_edits(front@, edits_view(ops@)))),
        txn_state(*old(txn)).ids.len() == txn_state(*old(txn)).text.len(),
        !txn_state(*old(txn)).applied,
        txn_state(*old(txn)).typed == 0,
    ensures
        txn_state(*final(txn)).plain(),
        txn_state(*final(txn)).units <= u32::MAX,
        txn_state(*final(txn)).typed == inserted_bytes(edits_view(ops@)),
        inserted_bytes(edits_view(ops@)) <= byte_len(apply_edits(front@, edits_view(ops@))),
        !txn_state(*final(txn)).applied,
        txn_state(*final(txn)).ids.len() == txn_state(*final(txn)).text.len(),
        follows_marks(
            mark_edits(
                marks_of(txn_state(*old(txn)).ids.take(front@.len() as int)),
                edits_view(ops@),
            ) + marks_of(txn_state(*old(txn)).ids.skip(front@.len() as int)),
            held_ids(txn_state(*old(txn)).updates),
            txn_state(*final(txn)).ids,
        ),
        txn_state(*final(txn)).text == apply_edits(front@, edits_view(ops@)) + txn_state(
            *old(txn),
        ).text.skip(front@.len() as int),
        txn_state(*old(txn)).clock <= txn_state(*final(txn)).clock <= txn_state(*old(txn)).clock
            + inserted_bytes(edits_view(ops@)),
        txn_state(*final(txn)).clock <= CLOCK_LIMIT,
        txn_state(*final(txn)).updates == txn_state(*old(txn)).updates,
        txn_outcome(*final(txn)) == txn_outcome(*old(txn)),
{
    let ghost start = txn_state(*txn);
    let ghost edits = edits_view(ops@);
    let ghost tail = start.text.skip(front@.len() as int);
    let ghost goal = apply_edits(front@, edits);
    let ghost mut now = front@;
    let ghost mut added: int = 0;
    let ghost kept = start.ids.skip(front@.len() as int);
    let ghost first = marks_of(start.ids.take(front@.len() as int));
    let ghost mut marks = first;
    // The characters in front of the position, their bytes, and how much of
    // `front` they stand for.
    let mut passed: u32 = 0;
    let mut bytes: u32 = 0;
    let mut used: usize = 0;
    let mut i: usize = 0;
    let total: usize = front.len();
    proof {
        assert(edits.take(0) =~= Seq::empty());
        assert(start.text =~= front@ + tail);
        assert(front@.take(0) =~= Seq::empty());
        assert(first + marks_of(kept) =~= marks_of(start.ids));
        lemma_byte_len_concat(front@, tail);
    }
    while i < ops.len()
        invariant
            i <= ops@.len(),
            front@.len() == total,
            edits == edits_view(ops@),
            left_to_right(front@, edits),
            goal == apply_edits(front@, edits),
            start.has_room(byte_len(goal)),
            now == apply_edits(front@, edits.take(i as int)),
            marks == mark_edits(first, edits.take(i as int)),
            added == inserted_bytes(edits.take(i as int)),
            under_way(txn_state(*txn), start, now, tail, added, marks, kept),
            passed == position_before(edits, i as int),
            in_sync(now, passed as int, bytes as int, front@, used as int),
            0 <= added <= bytes,
            added <= byte_len(goal),
            txn_outcome(*txn) == txn_outcome(*old(txn)),
        decreases ops@.len() - i,
    {
        let op = &ops[i];
        let ghost next = apply_edits(front@, edits.take(i + 1));
        proof {
            assert(edits[i as int] == op@);
            assert(applicable(now, op@));
            assert(edits.take(i + 1).drop_last() =~= edits.take(i as int));
            assert(next == apply_edit(now, op@));
            assert(passed <= op.pos);
            lemma_byte_len_concat(now, tail);
            lemma_move_on(
                now,
                passed as int,
                bytes as int,
                front@,
                used as int,
                op.pos - passed,
            );
        }
        let ahead: usize = (op.pos - passed) as usize;
        bytes = bytes + span_bytes(front, used, used + ahead);
        used = used + ahead;
        let mut len: u32 = 0;
        match op.kind {
            EditKind::Delete => {
                proof {
                    lemma_deletion(now, op.pos as int, bytes as int, front@, used as int, op@);
                }
                len = span_bytes(front, used, used + op.len as usize);
            },
            EditKind::Insert => {
                proof {
                    lemma_insertion(now, op.pos as int, bytes as int, front@, used as int, op@);
                    lemma_passed_in_goal(front@, edits, i + 1);
                }
            },
        }
        make_edit(
            txn,
            op,
            bytes,
            len,
            Ghost(start),
            Ghost(now),
            Ghost(tail),
            Ghost(added),
            Ghost(marks),
            Ghost(kept),
        );
        passed = op.pos;
        match op.kind {
            EditKind::Delete => {
                used = used + op.len as usize;
            },
            EditKind::Insert => {
                passed = passed + op.content.as_str().unicode_len() as u32;
                bytes = bytes + op.content.as_str().as_bytes().len() as u32;
                proof {
                    added = added + byte_len(op.content@);
                }
            },
        }
        proof {
            now = next;
            marks = mark_edit(marks, op@);
        }
        i += 1;
    }
    assert(edits.take(edits.len() as int) =~= edits);
}

impl Default for CrdtEngine {
    fn default() -> (engine: CrdtEngine)
        ensures
            engine.inv(),
            engine.in_step(),
            engine.mirrors(),
            engine@ == EngineView::fresh(),
    {
        CrdtEngine::new()
    }
}

} // verus!

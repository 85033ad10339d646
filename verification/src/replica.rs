//! What the engine uses of `yrs`: documents, transactions, updates and state
//! vectors, with the properties of them that the proofs rest on.
//!
//! A document is known by its [`DocState`]. The changes that went into it are
//! known by the updates that carry them, as byte strings: every local
//! transaction ends in one update, and every update of a peer is one.
use vstd::prelude::*;
use yrs::updates::decoder::Decode;
use yrs::updates::encoder::Encode;
use yrs::{GetString, ReadTxn, Text, Transact, WriteTxn};
use crate::history::{
    added_bytes, all_cuts, all_halves, block_ids, can_be_held, carried_bytes, cuts_of, fits,
    go_together, halves_in, held_ids, is_ready, is_update, uncut,
};
use crate::ready::BlockId;
use crate::text::byte_len;
use crate::update::{entries_fit, is_sound, CLOCK_LIMIT};

verus! {

/// The document of `yrs`. It is a handle on shared state; the engine keeps its
/// only handle, so that `&mut` to it means sole access to that state.
#[verifier::external_type_specification]
#[verifier::external_body]
pub struct ExDoc(yrs::Doc);

/// The read-write transaction of `yrs`.
#[verifier::external_type_specification]
#[verifier::external_body]
pub struct ExTransactionMut<'doc>(yrs::TransactionMut<'doc>);

/// The decoded update of `yrs`.
#[verifier::external_type_specification]
#[verifier::external_body]
pub struct ExUpdate(yrs::Update);

/// The state vector of `yrs`.
#[verifier::external_type_specification]
#[verifier::external_body]
pub struct ExStateVector(yrs::StateVector);

/// Why `yrs` could not decode some bytes.
#[verifier::external_type_specification]
#[verifier::external_body]
pub struct ExReadError(yrs::encoding::read::Error);

/// Why `yrs` could not integrate an update.
#[verifier::external_type_specification]
#[verifier::external_body]
pub struct ExUpdateError(yrs::error::UpdateError);

/// Name of the root text that holds the shared file.
pub const ROOT: &'static str = "content";

/// What is known of a document.
#[verifier::ext_equal]
pub struct DocState {
    /// The characters of the root text.
    pub text: Seq<char>,
    /// For each character of the root text, its first unit.
    pub ids: Seq<BlockId>,
    /// The units of the root text in their order, those that are deleted among
    /// them.
    pub line: Seq<BlockId>,
    /// The length of the root text: the bytes of its characters, and one for each
    /// object embedded in it.
    pub units: nat,
    /// How many units are here under the replica's own client id: the next one
    /// that it makes gets this clock.
    pub clock: nat,
    /// The state vector: for each client, how many of its units are here.
    pub clocks: Map<u64, u32>,
    /// The bytes that the open transaction has inserted.
    pub typed: nat,
    /// The updates that make up the content.
    pub updates: Set<Seq<u8>>,
    /// There are edits that `updates` does not list yet.
    pub open_edits: bool,
    /// An update of a peer came in by the transaction that is open.
    pub applied: bool,
}

impl DocState {
    /// A document that nothing has happened to.
    pub open spec fn fresh() -> DocState {
        DocState {
            text: Seq::empty(),
            ids: Seq::empty(),
            line: Seq::empty(),
            units: 0,
            clock: 0,
            clocks: no_clocks(),
            typed: 0,
            updates: Set::empty(),
            open_edits: false,
            applied: false,
        }
    }

    /// The root text holds characters only.
    pub open spec fn plain(self) -> bool {
        self.units == byte_len(self.text)
    }

    /// The length of the text can be counted with `bytes` more.
    pub open spec fn has_space(self, bytes: nat) -> bool {
        self.units + bytes <= u32::MAX
    }

    /// There is room for `bytes` more in the counters of `yrs`.
    pub open spec fn has_room(self, bytes: nat) -> bool {
        self.has_space(bytes) && self.clock + bytes <= CLOCK_LIMIT
    }

    /// The state once the edits that were made are listed as `update`.
    pub open spec fn with_update(self, update: Seq<u8>) -> DocState {
        DocState { updates: self.updates.insert(update), typed: 0, open_edits: false, ..self }
    }

    /// The content is what the updates say: the length of the text can be counted,
    /// and the state vector counts the units that the updates hold; and if they go
    /// together, the text is the one that all documents with these updates have,
    /// and holds characters only.
    pub open spec fn agrees(self) -> bool {
        &&& self.ids.len() == self.text.len()
        &&& self.has_space(0)
        &&& counts(self.clocks, held_ids(self.updates))
        &&& go_together(self.updates) ==> {
            &&& self.text == merged_text(self.updates)
            &&& self.line == merged_line(self.updates)
            &&& self.plain()
        }
    }
}

/// The state of a document.
pub uninterp spec fn doc_state(doc: yrs::Doc) -> DocState;

/// The state of a document as an open transaction on it sees it.
pub uninterp spec fn txn_state(txn: yrs::TransactionMut<'_>) -> DocState;

/// The state in which a transaction leaves its document.
pub uninterp spec fn txn_outcome(txn: yrs::TransactionMut<'_>) -> DocState;

/// The bytes that an update was decoded from.
pub uninterp spec fn update_bytes(update: yrs::Update) -> Seq<u8>;

/// Whether `yrs::Update` can be decoded from sound `bytes`.
pub uninterp spec fn decodes(bytes: Seq<u8>) -> bool;

/// The root text of a document that holds `updates` and nothing else, received in
/// the first of the orders in which they can be received. If the updates go
/// together, it is the same for every order.
pub uninterp spec fn merged_text(updates: Set<Seq<u8>>) -> Seq<char>;

/// The units of that root text in their order, those that are deleted among them.
pub uninterp spec fn merged_line(updates: Set<Seq<u8>>) -> Seq<BlockId>;

/// The entries of a state vector.
pub uninterp spec fn sv_clocks(sv: yrs::StateVector) -> Map<u64, u32>;

/// The entries of the state vector that `bytes` encode, if they encode one and
/// hold what they declare.
pub uninterp spec fn decoded_clocks(bytes: Seq<u8>) -> Option<Map<u64, u32>>;

/// The entries of an empty state vector.
pub open spec fn no_clocks() -> Map<u64, u32> {
    Map::empty()
}

/// Whether `clocks` counts exactly the units `ids`, with no entry for a client
/// that has none.
pub open spec fn counts(clocks: Map<u64, u32>, ids: Set<BlockId>) -> bool {
    &&& forall|client: u64, n: u32| #[trigger]
        ids.contains((client, n)) <==> clocks.contains_key(client) && n < clocks[client]
    &&& forall|client: u64| #[trigger] clocks.contains_key(client) ==> clocks[client] > 0
}

/// Whether it makes no difference to a document, now or after more updates,
/// which of two sets of updates it holds.
pub open spec fn equivalent(updates1: Set<Seq<u8>>, updates2: Set<Seq<u8>>) -> bool {
    &&& held_ids(updates1) == held_ids(updates2)
    &&& forall|more: Set<Seq<u8>>|
        can_be_held(updates1.union(more)) && can_be_held(updates2.union(more)) && go_together(
            updates1.union(updates2).union(more),
        ) ==> #[trigger] merged_text(updates1.union(more)) == #[trigger] merged_text(
            updates2.union(more),
        )
}

/// Whether `update` goes with everything that `base` goes with.
pub open spec fn goes_with(update: Seq<u8>, base: Set<Seq<u8>>) -> bool {
    forall|others: Set<Seq<u8>>| #[trigger]
        go_together(base.union(others)) ==> go_together(base.union(others).insert(update))
}

/// Whether `update` goes with all that documents hold beside `base` where they do
/// not have the units that the update carries, and divides no character of it. Nor
/// does `base` have these units.
pub open spec fn stands_apart(update: Seq<u8>, base: Set<Seq<u8>>) -> bool {
    &&& block_ids(update).disjoint(held_ids(base))
    &&& forall|others: Set<Seq<u8>>|
        can_be_held(others) && block_ids(update).disjoint(held_ids(others)) && uncut(
            base.union(others),
        ) && #[trigger] go_together(base.union(others)) ==> uncut(
            base.union(others).insert(update),
        ) && go_together(base.union(others).insert(update))
}

/// Whether `diff` brings a peer with the state vector `clocks` all that
/// `known` holds: the peer has what it builds on; it divides nothing that was not
/// divided, goes with what that goes with, and carries no more text than `known`
/// makes; and the peer is then as well off as with `known`.
pub open spec fn fills_gap(diff: Seq<u8>, clocks: Map<u64, u32>, known: Set<Seq<u8>>) -> bool {
    forall|peer: Set<Seq<u8>>|
        #[trigger] counts(clocks, held_ids(peer)) && can_be_held(peer) && uncut(peer.union(known))
            && go_together(peer.union(known)) ==> {
            &&& is_update(diff)
            &&& is_ready(peer, diff)
            &&& cuts_of(diff).subset_of(all_cuts(peer.union(known)))
            &&& halves_in(diff).subset_of(all_halves(known))
            &&& goes_with(diff, peer.union(known))
            &&& carried_bytes(diff) <= byte_len(merged_text(known))
            &&& equivalent(peer.insert(diff), peer.union(known))
        }
}

/// `yrs::Doc::new` and `yrs::Doc::get_or_insert_text`: an empty document whose
/// root text `root` is defined.
#[verifier::external_body]
pub(crate) fn new_doc(root: &str) -> (doc: yrs::Doc)
    requires
        root@ == ROOT@,
    ensures
        doc_state(doc) == DocState::fresh(),
        doc_state(doc).agrees(),
{
    let doc = yrs::Doc::new();
    doc.get_or_insert_text(root);
    doc
}

/// `yrs::Transact::transact_mut`: opens a transaction. The document's state
/// afterwards is the one in which the transaction leaves it.
#[verifier::external_body]
pub(crate) fn begin<'doc>(doc: &'doc mut yrs::Doc) -> (txn: yrs::TransactionMut<'doc>)
    requires
        !doc_state(*old(doc)).open_edits,
        !doc_state(*old(doc)).applied,
        doc_state(*old(doc)).typed == 0,
    ensures
        txn_state(txn) == doc_state(*old(doc)),
        txn_outcome(txn) == doc_state(*final(doc)),
{
    doc.transact_mut()
}

/// `yrs::WriteTxn::get_or_insert_text`, which finds the root text, and
/// `yrs::Text::insert` on it: inserts `chunk` at a position that counts bytes,
/// the default unit of a document. A position that is not the start must lie
/// between two characters of a text without embedded objects. The other
/// characters stay the units that they were; those of `chunk` are new units.
#[verifier::external_body]
pub(crate) fn insert_text(txn: &mut yrs::TransactionMut<'_>, root: &str, index: u32, chunk: &str)
    requires
        root@ == ROOT@,
        index == 0 || txn_state(*old(txn)).plain(),
        exists|at: int|
            0 <= at <= txn_state(*old(txn)).text.len() && byte_len(
                #[trigger] txn_state(*old(txn)).text.take(at),
            ) == index,
        txn_state(*old(txn)).has_room(byte_len(chunk@)),
        txn_state(*old(txn)).ids.len() == txn_state(*old(txn)).text.len(),
    ensures
        forall|at: int|
            0 <= at <= txn_state(*old(txn)).text.len() && byte_len(
                #[trigger] txn_state(*old(txn)).text.take(at),
            ) == index ==> txn_state(*final(txn)).text == txn_state(*old(txn)).text.take(at)
                + chunk@ + txn_state(*old(txn)).text.skip(at),
        forall|at: int|
            0 <= at <= txn_state(*old(txn)).text.len() && byte_len(
                #[trigger] txn_state(*old(txn)).text.take(at),
            ) == index ==> new_between(
                txn_state(*old(txn)),
                at,
                chunk@.len() as int,
                txn_state(*final(txn)).ids,
            ),
        has_more(txn_state(*old(txn)).line, txn_state(*final(txn)).line),
        txn_state(*final(txn)).units == txn_state(*old(txn)).units + byte_len(chunk@),
        txn_state(*old(txn)).clock <= txn_state(*final(txn)).clock <= txn_state(*old(txn)).clock
            + byte_len(chunk@),
        txn_state(*final(txn)).typed == txn_state(*old(txn)).typed + byte_len(chunk@),
        txn_state(*final(txn)).updates == txn_state(*old(txn)).updates,
        txn_state(*final(txn)).open_edits,
        txn_state(*final(txn)).applied == txn_state(*old(txn)).applied,
        txn_outcome(*final(txn)) == txn_outcome(*old(txn)),
{
    let text = txn.get_or_insert_text(root);
    text.insert(txn, index, chunk);
}

/// Whether `after` are the units `before` with more at one place.
pub open spec fn has_more(before: Seq<BlockId>, after: Seq<BlockId>) -> bool {
    exists|at: int|
        {
            let n = after.len() - before.len();
            &&& 0 <= at <= before.len() <= after.len()
            &&& #[trigger] after.take(at) == before.take(at)
            &&& after.skip(at + n) == before.skip(at)
        }
}

/// Whether `ids` are those of `before` with `n` more at `at`, which are of units
/// that none of the updates had.
pub open spec fn new_between(before: DocState, at: int, n: int, ids: Seq<BlockId>) -> bool {
    &&& ids.len() == before.ids.len() + n
    &&& ids.take(at) == before.ids.take(at)
    &&& ids.skip(at + n) == before.ids.skip(at)
    &&& forall|i: int|
        at <= i < at + n ==> !held_ids(before.updates).contains(#[trigger] ids[i])
}

/// `yrs::WriteTxn::get_or_insert_text`, which finds the root text, and
/// `yrs::Text::remove_range` on it: removes `len` bytes from `index` on. Both
/// ends must lie between characters of a text without embedded objects. The other
/// characters stay the units that they were.
#[verifier::external_body]
pub(crate) fn remove_text(txn: &mut yrs::TransactionMut<'_>, root: &str, index: u32, len: u32)
    requires
        root@ == ROOT@,
        txn_state(*old(txn)).plain(),
        exists|from: int, to: int|
            0 <= from <= to <= txn_state(*old(txn)).text.len() && byte_len(
                #[trigger] txn_state(*old(txn)).text.take(from),
            ) == index && byte_len(#[trigger] txn_state(*old(txn)).text.take(to)) == index + len,
        txn_state(*old(txn)).ids.len() == txn_state(*old(txn)).text.len(),
    ensures
        forall|from: int, to: int|
            0 <= from <= to <= txn_state(*old(txn)).text.len() && byte_len(
                #[trigger] txn_state(*old(txn)).text.take(from),
            ) == index && byte_len(#[trigger] txn_state(*old(txn)).text.take(to)) == index + len
                ==> txn_state(*final(txn)).text == txn_state(*old(txn)).text.take(from)
                + txn_state(*old(txn)).text.skip(to) && txn_state(*final(txn)).ids == txn_state(
                *old(txn),
            ).ids.take(from) + txn_state(*old(txn)).ids.skip(to),
        txn_state(*final(txn)).line == txn_state(*old(txn)).line,
        txn_state(*final(txn)).units == txn_state(*old(txn)).units - len,
        txn_state(*final(txn)).clock == txn_state(*old(txn)).clock,
        txn_state(*final(txn)).typed == txn_state(*old(txn)).typed,
        txn_state(*final(txn)).updates == txn_state(*old(txn)).updates,
        txn_state(*final(txn)).open_edits,
        txn_state(*final(txn)).applied == txn_state(*old(txn)).applied,
        txn_outcome(*final(txn)) == txn_outcome(*old(txn)),
{
    let text = txn.get_or_insert_text(root);
    text.remove_range(txn, index, len);
}

/// `yrs::TransactionMut::encode_update_v1` of a transaction that edited the root
/// text and applied no update of a peer, after which the transaction is dropped
/// and thereby committed.
///
/// Claimed of the update: it is sound and can be decoded; the document is left
/// with the edits listed as this update; the update builds on nothing that the
/// document did not hold and divides no character; it carries the characters that
/// were inserted and nothing else, as new units. And, as `yrs` documents of updates, it
/// does not matter in which order documents receive them: those that have
/// received the same ones have the same content.
#[verifier::external_body]
pub(crate) fn finish_with_update(txn: yrs::TransactionMut<'_>) -> (update: Vec<u8>)
    requires
        !txn_state(txn).applied,
        can_be_held(txn_state(txn).updates),
        txn_state(txn).clock <= CLOCK_LIMIT,
    ensures
        txn_outcome(txn) == txn_state(txn).with_update(update@),
        is_sound(update@) && decodes(update@),
        is_ready(txn_state(txn).updates, update@),
        uncut(txn_state(txn).updates.insert(update@)),
        carried_bytes(update@) <= txn_state(txn).typed,
        stands_apart(update@, txn_state(txn).updates),
        counts(
            txn_state(txn).clocks,
            held_ids(txn_state(txn).updates).union(block_ids(update@)),
        ),
        go_together(txn_state(txn).updates.insert(update@)) ==> merged_text(
            txn_state(txn).updates.insert(update@),
        ) == txn_state(txn).text,
        go_together(txn_state(txn).updates.insert(update@)) ==> merged_line(
            txn_state(txn).updates.insert(update@),
        ) == txn_state(txn).line,
{
    txn.encode_update_v1()
}

/// `yrs::WriteTxn::get_or_insert_text`, which finds the root text, and
/// `yrs::GetString::get_string` of it, after which the transaction is dropped
/// and thereby committed: the text that the document is left with.
#[verifier::external_body]
pub(crate) fn finish_with_text(txn: yrs::TransactionMut<'_>, root: &str) -> (text: String)
    requires
        root@ == ROOT@,
        !txn_state(txn).open_edits,
    ensures
        text@ == txn_state(txn).text,
        txn_outcome(txn) == (DocState { text: text@, applied: false, ..txn_state(txn) }),
{
    let mut txn = txn;
    txn.get_or_insert_text(root).get_string(&txn)
}

/// `yrs::Update::decode_v1` of sound bytes: whether it succeeds depends on the
/// bytes alone. It fails if an embedded object or an attribute is not JSON.
#[verifier::external_body]
pub(crate) fn decode_update(data: &[u8]) -> (result: Result<
    yrs::Update,
    yrs::encoding::read::Error,
>)
    requires
        is_sound(data@),
    ensures
        match result {
            Ok(update) => decodes(data@) && update_bytes(update) == data@,
            Err(_) => !decodes(data@),
        },
{
    yrs::Update::decode_v1(data)
}

/// `yrs::TransactionMut::apply_update` of an update that fits, so that none of it
/// is held back, and that does not make the text too long for the 32 bits in which
/// `yrs` counts its bytes.
///
/// Claimed of it: it succeeds, as it fails only on a block inside a nested type;
/// the update is one more of those that make up the content, and the content is
/// then what the updates say (see [`finish_with_update`]); and an update that is
/// there already changes nothing. How another update changes the length of the
/// text and the units of its characters is not stated.
#[verifier::external_body]
pub(crate) fn apply_update(txn: &mut yrs::TransactionMut<'_>, update: yrs::Update) -> (result:
    Result<(), yrs::error::UpdateError>)
    requires
        !txn_state(*old(txn)).open_edits,
        txn_state(*old(txn)).agrees(),
        can_be_held(txn_state(*old(txn)).updates),
        fits(txn_state(*old(txn)).updates, update_bytes(update)),
        txn_state(*old(txn)).has_space(
            added_bytes(txn_state(*old(txn)).updates, update_bytes(update)),
        ),
    ensures
        result is Ok,
        txn_outcome(*final(txn)) == txn_outcome(*old(txn)),
        !txn_state(*final(txn)).open_edits,
        txn_state(*final(txn)).applied,
        txn_state(*final(txn)).typed == txn_state(*old(txn)).typed,
        txn_state(*final(txn)).agrees(),
        txn_state(*final(txn)).updates == txn_state(*old(txn)).updates.insert(
            update_bytes(update),
        ),
        txn_state(*old(txn)).updates.contains(update_bytes(update)) ==> txn_state(*final(txn)) == (
        DocState { applied: true, ..txn_state(*old(txn)) }),
{
    txn.apply_update(update)
}

/// `yrs::ReadTxn::state_vector`.
#[verifier::external_body]
pub(crate) fn state_vector(doc: &yrs::Doc) -> (sv: yrs::StateVector)
    ensures
        sv_clocks(sv) == doc_state(*doc).clocks,
{
    doc.transact().state_vector()
}

/// `yrs::updates::encoder::Encode::encode_v1` of a state vector: some encoding
/// of it, which holds the entries that it declares. Their order is not stated.
#[verifier::external_body]
pub(crate) fn encode_state_vector(sv: &yrs::StateVector) -> (bytes: Vec<u8>)
    ensures
        entries_fit(bytes@),
        decoded_clocks(bytes@) == Some(sv_clocks(*sv)),
{
    sv.encode_v1()
}

/// `yrs::StateVector::decode_v1`, which makes room for the entries that are
/// declared: it gives back those that were encoded. Which other bytes are state
/// vectors is not stated.
#[verifier::external_body]
pub(crate) fn decode_state_vector(bytes: &[u8]) -> (result: Result<
    yrs::StateVector,
    yrs::encoding::read::Error,
>)
    requires
        entries_fit(bytes@),
    ensures
        match result {
            Ok(sv) => decoded_clocks(bytes@) == Some(sv_clocks(sv)),
            Err(_) => decoded_clocks(bytes@) is None,
        },
{
    yrs::StateVector::decode_v1(bytes)
}

/// `yrs::StateVector::get`: the entry of a client, or zero if it has none.
#[verifier::external_body]
pub(crate) fn clock_in(sv: &yrs::StateVector, client: u64) -> (clock: u32)
    ensures
        clock == if sv_clocks(*sv).contains_key(client) {
            sv_clocks(*sv)[client]
        } else {
            0
        },
{
    sv.get(&client)
}

/// `yrs::StateVector::default`: a state vector without entries.
#[verifier::external_body]
pub(crate) fn empty_state_vector() -> (sv: yrs::StateVector)
    ensures
        sv_clocks(sv) == no_clocks(),
{
    yrs::StateVector::default()
}

/// `yrs::ReadTxn::encode_diff_v1`: an update with all that a document holds and a
/// peer with the state vector `sv` does not. The bytes are not stated, as the
/// same content can be encoded in several ways; nor is anything stated for a
/// state vector that no peer can have, such as one that divides a character.
#[verifier::external_body]
pub(crate) fn encode_diff(doc: &yrs::Doc, sv: &yrs::StateVector) -> (diff: Vec<u8>)
    requires
        !doc_state(*doc).open_edits,
        doc_state(*doc).agrees(),
        can_be_held(doc_state(*doc).updates),
    ensures
        fills_gap(diff@, sv_clocks(*sv), doc_state(*doc).updates),
{
    doc.transact().encode_diff_v1(sv)
}

/// `yrs::ReadTxn::get_text`, which finds the root text, and
/// `yrs::GetString::get_string` of it.
#[verifier::external_body]
pub(crate) fn read_text(doc: &yrs::Doc, root: &str) -> (text: String)
    requires
        root@ == ROOT@,
    ensures
        text@ == doc_state(*doc).text,
{
    let txn = doc.transact();
    txn.get_text(root).map(|text| text.get_string(&txn)).unwrap_or_default()
}

/// `yrs::ReadTxn::get_text`, which finds the root text, and `yrs::Text::len` of
/// it, which counts bytes by default.
#[verifier::external_body]
pub(crate) fn text_units(doc: &yrs::Doc, root: &str) -> (units: u32)
    requires
        root@ == ROOT@,
    ensures
        units == doc_state(*doc).units,
{
    let txn = doc.transact();
    txn.get_text(root).map(|text| text.len(&txn)).unwrap_or_default()
}

/// `yrs::StateVector::get` for the document's own `yrs::Doc::client_id`: how
/// many units are here under that id.
#[verifier::external_body]
pub(crate) fn own_clock(doc: &yrs::Doc) -> (clock: u32)
    ensures
        clock == doc_state(*doc).clock,
{
    doc.transact().state_vector().get(&doc.client_id())
}

} // verus!

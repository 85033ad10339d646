//! Sets of updates: what they hold together, and in which order a document can
//! have received them.
use vstd::prelude::*;
use crate::ready::{
    all_bytes, all_of, carries, has_what_it_needs, is_held, lemma_needs_monotone, lemma_new_bytes,
    new_bytes, one_carries, BlockId,
};
use crate::replica::{decodes, merged_line};
use crate::update::{
    blocks_cut, blocks_halve, face_at, is_sound, law_sound_update_is_fair, lemma_scan_shape, scan_of,
    spans_cut, Block, Payload, Scan,
};

verus! {

/// Whether `bytes` are an update: sound, and one that can be decoded.
pub open spec fn is_update(bytes: Seq<u8>) -> bool {
    is_sound(bytes) && decodes(bytes)
}

/// The units of content that an update carries.
pub open spec fn block_ids(update: Seq<u8>) -> Set<BlockId> {
    match scan_of(update) {
        Some(scan) => Set::new(
            |id: BlockId| one_carries(scan.blocks, all_of(scan.blocks), id),
        ),
        None => Set::empty(),
    }
}

/// The units of content that some updates carry.
pub open spec fn held_ids(updates: Set<Seq<u8>>) -> Set<BlockId> {
    Set::new(|id: BlockId| exists|update: Seq<u8>| #[trigger]
        updates.contains(update) && block_ids(update).contains(id))
}

/// Where content is divided for an update, or can be between two characters that
/// it carries.
pub open spec fn cuts_of(update: Seq<u8>) -> Set<u64> {
    match scan_of(update) {
        Some(scan) => scan.cuts.to_set(),
        None => Set::empty(),
    }
}

/// The second halves of the characters that an update carries.
pub open spec fn halves_in(update: Seq<u8>) -> Set<u64> {
    match scan_of(update) {
        Some(scan) => scan.halves.to_set(),
        None => Set::empty(),
    }
}

/// Where content is divided for some updates, or can be.
pub open spec fn all_cuts(updates: Set<Seq<u8>>) -> Set<u64> {
    Set::new(|k: u64| exists|update: Seq<u8>| #[trigger]
        updates.contains(update) && cuts_of(update).contains(k))
}

/// The second halves of the characters that some updates carry.
pub open spec fn all_halves(updates: Set<Seq<u8>>) -> Set<u64> {
    Set::new(|k: u64| exists|update: Seq<u8>| #[trigger]
        updates.contains(update) && halves_in(update).contains(k))
}

/// Whether no character is divided: nothing is or can be divided for one update
/// where another has the second half of a character.
pub open spec fn uncut(updates: Set<Seq<u8>>) -> bool {
    all_cuts(updates).disjoint(all_halves(updates))
}

/// What an update says of one unit: the units that it was put between, deleted or
/// not, and, unless it is carried as deleted, the character that it belongs to and
/// whether it is the second half of that.
pub struct Unit {
    pub left: Option<(u32, u32)>,
    pub right: Option<(u32, u32)>,
    pub face: Option<(char, bool)>,
}

/// What a block says of the unit with the clock `n`: each but the first was put
/// behind the one before it.
pub open spec fn unit_in(block: Block, payload: Payload, n: u32) -> Unit {
    Unit {
        left: if n == block.clock {
            block.left
        } else {
            Some((block.client, (n - 1) as u32))
        },
        right: block.right,
        face: match payload {
            Payload::Text(text) => Some(face_at(text, n - block.clock)),
            _ => None,
        },
    }
}

/// Whether an update says `unit` of the unit `id`.
#[verifier::opaque]
pub open spec fn tells(update: Seq<u8>, id: BlockId, unit: Unit) -> bool {
    scan_of(update) matches Some(scan) && exists|i: int|
        0 <= i < scan.blocks.len() && #[trigger] carries(scan.blocks[i], id) && unit == unit_in(
            scan.blocks[i],
            scan.payloads[i],
            id.1,
        )
}

/// Whether two updates can both be right about a unit.
pub open spec fn same_unit(a: Unit, b: Unit) -> bool {
    &&& a.left == b.left
    &&& a.right == b.right
    &&& a.face is Some && b.face is Some ==> a.face == b.face
}

/// Whether an update deletes a unit.
pub open spec fn deletes(scan: Scan, id: BlockId) -> bool {
    exists|j: int|
        0 <= j < scan.spans.len() && (#[trigger] scan.spans[j]).client == id.0
            && scan.spans[j].start <= id.1 < scan.spans[j].end
}

/// Whether an update deletes all the units of a block.
pub open spec fn deletes_all(scan: Scan, block: Block) -> bool {
    forall|id: BlockId| #[trigger] carries(block, id) ==> deletes(scan, id)
}

/// Whether an update carries characters only. What it carries as deleted, it also
/// deletes where it came as characters before.
#[verifier::opaque]
pub open spec fn is_of_text(update: Seq<u8>) -> bool {
    scan_of(update) matches Some(scan) && forall|i: int|
        0 <= i < scan.blocks.len() ==> match #[trigger] scan.payloads[i] {
            Payload::Text(_) => true,
            Payload::Deleted => deletes_all(scan, scan.blocks[i]),
            _ => false,
        }
}

/// A neighbour as a unit.
pub open spec fn as_id(unit: (u32, u32)) -> BlockId {
    (unit.0 as u64, unit.1)
}

/// Whether one unit stands before another.
pub open spec fn stands_before(line: Seq<BlockId>, a: BlockId, b: BlockId) -> bool {
    exists|i: int, j: int|
        0 <= i < j < line.len() && #[trigger] line[i] == a && #[trigger] line[j] == b
}

/// Whether a unit stands behind `left`, if there is one, and before `right`, if
/// there is one.
pub open spec fn stands_between(
    line: Seq<BlockId>,
    left: Option<(u32, u32)>,
    right: Option<(u32, u32)>,
    id: BlockId,
) -> bool {
    &&& left matches Some(l) ==> stands_before(line, as_id(l), id)
    &&& right matches Some(r) ==> stands_before(line, id, as_id(r))
}

/// Whether `left` and `right` are neighbours among the units `part`, or the ends of
/// these where there is none.
pub open spec fn are_neighbours(
    line: Seq<BlockId>,
    part: Set<BlockId>,
    left: Option<(u32, u32)>,
    right: Option<(u32, u32)>,
) -> bool {
    &&& left matches Some(l) ==> part.contains(as_id(l))
    &&& right matches Some(r) ==> part.contains(as_id(r))
    &&& left matches Some(l) ==> right matches Some(r) ==> stands_before(line, as_id(l), as_id(r))
    &&& forall|id: BlockId| #[trigger]
        part.contains(id) ==> !stands_between(line, left, right, id)
}

/// Whether the units that a unit builds on are among `part`: the one that its client
/// made before it, and those that it was put between.
pub open spec fn has_below(part: Set<BlockId>, id: BlockId, unit: Unit) -> bool {
    &&& id.1 > 0 ==> part.contains((id.0, (id.1 - 1) as u32))
    &&& unit.left matches Some(l) ==> part.contains(as_id(l))
    &&& unit.right matches Some(r) ==> part.contains(as_id(r))
}

/// Whether `part` has all that its units build on.
pub open spec fn is_part(updates: Set<Seq<u8>>, part: Set<BlockId>) -> bool {
    forall|u: Seq<u8>, id: BlockId, unit: Unit|
        updates.contains(u) && part.contains(id) && #[trigger] tells(u, id, unit) ==> has_below(
            part,
            id,
            unit,
        )
}

/// Whether a unit was put between two neighbours in the text that some part of
/// the other units makes.
pub open spec fn is_in_place(updates: Set<Seq<u8>>, id: BlockId, unit: Unit) -> bool {
    exists|part: Set<BlockId>|
        {
            &&& #[trigger] is_part(updates, part)
            &&& !part.contains(id)
            &&& has_below(part, id, unit)
            &&& are_neighbours(merged_line(updates), part, unit.left, unit.right)
        }
}

/// Whether updates can have come from peers that edit one text: a document can hold
/// them, they carry characters only, no two of them say different things of one
/// unit, and each unit was put where it could be put.
#[verifier::opaque]
pub open spec fn are_edits(updates: Set<Seq<u8>>) -> bool {
    &&& can_be_held(updates)
    &&& forall|u: Seq<u8>| #[trigger] updates.contains(u) ==> is_of_text(u)
    &&& forall|u: Seq<u8>, v: Seq<u8>, id: BlockId, a: Unit, b: Unit|
        updates.contains(u) && updates.contains(v) && #[trigger] tells(u, id, a)
            && #[trigger] tells(v, id, b) ==> same_unit(a, b)
    &&& forall|u: Seq<u8>, id: BlockId, unit: Unit|
        updates.contains(u) && #[trigger] tells(u, id, unit) ==> is_in_place(updates, id, unit)
}

/// Whether updates go together: they are some of those that peers who edit one text
/// can have made. Those of two peers with the same client id may not.
pub open spec fn go_together(updates: Set<Seq<u8>>) -> bool {
    exists|all: Set<Seq<u8>>| #[trigger] are_edits(all) && updates.subset_of(all)
}

/// By how much the blocks of an update can make a text longer, in bytes.
pub open spec fn carried_bytes(update: Seq<u8>) -> nat {
    match scan_of(update) {
        Some(scan) => all_bytes(scan.blocks),
        None => 0,
    }
}

/// By how much an update can make the text of a document that holds `updates`
/// longer, in bytes.
pub open spec fn added_bytes(updates: Set<Seq<u8>>, update: Seq<u8>) -> nat {
    match scan_of(update) {
        Some(scan) => new_bytes(held_ids(updates), scan.blocks),
        None => 0,
    }
}

/// Whether a document that holds `updates` has all that `update` builds on.
pub open spec fn is_ready(updates: Set<Seq<u8>>, update: Seq<u8>) -> bool {
    scan_of(update) matches Some(scan) && has_what_it_needs(held_ids(updates), scan)
}

/// Whether a document that holds `updates` can take `update`: it has all that the
/// update builds on, and no character is divided then.
pub open spec fn fits(updates: Set<Seq<u8>>, update: Seq<u8>) -> bool {
    is_update(update) && is_ready(updates, update) && uncut(updates.insert(update))
}

/// Whether a document can have received updates in this order.
pub open spec fn is_history(order: Seq<Seq<u8>>) -> bool {
    forall|j: int|
        0 <= j < order.len() ==> fits(order.take(j).to_set(), #[trigger] order[j])
}

/// Whether a document can hold these updates: it can have received them in some
/// order.
#[verifier::opaque]
pub open spec fn can_be_held(updates: Set<Seq<u8>>) -> bool {
    exists|order: Seq<Seq<u8>>| is_history(order) && #[trigger] order.to_set() == updates
}

/// One more update adds the units that it carries.
pub proof fn lemma_held_ids_insert(updates: Set<Seq<u8>>, update: Seq<u8>)
    ensures
        held_ids(updates.insert(update)) == held_ids(updates).union(block_ids(update)),
{
    assert forall|id: BlockId| held_ids(updates.insert(update)).contains(id) <==> held_ids(
        updates,
    ).union(block_ids(update)).contains(id) by {
        if block_ids(update).contains(id) {
            assert(updates.insert(update).contains(update));
        }
        if held_ids(updates).contains(id) {
            let u = choose|u: Seq<u8>| #[trigger] updates.contains(u) && block_ids(u).contains(id);
            assert(updates.insert(update).contains(u));
        }
    }
}

/// One more update adds its marks.
pub proof fn lemma_marks_insert(updates: Set<Seq<u8>>, update: Seq<u8>)
    ensures
        all_cuts(updates.insert(update)) == all_cuts(updates).union(cuts_of(update)),
        all_halves(updates.insert(update)) == all_halves(updates).union(halves_in(update)),
{
    let more = updates.insert(update);
    assert(more.contains(update));
    assert forall|k: u64| all_cuts(updates).contains(k) implies all_cuts(more).contains(k) by {
        let u = choose|u: Seq<u8>| #[trigger] updates.contains(u) && cuts_of(u).contains(k);
        assert(more.contains(u));
    }
    assert forall|k: u64| all_halves(updates).contains(k) implies all_halves(more).contains(k) by {
        let u = choose|u: Seq<u8>| #[trigger] updates.contains(u) && halves_in(u).contains(k);
        assert(more.contains(u));
    }
    assert(all_cuts(more) =~= all_cuts(updates).union(cuts_of(update)));
    assert(all_halves(more) =~= all_halves(updates).union(halves_in(update)));
}

/// Fewer updates hold fewer units and marks, and go together if all do.
pub proof fn lemma_fewer(some: Set<Seq<u8>>, all: Set<Seq<u8>>)
    requires
        some.subset_of(all),
    ensures
        held_ids(some).subset_of(held_ids(all)),
        all_cuts(some).subset_of(all_cuts(all)),
        all_halves(some).subset_of(all_halves(all)),
        uncut(all) ==> uncut(some),
        go_together(all) ==> go_together(some),
{
    if go_together(all) {
        let whole = choose|whole: Set<Seq<u8>>| #[trigger]
            are_edits(whole) && all.subset_of(whole);
        assert(are_edits(whole) && some.subset_of(whole));
    }
    assert forall|id: BlockId| held_ids(some).contains(id) implies held_ids(all).contains(id) by {
        let u = choose|u: Seq<u8>| #[trigger] some.contains(u) && block_ids(u).contains(id);
        assert(all.contains(u));
    }
    assert forall|k: u64| all_cuts(some).contains(k) implies all_cuts(all).contains(k) by {
        let u = choose|u: Seq<u8>| #[trigger] some.contains(u) && cuts_of(u).contains(k);
        assert(all.contains(u));
    }
    assert forall|k: u64| all_halves(some).contains(k) implies all_halves(all).contains(k) by {
        let u = choose|u: Seq<u8>| #[trigger] some.contains(u) && halves_in(u).contains(k);
        assert(all.contains(u));
    }
}

/// What is ready stays ready.
pub proof fn lemma_ready_monotone(some: Set<Seq<u8>>, all: Set<Seq<u8>>, update: Seq<u8>)
    requires
        some.subset_of(all),
        is_ready(some, update),
    ensures
        is_ready(all, update),
{
    lemma_fewer(some, all);
    lemma_needs_monotone(held_ids(some), held_ids(all), scan_of(update)->0);
}

/// A list with one more item at its end.
proof fn lemma_push_to_set(order: Seq<Seq<u8>>, update: Seq<u8>)
    ensures
        order.push(update).to_set() == order.to_set().insert(update),
{
    let more = order.push(update);
    assert forall|x: Seq<u8>| more.to_set().contains(x) <==> order.to_set().insert(
        update,
    ).contains(x) by {
        if order.contains(x) {
            let k = choose|k: int| 0 <= k < order.len() && order[k] == x;
            assert(more[k] == x);
        }
        assert(more[order.len() as int] == update);
        if more.contains(x) {
            let k = choose|k: int| 0 <= k < more.len() && more[k] == x;
            if k < order.len() {
                assert(order[k] == x);
            }
        }
    }
    assert(more.to_set() =~= order.to_set().insert(update));
}

/// A document can hold one more update that fits.
pub proof fn lemma_can_be_held_insert(updates: Set<Seq<u8>>, update: Seq<u8>)
    requires
        can_be_held(updates),
        fits(updates, update),
    ensures
        can_be_held(updates.insert(update)),
{
    reveal(can_be_held);
    let order = choose|order: Seq<Seq<u8>>|
        is_history(order) && #[trigger] order.to_set() == updates;
    let more = order.push(update);
    assert forall|j: int| 0 <= j < more.len() implies fits(
        more.take(j).to_set(),
        #[trigger] more[j],
    ) by {
        if j < order.len() {
            assert(more.take(j) =~= order.take(j));
            assert(more[j] == order[j]);
        } else {
            assert(more.take(j) =~= order);
        }
    }
    lemma_push_to_set(order, update);
    assert(more.to_set() == updates.insert(update));
}

/// What holds of updates that a document can hold.
pub proof fn lemma_held_facts(updates: Set<Seq<u8>>)
    requires
        can_be_held(updates),
    ensures
        uncut(updates),
        forall|u: Seq<u8>| #[trigger] updates.contains(u) ==> is_update(u) && fits(updates, u),
{
    reveal(can_be_held);
    let order = choose|order: Seq<Seq<u8>>|
        is_history(order) && #[trigger] order.to_set() == updates;
    lemma_history_uncut(order, order.len() as int);
    assert(order.take(order.len() as int) =~= order);
    assert forall|u: Seq<u8>| #[trigger] updates.contains(u) implies is_update(u) && fits(
        updates,
        u,
    ) by {
        let j = choose|j: int| 0 <= j < order.len() && order[j] == u;
        let before = order.take(j).to_set();
        assert(fits(before, order[j]));
        lemma_take_subset(order, j);
        lemma_ready_monotone(before, updates, u);
        assert(updates.insert(u) =~= updates);
    }
}

proof fn lemma_take_subset(order: Seq<Seq<u8>>, j: int)
    requires
        0 <= j <= order.len(),
    ensures
        order.take(j).to_set().subset_of(order.to_set()),
{
    assert forall|x: Seq<u8>| order.take(j).to_set().contains(x) implies order.to_set().contains(
        x,
    ) by {
        let front = order.take(j);
        let k = choose|k: int| 0 <= k < front.len() && front[k] == x;
        assert(order[k] == x);
    }
}

proof fn lemma_history_uncut(order: Seq<Seq<u8>>, n: int)
    requires
        is_history(order),
        0 <= n <= order.len(),
    ensures
        uncut(order.take(n).to_set()),
{
    if n > 0 {
        assert(fits(order.take(n - 1).to_set(), order[n - 1]));
        assert(order.take(n) =~= order.take(n - 1).push(order[n - 1]));
        lemma_push_to_set(order.take(n - 1), order[n - 1]);
    } else {
        assert(order.take(0).to_set() =~= Set::empty());
    }
}

/// A document can hold nothing.
pub proof fn lemma_empty_can_be_held()
    ensures
        can_be_held(Set::empty()),
        held_ids(Set::empty()) == Set::<BlockId>::empty(),
        all_cuts(Set::empty()) == Set::<u64>::empty(),
        all_halves(Set::empty()) == Set::<u64>::empty(),
{
    reveal(can_be_held);
    let order = Seq::<Seq<u8>>::empty();
    assert(is_history(order));
    assert(order.to_set() =~= Set::<Seq<u8>>::empty());
    assert(held_ids(Set::empty()) =~= Set::<BlockId>::empty());
    assert(all_cuts(Set::empty()) =~= Set::<u64>::empty());
    assert(all_halves(Set::empty()) =~= Set::<u64>::empty());
}

/// A document can hold what two documents hold, if no character is divided.
pub proof fn lemma_union_can_be_held(a: Set<Seq<u8>>, b: Set<Seq<u8>>)
    requires
        can_be_held(a),
        can_be_held(b),
        uncut(a.union(b)),
    ensures
        can_be_held(a.union(b)),
{
    reveal(can_be_held);
    let order = choose|order: Seq<Seq<u8>>| is_history(order) && #[trigger] order.to_set() == b;
    lemma_union_upto(a, b, order, order.len() as int);
    assert(order.take(order.len() as int) =~= order);
}

proof fn lemma_union_upto(a: Set<Seq<u8>>, b: Set<Seq<u8>>, order: Seq<Seq<u8>>, n: int)
    requires
        can_be_held(a),
        is_history(order),
        order.to_set() == b,
        uncut(a.union(b)),
        0 <= n <= order.len(),
    ensures
        can_be_held(a.union(order.take(n).to_set())),
    decreases n,
{
    if n > 0 {
        lemma_union_upto(a, b, order, n - 1);
        let before = order.take(n - 1).to_set();
        let u = order[n - 1];
        let base = a.union(before);
        assert(fits(before, u));
        lemma_ready_monotone(before, base, u);
        lemma_take_subset(order, n);
        assert(order.take(n) =~= order.take(n - 1).push(u));
        lemma_push_to_set(order.take(n - 1), u);
        lemma_fewer(base.insert(u), a.union(b));
        lemma_can_be_held_insert(base, u);
        assert(base.insert(u) =~= a.union(order.take(n).to_set()));
    } else {
        assert(order.take(0).to_set() =~= Set::empty());
        assert(a.union(order.take(0).to_set()) =~= a);
    }
}

/// Of two documents that have received the same updates, in whatever order, and
/// that have taken every update that fits, each holds what the other holds.
pub proof fn lemma_same_arrivals_same_updates(
    a: Set<Seq<u8>>,
    b: Set<Seq<u8>>,
    b_waiting: Set<Seq<u8>>,
)
    requires
        can_be_held(a),
        a.subset_of(b.union(b_waiting)),
        uncut(b.union(b_waiting)),
        forall|w: Seq<u8>| #[trigger] b_waiting.contains(w) ==> !fits(b, w),
    ensures
        a.subset_of(b),
{
    reveal(can_be_held);
    let order = choose|order: Seq<Seq<u8>>| is_history(order) && #[trigger] order.to_set() == a;
    lemma_arrivals_upto(a, b, b_waiting, order, order.len() as int);
    assert(order.take(order.len() as int) =~= order);
}

proof fn lemma_arrivals_upto(
    a: Set<Seq<u8>>,
    b: Set<Seq<u8>>,
    b_waiting: Set<Seq<u8>>,
    order: Seq<Seq<u8>>,
    n: int,
)
    requires
        is_history(order),
        order.to_set() == a,
        a.subset_of(b.union(b_waiting)),
        uncut(b.union(b_waiting)),
        forall|w: Seq<u8>| #[trigger] b_waiting.contains(w) ==> !fits(b, w),
        0 <= n <= order.len(),
    ensures
        order.take(n).to_set().subset_of(b),
    decreases n,
{
    if n > 0 {
        lemma_arrivals_upto(a, b, b_waiting, order, n - 1);
        let before = order.take(n - 1).to_set();
        let u = order[n - 1];
        assert(fits(before, u));
        lemma_ready_monotone(before, b, u);
        assert(a.contains(u)) by {
            assert(order.contains(u));
        }
        lemma_fewer(b.insert(u), b.union(b_waiting));
        assert(b.contains(u));
        assert(order.take(n) =~= order.take(n - 1).push(u));
        lemma_push_to_set(order.take(n - 1), u);
    } else {
        assert(order.take(0).to_set() =~= Set::empty());
    }
}

/// No updates go together.
pub proof fn lemma_none_go_together()
    ensures
        go_together(Set::empty()),
{
    reveal(are_edits);
    lemma_empty_can_be_held();
    assert(are_edits(Set::empty()));
}

/// An update adds at most what it carries, and nothing to a document that has it.
pub proof fn lemma_added_bytes(updates: Set<Seq<u8>>, update: Seq<u8>)
    ensures
        added_bytes(updates, update) <= carried_bytes(update),
        block_ids(update).subset_of(held_ids(updates)) ==> added_bytes(updates, update) == 0,
{
    lemma_scan_shape(update);
    if let Some(scan) = scan_of(update) {
        let held = held_ids(updates);
        lemma_new_bytes(held, scan.blocks);
        if block_ids(update).subset_of(held) {
            assert forall|i: int| 0 <= i < scan.blocks.len() implies is_held(
                held,
                #[trigger] scan.blocks[i],
            ) by {
                let b = scan.blocks[i];
                let id = (b.client as u64, (b.clock + b.len - 1) as u32);
                assert(all_of(scan.blocks).contains(i) && carries(b, id));
                assert(block_ids(update).contains(id));
            }
        }
    }
}

/// Nothing is added by an update that is held.
pub proof fn lemma_held_adds_nothing(updates: Set<Seq<u8>>, update: Seq<u8>)
    requires
        updates.contains(update),
    ensures
        added_bytes(updates, update) == 0,
{
    assert forall|id: BlockId| block_ids(update).contains(id) implies held_ids(updates).contains(
        id,
    ) by {
        assert(updates.contains(update));
    }
    lemma_added_bytes(updates, update);
}

/// Some updates divide no character exactly if no block or deletion of one of them has
/// an end, a neighbour or a start of a character where a block of another, or of the
/// same, has the second half of a character.
pub proof fn law_when_a_character_is_divided(updates: Set<Seq<u8>>)
    requires
        forall|u: Seq<u8>| #[trigger] updates.contains(u) ==> is_sound(u),
    ensures
        uncut(updates) <==> forall|u: Seq<u8>, v: Seq<u8>, k: u64|
            updates.contains(u) && updates.contains(v) ==> !(#[trigger] divides_at(u, k)
                && #[trigger] has_half_at(v, k)),
{
    assert forall|u: Seq<u8>, k: u64| updates.contains(u) implies (divides_at(u, k) <==> cuts_of(
        u,
    ).contains(k)) && (has_half_at(u, k) <==> halves_in(u).contains(k)) by {
        law_sound_update_is_fair(u, 0, k);
        let scan = scan_of(u)->0;
        assert(scan.cuts.to_set().contains(k) <==> scan.cuts.contains(k));
        assert(scan.halves.to_set().contains(k) <==> scan.halves.contains(k));
    }
    if uncut(updates) {
        assert forall|u: Seq<u8>, v: Seq<u8>, k: u64|
            updates.contains(u) && updates.contains(v) implies !(#[trigger] divides_at(u, k)
            && #[trigger] has_half_at(v, k)) by {
            if divides_at(u, k) && has_half_at(v, k) {
                assert(all_cuts(updates).contains(k));
                assert(all_halves(updates).contains(k));
            }
        }
    }
    if forall|u: Seq<u8>, v: Seq<u8>, k: u64|
        updates.contains(u) && updates.contains(v) ==> !(#[trigger] divides_at(u, k)
            && #[trigger] has_half_at(v, k)) {
        assert forall|k: u64| !(all_cuts(updates).contains(k) && all_halves(updates).contains(
            k,
        )) by {
            if all_cuts(updates).contains(k) && all_halves(updates).contains(k) {
                let u = choose|u: Seq<u8>| #[trigger]
                    updates.contains(u) && cuts_of(u).contains(k);
                let v = choose|v: Seq<u8>| #[trigger]
                    updates.contains(v) && halves_in(v).contains(k);
                assert(divides_at(u, k) && has_half_at(v, k));
            }
        }
    }
}

/// Whether a block or a deletion of an update has an end, a neighbour or a start of a
/// character at `k`.
pub open spec fn divides_at(update: Seq<u8>, k: u64) -> bool {
    scan_of(update) matches Some(scan) && (blocks_cut(scan.blocks, scan.payloads, k) || spans_cut(
        scan.spans,
        k,
    ))
}

/// Whether a block of an update has the second half of a character at `k`.
pub open spec fn has_half_at(update: Seq<u8>, k: u64) -> bool {
    scan_of(update) matches Some(scan) && blocks_halve(scan.blocks, scan.payloads, k)
}

} // verus!

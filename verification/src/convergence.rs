//! What the engines of several peers have in common.
//!
//! Where a law speaks of the text, it leaves out updates that do not go together:
//! two peers that happen to share a client id can make different content under
//! one id, and programs other than this one can put things other than characters
//! into a document. And where texts are merged, they must be short enough for the
//! length of the result to be counted in 32 bits.
use vstd::prelude::*;
use crate::crdt::{
    changed_to, consistent, edited, gathered, none_taken, received, seeded, takes, EngineView,
};
use crate::history::{
    added_bytes, all_cuts, all_halves, block_ids, can_be_held, carried_bytes, cuts_of, fits,
    go_together, halves_in, held_ids, is_update, lemma_added_bytes, lemma_can_be_held_insert,
    lemma_empty_can_be_held, lemma_fewer, lemma_held_facts, lemma_held_ids_insert,
    lemma_marks_insert, lemma_none_go_together, lemma_ready_monotone,
    lemma_same_arrivals_same_updates, lemma_union_can_be_held, uncut,
};
use crate::ready::{has_what_it_needs, BlockId};
use crate::replica::{counts, decodes, equivalent, fills_gap, goes_with, merged_text, DocState};
use crate::text::byte_len;
use crate::update::{is_sound, scan_of};

verus! {

/// Whether `base` stands for what two sets of updates have in common: it makes no
/// difference to a document which of the three it holds, and they go together.
pub open spec fn have_in_common(
    base: Set<Seq<u8>>,
    a: Set<Seq<u8>>,
    b: Set<Seq<u8>>,
) -> bool {
    &&& can_be_held(base)
    &&& equivalent(a, base)
    &&& equivalent(b, base)
    &&& uncut(a.union(b).union(base))
    &&& go_together(a.union(b).union(base))
}

/// Whether two peers are in sync: each has all that the other has.
pub open spec fn synced(a: Set<Seq<u8>>, b: Set<Seq<u8>>) -> bool {
    exists|base: Set<Seq<u8>>| #[trigger] have_in_common(base, a, b)
}

/// The units of two sets of updates.
proof fn lemma_held_ids_union(a: Set<Seq<u8>>, b: Set<Seq<u8>>)
    ensures
        held_ids(a.union(b)) == held_ids(a).union(held_ids(b)),
{
    lemma_fewer(a, a.union(b));
    lemma_fewer(b, a.union(b));
    assert forall|id: BlockId| held_ids(a.union(b)).contains(id) implies held_ids(a).union(
        held_ids(b),
    ).contains(id) by {
        let u = choose|u: Seq<u8>| #[trigger] a.union(b).contains(u) && block_ids(u).contains(id);
        assert(a.contains(u) || b.contains(u));
    }
    assert(held_ids(a.union(b)) =~= held_ids(a).union(held_ids(b)));
}

/// An update that can be taken is taken at once by an engine for which none waits.
pub proof fn law_fitting_update_is_taken(before: EngineView, data: Seq<u8>, after: EngineView)
    requires
        before.waiting == Set::<Seq<u8>>::empty(),
        takes(before.state, data),
        gathered(before, data, after),
    ensures
        received(before.state, data, after.state),
        after.waiting == Set::<Seq<u8>>::empty(),
        after.known == after.state.text,
{
    let all = before.state.updates.insert(data);
    assert(before.state.updates.union(before.waiting).insert(data) =~= all);
    assert(after.waiting =~= Set::empty());
    assert(after.state.updates.union(after.waiting) =~= after.state.updates);
}

/// Whether the length of the text can be counted with each of the updates
/// `arrived`.
pub open spec fn all_have_space(state: DocState, arrived: Seq<Seq<u8>>) -> bool {
    forall|i: int|
        0 <= i < arrived.len() ==> state.has_space(
            added_bytes(state.updates, #[trigger] arrived[i]),
        )
}

/// What waits does not fit, where there is space for it.
proof fn lemma_none_fits(view: EngineView, arrived: Seq<Seq<u8>>)
    requires
        none_taken(view.waiting, view.state),
        view.waiting.subset_of(arrived.to_set()),
        all_have_space(view.state, arrived),
    ensures
        forall|w: Seq<u8>| #[trigger]
            view.waiting.contains(w) ==> !fits(view.state.updates, w),
{
    assert forall|w: Seq<u8>| #[trigger] view.waiting.contains(w) implies !fits(
        view.state.updates,
        w,
    ) by {
        assert(arrived.to_set().contains(w));
        let i = choose|i: int| 0 <= i < arrived.len() && arrived[i] == w;
        assert(view.state.has_space(added_bytes(view.state.updates, arrived[i])));
    }
}

/// Peers that hold the same updates have the same text, whatever the order in
/// which the updates came.
pub proof fn law_same_updates_same_text(a: DocState, b: DocState)
    requires
        consistent(a),
        consistent(b),
        a.updates == b.updates,
        go_together(a.updates),
    ensures
        a.text == b.text,
{
}

/// Whether `views` are those of an engine that starts with an empty text and is
/// given the updates `arrived`, one after the other.
pub open spec fn receives(views: Seq<EngineView>, arrived: Seq<Seq<u8>>) -> bool {
    &&& views.len() == arrived.len() + 1
    &&& views[0] == EngineView::fresh()
    &&& forall|i: int|
        0 <= i < arrived.len() ==> gathered(#[trigger] views[i], arrived[i], views[i + 1])
}

/// What arrived is in the document or waits.
proof fn lemma_receives(views: Seq<EngineView>, arrived: Seq<Seq<u8>>, n: int)
    requires
        receives(views, arrived),
        0 <= n <= arrived.len(),
    ensures
        views[n].state.updates.union(views[n].waiting) == arrived.take(n).to_set(),
        none_taken(views[n].waiting, views[n].state),
        views[n].waiting.subset_of(arrived.take(n).to_set()),
        can_be_held(views[n].state.updates),
        n > 0 ==> consistent(views[n].state),
        views[n].mirrors(),
    decreases n,
{
    let view = views[n];
    let set = arrived.take(n).to_set();
    if n > 0 {
        lemma_receives(views, arrived, n - 1);
        assert(gathered(views[n - 1], arrived[n - 1], views[n - 1 + 1]));
        let front = arrived.take(n - 1);
        let more = arrived.take(n);
        assert(more =~= front.push(arrived[n - 1]));
        assert forall|x: Seq<u8>| set.contains(x) <==> front.to_set().insert(
            arrived[n - 1],
        ).contains(x) by {
            if front.contains(x) {
                let k = choose|k: int| 0 <= k < front.len() && front[k] == x;
                assert(more[k] == x);
            }
            assert(more[n - 1] == arrived[n - 1]);
            if more.contains(x) {
                let k = choose|k: int| 0 <= k < more.len() && more[k] == x;
                if k < n - 1 {
                    assert(front[k] == x);
                }
            }
        }
        assert(view.state.updates.union(view.waiting) =~= set);
    } else {
        lemma_empty_can_be_held();
        assert(view.state.updates.union(view.waiting) =~= set);
    }
}

/// Once all is there that some updates build on, they are all in the document,
/// whatever the order in which they came and how often; none waits, and the text
/// is the one that belongs to them.
pub proof fn law_arrived_updates_are_taken(views: Seq<EngineView>, arrived: Seq<Seq<u8>>)
    requires
        receives(views, arrived),
        can_be_held(arrived.to_set()),
        all_have_space(views.last().state, arrived),
    ensures
        views.last().state.updates == arrived.to_set(),
        views.last().waiting == Set::<Seq<u8>>::empty(),
        arrived.len() > 0 && go_together(arrived.to_set()) ==> views.last().known == merged_text(
            arrived.to_set(),
        ),
{
    let n = arrived.len() as int;
    lemma_receives(views, arrived, n);
    assert(arrived.take(n) =~= arrived);
    let all = arrived.to_set();
    let view = views[n];
    lemma_held_facts(all);
    lemma_held_facts(view.state.updates);
    lemma_none_fits(view, arrived);
    lemma_same_arrivals_same_updates(all, view.state.updates, view.waiting);
    assert forall|x: Seq<u8>| view.state.updates.contains(x) implies all.contains(x) by {
        assert(view.state.updates.union(view.waiting).contains(x));
    }
    assert(view.state.updates =~= all);
    assert forall|x: Seq<u8>| !view.waiting.contains(x) by {
        if view.waiting.contains(x) {
            assert(view.state.updates.union(view.waiting).contains(x));
            assert(view.state.updates.contains(x));
        }
    }
    assert(view.waiting =~= Set::empty());
}

/// It does not matter in which order updates come, nor how often: two engines
/// that were given the same ones hold the same ones, and have the same text. An
/// update that would divide a character is left out, as it depends on the order
/// whether that one or the character is taken.
pub proof fn law_order_of_arrival_does_not_matter(
    views1: Seq<EngineView>,
    arrived1: Seq<Seq<u8>>,
    views2: Seq<EngineView>,
    arrived2: Seq<Seq<u8>>,
)
    requires
        receives(views1, arrived1),
        receives(views2, arrived2),
        arrived1.to_set() == arrived2.to_set(),
        uncut(arrived1.to_set()),
        all_have_space(views1.last().state, arrived1),
        all_have_space(views2.last().state, arrived2),
    ensures
        views1.last().state.updates == views2.last().state.updates,
        views1.last().waiting == views2.last().waiting,
        go_together(views1.last().state.updates) ==> views1.last().known == views2.last().known,
{
    let n1 = arrived1.len() as int;
    let n2 = arrived2.len() as int;
    lemma_receives(views1, arrived1, n1);
    lemma_receives(views2, arrived2, n2);
    assert(arrived1.take(n1) =~= arrived1);
    assert(arrived2.take(n2) =~= arrived2);
    let a = views1[n1];
    let b = views2[n2];
    let all = arrived1.to_set();
    lemma_none_fits(a, arrived1);
    lemma_none_fits(b, arrived2);
    assert forall|x: Seq<u8>| a.state.updates.contains(x) implies all.contains(x) by {
        assert(a.state.updates.union(a.waiting).contains(x));
    }
    assert forall|x: Seq<u8>| b.state.updates.contains(x) implies all.contains(x) by {
        assert(b.state.updates.union(b.waiting).contains(x));
    }
    lemma_same_arrivals_same_updates(a.state.updates, b.state.updates, b.waiting);
    lemma_same_arrivals_same_updates(b.state.updates, a.state.updates, a.waiting);
    assert(a.state.updates =~= b.state.updates);
    lemma_held_facts(a.state.updates);
    assert forall|x: Seq<u8>| a.waiting.contains(x) <==> b.waiting.contains(x) by {
        if a.waiting.contains(x) {
            assert(a.state.updates.union(a.waiting).contains(x));
            assert(b.state.updates.union(b.waiting).contains(x));
        }
        if b.waiting.contains(x) {
            assert(b.state.updates.union(b.waiting).contains(x));
            assert(a.state.updates.union(a.waiting).contains(x));
        }
    }
    assert(a.waiting =~= b.waiting);
    if n1 == 0 {
        assert(all =~= Set::empty());
        if n2 > 0 {
            assert(arrived2.to_set().contains(arrived2[0]));
        }
    }
    if n2 == 0 && n1 > 0 {
        assert(arrived1.to_set().contains(arrived1[0]));
    }
}

/// An update that comes once more changes nothing, whether it is in the document
/// or waits.
pub proof fn law_repeated_update_changes_nothing(
    views: Seq<EngineView>,
    arrived: Seq<Seq<u8>>,
    again: Seq<u8>,
    after: EngineView,
)
    requires
        receives(views, arrived),
        arrived.contains(again),
        gathered(views.last(), again, after),
    ensures
        after == views.last(),
{
    let n = arrived.len() as int;
    lemma_receives(views, arrived, n);
    assert(arrived.take(n) =~= arrived);
    assert(arrived.to_set().contains(again));
    assert(after =~= views.last());
}

/// An update that is in the document already, or waits, changes nothing if every
/// update that could be taken has been; so it is after every update of a peer.
pub proof fn law_known_update_changes_nothing(
    before: EngineView,
    again: Seq<u8>,
    after: EngineView,
)
    requires
        before.mirrors(),
        none_taken(before.waiting, before.state),
        before.state.updates.union(before.waiting).contains(again),
        gathered(before, again, after),
    ensures
        after == before,
{
    assert(after =~= before);
}

/// The reply to a state vector brings its sender all that the replying peer has:
/// the sender can take it, and is then in the state of a peer that holds what the
/// two held.
pub proof fn law_reply_brings_peer_up_to_date(
    replier: DocState,
    asker: EngineView,
    diff: Seq<u8>,
    after: EngineView,
)
    requires
        consistent(replier),
        consistent(asker.state),
        asker.waiting == Set::<Seq<u8>>::empty(),
        fills_gap(diff, asker.state.clocks, replier.updates),
        asker.state.has_space(byte_len(replier.text)),
        gathered(asker, diff, after),
        uncut(asker.state.updates.union(replier.updates)),
        go_together(asker.state.updates.union(replier.updates)),
    ensures
        is_update(diff),
        received(asker.state, diff, after.state),
        after.waiting == Set::<Seq<u8>>::empty(),
        after.known == merged_text(asker.state.updates.union(replier.updates)),
        synced(after.state.updates, asker.state.updates.union(replier.updates)),
{
    let peer = asker.state.updates;
    let both = peer.union(replier.updates);
    lemma_diff(peer, asker.state.clocks, replier.updates, diff);
    lemma_fewer(replier.updates, both);
    lemma_added_bytes(peer, diff);
    law_fitting_update_is_taken(asker, diff, after);
    let none = Set::<Seq<u8>>::empty();
    assert(peer.insert(diff).union(none) =~= peer.insert(diff));
    assert(both.union(none) =~= both);
    assert(peer.insert(diff).union(both).union(none) =~= both.insert(diff));
    assert(merged_text(peer.insert(diff).union(none)) == merged_text(both.union(none)));
    lemma_fewer(peer.insert(diff), both.insert(diff));
    assert(peer.insert(diff).union(both).union(both) =~= both.insert(diff));
    assert(equivalent(both, both));
    assert(have_in_common(both, peer.insert(diff), both));
}

/// What holds of a reply to the state vector of a peer.
proof fn lemma_diff(
    peer: Set<Seq<u8>>,
    clocks: Map<u64, u32>,
    known: Set<Seq<u8>>,
    diff: Seq<u8>,
)
    requires
        can_be_held(peer),
        can_be_held(known),
        counts(clocks, held_ids(peer)),
        fills_gap(diff, clocks, known),
        uncut(peer.union(known)),
        go_together(peer.union(known)),
    ensures
        fits(peer, diff),
        can_be_held(peer.union(known)),
        can_be_held(peer.insert(diff)),
        uncut(peer.union(known).insert(diff)),
        go_together(peer.union(known).insert(diff)),
        equivalent(peer.insert(diff), peer.union(known)),
        cuts_of(diff).subset_of(all_cuts(peer.union(known))),
        halves_in(diff).subset_of(all_halves(peer.union(known))),
        goes_with(diff, peer.union(known)),
        carried_bytes(diff) <= byte_len(merged_text(known)),
{
    let both = peer.union(known);
    assert(equivalent(peer.insert(diff), both));
    lemma_union_can_be_held(peer, known);
    lemma_fewer(known, both);
    lemma_marks_insert(both, diff);
    assert(uncut(both.insert(diff)));
    lemma_fewer(peer.insert(diff), both.insert(diff));
    lemma_can_be_held_insert(peer, diff);
    let none = Set::<Seq<u8>>::empty();
    assert(both.union(none) =~= both);
    assert(go_together(both.union(none)));
    assert(go_together(both.union(none).insert(diff)));
}

/// A peer that joins with an empty document gets the text of the peer that
/// replies to it, and is in sync with it.
pub proof fn law_joining_peer_gets_the_text(
    sharer: DocState,
    diff: Seq<u8>,
    after: EngineView,
)
    requires
        consistent(sharer),
        go_together(sharer.updates),
        fills_gap(diff, EngineView::fresh().state.clocks, sharer.updates),
        gathered(EngineView::fresh(), diff, after),
    ensures
        after.known == sharer.text,
        after.state.text == sharer.text,
        after.waiting == Set::<Seq<u8>>::empty(),
        synced(sharer.updates, after.state.updates),
{
    let joiner = EngineView::fresh();
    lemma_empty_can_be_held();
    lemma_held_facts(sharer.updates);
    let both = joiner.state.updates.union(sharer.updates);
    assert(both =~= sharer.updates);
    assert(joiner.state.updates.insert(diff) =~= Set::empty().insert(diff));
    lemma_diff(joiner.state.updates, joiner.state.clocks, sharer.updates, diff);
    lemma_added_bytes(joiner.state.updates, diff);
    law_fitting_update_is_taken(joiner, diff, after);
    let one = joiner.state.updates.insert(diff);
    let none = Set::<Seq<u8>>::empty();
    assert(one.union(none) =~= one);
    assert(both.union(none) =~= both);
    assert(one.union(both).union(none) =~= both.insert(diff));
    assert(merged_text(one.union(none)) == merged_text(both.union(none)));
    lemma_fewer(one, both.insert(diff));
    assert(both.union(one).union(both) =~= both.insert(diff));
    assert(equivalent(both, both));
    assert(have_in_common(both, sharer.updates, after.state.updates));
}

/// Two peers that reply to each other's state vectors have the same text
/// afterwards, whatever each had missed, and are in sync.
pub proof fn law_two_way_sync_converges(
    a: EngineView,
    b: EngineView,
    to_a: Seq<u8>,
    to_b: Seq<u8>,
    a_after: EngineView,
    b_after: EngineView,
)
    requires
        consistent(a.state),
        consistent(b.state),
        a.waiting == Set::<Seq<u8>>::empty(),
        b.waiting == Set::<Seq<u8>>::empty(),
        fills_gap(to_a, a.state.clocks, b.state.updates),
        fills_gap(to_b, b.state.clocks, a.state.updates),
        a.state.has_space(byte_len(b.state.text)),
        gathered(a, to_a, a_after),
        gathered(b, to_b, b_after),
        uncut(a.state.updates.union(b.state.updates)),
        go_together(a.state.updates.union(b.state.updates)),
    ensures
        a_after.known == b_after.known,
        a_after.waiting == Set::<Seq<u8>>::empty(),
        b_after.waiting == Set::<Seq<u8>>::empty(),
        synced(a_after.state.updates, b_after.state.updates),
{
    let both = a.state.updates.union(b.state.updates);
    assert(b.state.updates.union(a.state.updates) =~= both);
    lemma_fewer(a.state.updates, both);
    lemma_fewer(b.state.updates, both);
    law_reply_brings_peer_up_to_date(b.state, a, to_a, a_after);
    law_reply_brings_peer_up_to_date(a.state, b, to_b, b_after);
    lemma_diff(a.state.updates, a.state.clocks, b.state.updates, to_a);
    lemma_diff(b.state.updates, b.state.clocks, a.state.updates, to_b);
    let one = Set::<Seq<u8>>::empty().insert(to_a);
    assert(both.union(one) =~= both.insert(to_a));
    assert(go_together(both.union(one)));
    assert(go_together(both.union(one).insert(to_b)));
    let all = both.insert(to_a).insert(to_b);
    lemma_marks_insert(both, to_a);
    lemma_marks_insert(both.insert(to_a), to_b);
    assert(uncut(all));
    assert(a_after.state.updates.union(b_after.state.updates).union(both) =~= all);
    assert(have_in_common(both, a_after.state.updates, b_after.state.updates));
}

/// Sets of updates that make no difference make none after the same updates.
proof fn lemma_equivalent_after(a: Set<Seq<u8>>, b: Set<Seq<u8>>, next: Set<Seq<u8>>)
    requires
        equivalent(a, b),
    ensures
        equivalent(a.union(next), b.union(next)),
{
    lemma_held_ids_union(a, next);
    lemma_held_ids_union(b, next);
    assert forall|more: Set<Seq<u8>>|
        can_be_held(a.union(next).union(more)) && can_be_held(b.union(next).union(more))
            && go_together(a.union(next).union(b.union(next)).union(more)) implies #[trigger] merged_text(
        a.union(next).union(more),
    ) == #[trigger] merged_text(b.union(next).union(more)) by {
        let later = next.union(more);
        assert(a.union(next).union(more) =~= a.union(later));
        assert(b.union(next).union(more) =~= b.union(later));
        assert(a.union(b).union(later) =~= a.union(next).union(b.union(next)).union(more));
        assert(merged_text(a.union(later)) == merged_text(b.union(later)));
    }
}

/// Peers that are in sync stay so after the same updates, and have the same
/// text.
proof fn lemma_synced_after(
    base: Set<Seq<u8>>,
    a: Set<Seq<u8>>,
    b: Set<Seq<u8>>,
    next: Set<Seq<u8>>,
)
    requires
        have_in_common(base, a, b),
        can_be_held(a.union(next)),
        can_be_held(b.union(next)),
        can_be_held(base.union(next)),
        uncut(a.union(b).union(base).union(next)),
        go_together(a.union(b).union(base).union(next)),
    ensures
        go_together(a.union(next)),
        go_together(b.union(next)),
        merged_text(a.union(next)) == merged_text(b.union(next)),
        synced(a.union(next), b.union(next)),
{
    let all = a.union(b).union(base).union(next);
    lemma_fewer(a.union(next), all);
    lemma_fewer(b.union(next), all);
    lemma_fewer(a.union(base).union(next), all);
    lemma_fewer(b.union(base).union(next), all);
    assert(merged_text(a.union(next)) == merged_text(base.union(next)));
    assert(merged_text(b.union(next)) == merged_text(base.union(next)));
    lemma_equivalent_after(a, base, next);
    lemma_equivalent_after(b, base, next);
    assert(a.union(next).union(b.union(next)).union(base.union(next)) =~= all);
    assert(have_in_common(base.union(next), a.union(next), b.union(next)));
}

/// An edit that was made on `a` fits where `b` and what the two have in common
/// are held.
proof fn lemma_edit_fits(
    base: Set<Seq<u8>>,
    a: DocState,
    b: Set<Seq<u8>>,
    update: Seq<u8>,
    a_after: DocState,
)
    requires
        have_in_common(base, a.updates, b),
        can_be_held(b),
        consistent(a),
        edited(a, update, a_after),
    ensures
        fits(b, update),
        fits(base, update),
        fits(b.union(base), update),
        can_be_held(b.union(base)),
        uncut(a.updates.union(b).union(base).insert(update)),
        go_together(a.updates.union(b).union(base).insert(update)),
        block_ids(update).disjoint(held_ids(b.union(base))),
        held_ids(b.union(base)) == held_ids(a.updates),
{
    let all = a.updates.union(b).union(base);
    let others = b.union(base);
    assert(a.updates.union(others) =~= all);
    lemma_held_ids_union(b, base);
    assert(held_ids(others) =~= held_ids(a.updates));
    lemma_fewer(others, all);
    lemma_union_can_be_held(b, base);
    assert(go_together(a.updates.union(others)));
    assert(uncut(all.insert(update)) && go_together(all.insert(update)));
    lemma_fewer(b.insert(update), all.insert(update));
    lemma_fewer(base.insert(update), all.insert(update));
    lemma_fewer(others.insert(update), all.insert(update));
}

/// Peers that are in sync have the same text, of characters only.
proof fn lemma_same_text(a: DocState, b: DocState)
    requires
        consistent(a),
        consistent(b),
        synced(a.updates, b.updates),
    ensures
        a.text == b.text,
        a.plain(),
        b.plain(),
{
    let base = choose|base: Set<Seq<u8>>| #[trigger] have_in_common(base, a.updates, b.updates);
    let none = Set::<Seq<u8>>::empty();
    let all = a.updates.union(b.updates).union(base);
    lemma_fewer(a.updates, all);
    lemma_fewer(b.updates, all);
    assert(a.updates.union(none) =~= a.updates);
    assert(b.updates.union(none) =~= b.updates);
    assert(base.union(none) =~= base);
    lemma_fewer(a.updates.union(base).union(none), all);
    lemma_fewer(b.updates.union(base).union(none), all);
    assert(merged_text(a.updates.union(none)) == merged_text(base.union(none)));
    assert(merged_text(b.updates.union(none)) == merged_text(base.union(none)));
}

/// An edit of one of two peers in sync gives the other one the same text, and
/// they are in sync again.
pub proof fn law_edit_reaches_peer(
    a: DocState,
    b: EngineView,
    update: Seq<u8>,
    a_after: DocState,
    b_after: EngineView,
)
    requires
        consistent(a),
        consistent(b.state),
        b.waiting == Set::<Seq<u8>>::empty(),
        synced(a.updates, b.state.updates),
        edited(a, update, a_after),
        gathered(b, update, b_after),
    ensures
        b_after.known == a_after.text,
        b_after.state.text == a_after.text,
        b_after.waiting == Set::<Seq<u8>>::empty(),
        synced(a_after.updates, b_after.state.updates),
{
    let base = choose|base: Set<Seq<u8>>| #[trigger]
        have_in_common(base, a.updates, b.state.updates);
    lemma_edit_fits(base, a, b.state.updates, update, a_after);
    lemma_same_text(a, b.state);
    lemma_added_bytes(b.state.updates, update);
    law_fitting_update_is_taken(b, update, b_after);
    let one = Set::<Seq<u8>>::empty().insert(update);
    assert(a_after.updates =~= a.updates.union(one));
    assert(b_after.state.updates =~= b.state.updates.union(one));
    assert(base.insert(update) =~= base.union(one));
    lemma_can_be_held_insert(base, update);
    let all = a.updates.union(b.state.updates).union(base);
    assert(all.insert(update) =~= all.union(one));
    lemma_synced_after(base, a.updates, b.state.updates, one);
}

/// The edits that are made to a document go together with what it holds.
pub proof fn law_own_edits_go_together(before: DocState, update: Seq<u8>, after: DocState)
    requires
        consistent(before),
        go_together(before.updates),
        edited(before, update, after),
    ensures
        go_together(after.updates),
{
    let none = Set::<Seq<u8>>::empty();
    lemma_empty_can_be_held();
    lemma_held_facts(before.updates);
    assert(before.updates.union(none) =~= before.updates);
    assert(go_together(before.updates.union(none)));
}

/// Being in sync goes both ways.
pub proof fn law_sync_is_mutual(a: Set<Seq<u8>>, b: Set<Seq<u8>>)
    requires
        synced(a, b),
    ensures
        synced(b, a),
{
    let base = choose|base: Set<Seq<u8>>| #[trigger] have_in_common(base, a, b);
    assert(b.union(a).union(base) =~= a.union(b).union(base));
    assert(have_in_common(base, b, a));
}

/// Two peers in sync that edit at the same time and then receive each other's
/// update have the same text, and are in sync again. The peers must have
/// different client ids: the two updates have no unit in common.
pub proof fn law_concurrent_edits_converge(
    a: EngineView,
    b: EngineView,
    a_update: Seq<u8>,
    b_update: Seq<u8>,
    a_edited: EngineView,
    b_edited: EngineView,
    a_after: EngineView,
    b_after: EngineView,
)
    requires
        consistent(a.state),
        consistent(b.state),
        a_edited.waiting == Set::<Seq<u8>>::empty(),
        b_edited.waiting == Set::<Seq<u8>>::empty(),
        synced(a.state.updates, b.state.updates),
        edited(a.state, a_update, a_edited.state),
        edited(b.state, b_update, b_edited.state),
        block_ids(a_update).disjoint(block_ids(b_update)),
        byte_len(a_edited.state.text) + byte_len(b_edited.state.text) <= u32::MAX,
        gathered(a_edited, b_update, a_after),
        gathered(b_edited, a_update, b_after),
    ensures
        a_after.known == b_after.known,
        a_after.state.text == b_after.state.text,
        a_after.waiting == Set::<Seq<u8>>::empty(),
        b_after.waiting == Set::<Seq<u8>>::empty(),
        synced(a_after.state.updates, b_after.state.updates),
{
    let x = a.state.updates;
    let y = b.state.updates;
    let base = choose|base: Set<Seq<u8>>| #[trigger] have_in_common(base, x, y);
    lemma_edit_fits(base, a.state, y, a_update, a_edited.state);
    assert(y.union(x).union(base) =~= x.union(y).union(base));
    assert(have_in_common(base, y, x));
    lemma_edit_fits(base, b.state, x, b_update, b_edited.state);
    let all = x.union(y).union(base);
    let others = x.union(base).insert(a_update);
    // The edit of `b` goes with all that the edit of `a` was added to.
    lemma_ready_monotone(x, x.union(base), a_update);
    lemma_fewer(others, all.insert(a_update));
    lemma_can_be_held_insert(x.union(base), a_update);
    lemma_held_ids_insert(x.union(base), a_update);
    assert(y.union(others) =~= all.insert(a_update));
    assert(go_together(y.union(others)));
    let wide = all.insert(a_update).insert(b_update);
    assert(uncut(wide) && go_together(wide));
    lemma_ready_monotone(x, x.insert(a_update), b_update);
    lemma_ready_monotone(y, y.insert(b_update), a_update);
    lemma_fewer(x.insert(a_update).insert(b_update), wide);
    lemma_fewer(y.insert(b_update).insert(a_update), wide);
    lemma_fewer(a_edited.state.updates, wide);
    lemma_fewer(b_edited.state.updates, wide);
    lemma_added_bytes(a_edited.state.updates, b_update);
    lemma_added_bytes(b_edited.state.updates, a_update);
    law_fitting_update_is_taken(a_edited, b_update, a_after);
    law_fitting_update_is_taken(b_edited, a_update, b_after);
    let two = Set::<Seq<u8>>::empty().insert(a_update).insert(b_update);
    assert(a_after.state.updates =~= x.union(two));
    assert(b_after.state.updates =~= y.union(two));
    assert(all.union(two) =~= wide);
    lemma_ready_monotone(base, base.insert(a_update), b_update);
    lemma_can_be_held_insert(base, a_update);
    lemma_fewer(base.insert(a_update).insert(b_update), wide);
    lemma_can_be_held_insert(base.insert(a_update), b_update);
    assert(base.insert(a_update).insert(b_update) =~= base.union(two));
    lemma_synced_after(base, x, y, two);
}

/// Whether `views` are those of an engine from its start on: it may be seeded
/// while its text is empty, its text may be changed by edits, and it may be given
/// updates of peers.
pub open spec fn is_life(views: Seq<EngineView>) -> bool {
    &&& views.len() > 0
    &&& views[0] == EngineView::fresh()
    &&& consistent(views[0].state)
    &&& forall|i: int| 0 <= i < views.len() - 1 ==> follows(#[trigger] views[i], views[i + 1])
}

/// Whether one of the things that happen to an engine leads from `before` to
/// `after`.
pub open spec fn follows(before: EngineView, after: EngineView) -> bool {
    ||| exists|content: Seq<char>| #[trigger]
        seeded(before, content, after) && before.state.text.len() == 0
    ||| exists|content: Seq<char>, update: Option<Seq<u8>>| #[trigger]
        changed_to(before, content, update, after)
    ||| exists|data: Seq<u8>| #[trigger] gathered(before, data, after)
}

/// At every moment the snapshot is the shared text.
pub proof fn law_snapshot_mirrors_the_text(views: Seq<EngineView>, i: int)
    requires
        is_life(views),
        0 <= i < views.len(),
    ensures
        views[i].mirrors(),
        consistent(views[i].state),
    decreases i,
{
    if i > 0 {
        law_snapshot_mirrors_the_text(views, i - 1);
        let before = views[i - 1];
        let after = views[i];
        assert(follows(before, views[i - 1 + 1]));
        if exists|content: Seq<char>| #[trigger]
            seeded(before, content, after) && before.state.text.len() == 0 {
            let content = choose|content: Seq<char>| #[trigger]
                seeded(before, content, after) && before.state.text.len() == 0;
            assert(content + before.state.text =~= content);
        } else if exists|content: Seq<char>, update: Option<Seq<u8>>| #[trigger]
            changed_to(before, content, update, after) {
            let (content, update) = choose|content: Seq<char>, update: Option<Seq<u8>>| #[trigger]
                changed_to(before, content, update, after);
            let n = before.known.len() as int;
            assert(content + before.state.text.skip(n) =~= content);
        }
    }
}

/// Whether `update` was made where the updates `earlier` had been made before: by
/// an edit in a document that held some of them, under ids that none of them has;
/// or as the reply of such a document to the state vector of another one.
pub open spec fn is_made(earlier: Set<Seq<u8>>, update: Seq<u8>) -> bool {
    ||| exists|before: DocState, after: DocState| #[trigger]
        edited(before, update, after) && consistent(before) && before.updates.subset_of(earlier)
            && block_ids(update).disjoint(held_ids(earlier))
    ||| exists|replier: DocState, peer: Set<Seq<u8>>, clocks: Map<u64, u32>| #[trigger]
        is_reply_among(earlier, replier, peer, clocks) && fills_gap(
            update,
            clocks,
            replier.updates,
        )
}

/// Whether a document and a peer with the state vector `clocks` hold some of the
/// updates `earlier`.
pub open spec fn is_reply_among(
    earlier: Set<Seq<u8>>,
    replier: DocState,
    peer: Set<Seq<u8>>,
    clocks: Map<u64, u32>,
) -> bool {
    &&& consistent(replier)
    &&& replier.updates.subset_of(earlier)
    &&& can_be_held(peer)
    &&& peer.subset_of(earlier)
    &&& counts(clocks, held_ids(peer))
}

/// Whether `made` are the updates of a session of engines with different client
/// ids, in the order in which they were made.
pub open spec fn is_session(made: Seq<Seq<u8>>) -> bool {
    forall|k: int|
        0 <= k < made.len() ==> is_made(made.take(k).to_set(), #[trigger] made[k])
}

/// One more update was made.
proof fn lemma_made(earlier: Set<Seq<u8>>, update: Seq<u8>)
    requires
        can_be_held(earlier),
        go_together(earlier),
        is_made(earlier, update),
    ensures
        can_be_held(earlier.insert(update)),
        go_together(earlier.insert(update)),
{
    lemma_held_facts(earlier);
    if exists|before: DocState, after: DocState| #[trigger]
        edited(before, update, after) && consistent(before) && before.updates.subset_of(earlier)
            && block_ids(update).disjoint(held_ids(earlier)) {
        let (before, after) = choose|before: DocState, after: DocState| #[trigger]
            edited(before, update, after) && consistent(before) && before.updates.subset_of(
                earlier,
            ) && block_ids(update).disjoint(held_ids(earlier));
        assert(before.updates.union(earlier) =~= earlier);
        assert(go_together(before.updates.union(earlier)));
        lemma_ready_monotone(before.updates, earlier, update);
    } else {
        let (replier, peer, clocks) = choose|
            replier: DocState,
            peer: Set<Seq<u8>>,
            clocks: Map<u64, u32>,
        | #[trigger]
            is_reply_among(earlier, replier, peer, clocks) && fills_gap(
                update,
                clocks,
                replier.updates,
            );
        lemma_fewer(peer.union(replier.updates), earlier);
        lemma_diff(peer, clocks, replier.updates, update);
        assert(peer.union(replier.updates).union(earlier) =~= earlier);
        assert(go_together(peer.union(replier.updates).union(earlier)));
        lemma_ready_monotone(peer, earlier, update);
        lemma_marks_insert(earlier, update);
    }
    lemma_can_be_held_insert(earlier, update);
}

proof fn lemma_session(made: Seq<Seq<u8>>, n: int)
    requires
        is_session(made),
        0 <= n <= made.len(),
    ensures
        can_be_held(made.take(n).to_set()),
        go_together(made.take(n).to_set()),
    decreases n,
{
    if n > 0 {
        lemma_session(made, n - 1);
        lemma_made(made.take(n - 1).to_set(), made[n - 1]);
        lemma_take_one_more(made, n - 1);
    } else {
        lemma_empty_can_be_held();
        lemma_none_go_together();
        assert(made.take(0).to_set() =~= Set::empty());
    }
}

proof fn lemma_take_one_more(list: Seq<Seq<u8>>, n: int)
    requires
        0 <= n < list.len(),
    ensures
        list.take(n + 1).to_set() == list.take(n).to_set().insert(list[n]),
{
    let front = list.take(n);
    let more = list.take(n + 1);
    assert forall|x: Seq<u8>| more.to_set().contains(x) <==> front.to_set().insert(
        list[n],
    ).contains(x) by {
        if front.contains(x) {
            let k = choose|k: int| 0 <= k < front.len() && front[k] == x;
            assert(more[k] == x);
        }
        assert(more[n] == list[n]);
        if more.contains(x) {
            let k = choose|k: int| 0 <= k < more.len() && more[k] == x;
            if k < n {
                assert(front[k] == x);
            }
        }
    }
    assert(more.to_set() =~= front.to_set().insert(list[n]));
}

/// The updates that engines with different client ids make go together, divide no
/// character, and can all be held.
pub proof fn law_updates_of_a_session_go_together(made: Seq<Seq<u8>>)
    requires
        is_session(made),
    ensures
        can_be_held(made.to_set()),
        uncut(made.to_set()),
        go_together(made.to_set()),
{
    lemma_session(made, made.len() as int);
    assert(made.take(made.len() as int) =~= made);
    lemma_held_facts(made.to_set());
}

/// Whether no text that some of the updates make takes more than half of what can
/// be counted.
pub open spec fn texts_stay_small(updates: Set<Seq<u8>>) -> bool {
    forall|some: Set<Seq<u8>>|
        some.subset_of(updates) && can_be_held(some) ==> byte_len(#[trigger] merged_text(some))
            <= u32::MAX / 2
}

/// An update carries no more than some text of the session.
proof fn lemma_made_is_small(made: Seq<Seq<u8>>, k: int)
    requires
        is_session(made),
        0 <= k < made.len(),
        texts_stay_small(made.to_set()),
    ensures
        carried_bytes(made[k]) <= u32::MAX / 2,
{
    let earlier = made.take(k).to_set();
    let update = made[k];
    law_updates_of_a_session_go_together(made);
    lemma_session(made, k);
    lemma_take_one_more(made, k);
    let now = made.take(k + 1).to_set();
    assert forall|x: Seq<u8>| now.contains(x) implies made.to_set().contains(x) by {
        let front = made.take(k + 1);
        let i = choose|i: int| 0 <= i < front.len() && front[i] == x;
        assert(made[i] == x);
    }
    assert(is_made(earlier, update));
    if exists|before: DocState, after: DocState| #[trigger]
        edited(before, update, after) && consistent(before) && before.updates.subset_of(earlier)
            && block_ids(update).disjoint(held_ids(earlier)) {
        let (before, after) = choose|before: DocState, after: DocState| #[trigger]
            edited(before, update, after) && consistent(before) && before.updates.subset_of(
                earlier,
            ) && block_ids(update).disjoint(held_ids(earlier));
        lemma_fewer(after.updates, made.to_set());
        assert(after.text == merged_text(after.updates));
    } else {
        let (replier, peer, clocks) = choose|
            replier: DocState,
            peer: Set<Seq<u8>>,
            clocks: Map<u64, u32>,
        | #[trigger]
            is_reply_among(earlier, replier, peer, clocks) && fills_gap(
                update,
                clocks,
                replier.updates,
            );
        lemma_held_facts(earlier);
        lemma_fewer(peer.union(replier.updates), earlier);
        lemma_diff(peer, clocks, replier.updates, update);
    }
}

/// It does not matter in which order the updates of a session come, nor how often:
/// two engines that were given the same ones have the same text.
pub proof fn law_order_of_arrival_in_a_session(
    made: Seq<Seq<u8>>,
    views1: Seq<EngineView>,
    arrived1: Seq<Seq<u8>>,
    views2: Seq<EngineView>,
    arrived2: Seq<Seq<u8>>,
)
    requires
        is_session(made),
        texts_stay_small(made.to_set()),
        receives(views1, arrived1),
        receives(views2, arrived2),
        arrived1.to_set() == arrived2.to_set(),
        arrived1.to_set().subset_of(made.to_set()),
    ensures
        views1.last().known == views2.last().known,
        views1.last().state.updates == views2.last().state.updates,
        views1.last().waiting == views2.last().waiting,
{
    law_updates_of_a_session_go_together(made);
    lemma_fewer(arrived1.to_set(), made.to_set());
    lemma_session_has_space(made, views1, arrived1);
    lemma_session_has_space(made, views2, arrived2);
    law_order_of_arrival_does_not_matter(views1, arrived1, views2, arrived2);
    lemma_receives(views1, arrived1, arrived1.len() as int);
    assert(arrived1.take(arrived1.len() as int) =~= arrived1);
    let updates = views1.last().state.updates;
    assert forall|x: Seq<u8>| updates.contains(x) implies arrived1.to_set().contains(x) by {
        assert(updates.union(views1.last().waiting).contains(x));
    }
    lemma_fewer(updates, arrived1.to_set());
}

/// There is space for the updates of a session.
proof fn lemma_session_has_space(
    made: Seq<Seq<u8>>,
    views: Seq<EngineView>,
    arrived: Seq<Seq<u8>>,
)
    requires
        is_session(made),
        texts_stay_small(made.to_set()),
        receives(views, arrived),
        arrived.to_set().subset_of(made.to_set()),
    ensures
        all_have_space(views.last().state, arrived),
{
    let n = arrived.len() as int;
    let view = views[n];
    lemma_receives(views, arrived, n);
    assert(arrived.take(n) =~= arrived);
    law_updates_of_a_session_go_together(made);
    assert forall|x: Seq<u8>| view.state.updates.contains(x) implies made.to_set().contains(x) by {
        assert(view.state.updates.union(view.waiting).contains(x));
        assert(arrived.to_set().contains(x));
    }
    lemma_fewer(view.state.updates, made.to_set());
    assert(n > 0 ==> view.state.units <= u32::MAX / 2);
    assert forall|i: int| 0 <= i < arrived.len() implies view.state.has_space(
        added_bytes(view.state.updates, #[trigger] arrived[i]),
    ) by {
        assert(arrived.to_set().contains(arrived[i]));
        assert(made.to_set().contains(arrived[i]));
        let k = choose|k: int| 0 <= k < made.len() && made[k] == arrived[i];
        lemma_made_is_small(made, k);
        lemma_added_bytes(view.state.updates, arrived[i]);
    }
}

/// A peer that joins gets what the sharing peer shows as its current text,
/// whatever has happened to that peer before in a session of engines with
/// different client ids.
pub proof fn law_joining_peer_gets_the_snapshot(
    made: Seq<Seq<u8>>,
    views: Seq<EngineView>,
    diff: Seq<u8>,
    after: EngineView,
)
    requires
        is_session(made),
        is_life(views),
        views.last().state.updates.subset_of(made.to_set()),
        fills_gap(diff, EngineView::fresh().state.clocks, views.last().state.updates),
        gathered(EngineView::fresh(), diff, after),
    ensures
        after.known == views.last().known,
{
    law_snapshot_mirrors_the_text(views, views.len() - 1);
    law_updates_of_a_session_go_together(made);
    lemma_fewer(views.last().state.updates, made.to_set());
    law_joining_peer_gets_the_text(views.last().state, diff, after);
}

/// The text that an engine was seeded with is the one that a peer gets which joins
/// it.
pub proof fn law_seeded_text_reaches_a_peer(
    content: Seq<char>,
    sharer: EngineView,
    diff: Seq<u8>,
    after: EngineView,
)
    requires
        consistent(EngineView::fresh().state),
        seeded(EngineView::fresh(), content, sharer),
        fills_gap(diff, EngineView::fresh().state.clocks, sharer.state.updates),
        gathered(EngineView::fresh(), diff, after),
    ensures
        sharer.known == content,
        after.known == content,
        go_together(sharer.state.updates),
        consistent(sharer.state),
{
    let fresh = EngineView::fresh();
    lemma_none_go_together();
    if content.len() > 0 {
        let update = choose|update: Seq<u8>| #[trigger]
            edited(fresh.state, update, sharer.state);
        law_own_edits_go_together(fresh.state, update, sharer.state);
        assert(content + fresh.state.text =~= content);
    } else {
        assert(content =~= Seq::empty());
    }
    law_joining_peer_gets_the_text(sharer.state, diff, after);
}

/// A document whose updates go together takes every edit for which its counters
/// have room.
pub proof fn law_edits_are_accepted(view: EngineView, new_content: Seq<char>)
    requires
        consistent(view.state),
        view.mirrors(),
        go_together(view.state.updates),
        view.state.has_room(byte_len(new_content)),
    ensures
        view.accepts(new_content),
{
    assert(view.state.text.take(view.known.len() as int) =~= view.known);
}

/// An edit is accepted exactly if the snapshot is the start of a text of characters
/// only, and the bytes of the new content, if it is another one, can be counted in 32
/// bits with those that are there, and in 31 bits with the units made here.
pub proof fn law_when_edits_are_accepted(view: EngineView, new_content: Seq<char>)
    ensures
        view.accepts(new_content) <==> {
            &&& view.state.units == byte_len(view.state.text)
            &&& exists|rest: Seq<char>| view.state.text == #[trigger] (view.known + rest)
            &&& new_content != view.known ==> view.state.units + byte_len(new_content)
                <= 0xffff_ffff && view.state.clock + byte_len(new_content) <= 0x7fff_ffff
        },
{
    let n = view.known.len() as int;
    let text = view.state.text;
    if view.in_step() {
        assert(text =~= view.known + text.skip(n));
    }
    if exists|rest: Seq<char>| text == #[trigger] (view.known + rest) {
        let rest = choose|rest: Seq<char>| text == #[trigger] (view.known + rest);
        assert((view.known + rest).take(n) =~= view.known);
    }
}

/// There is room for some bytes exactly if the length of the text can still be counted
/// in 32 bits then, and the units made here in 31 bits.
pub proof fn law_when_there_is_room(state: DocState, bytes: nat)
    ensures
        state.has_room(bytes) <==> state.units + bytes <= 0xffff_ffff && state.clock + bytes
            <= 0x7fff_ffff,
{
}

/// A new engine has no text, holds nothing, and nothing waits.
pub proof fn law_new_engine_is_empty()
    ensures
        EngineView::fresh().known.len() == 0,
        EngineView::fresh().state.text.len() == 0,
        EngineView::fresh().state.units == 0,
        EngineView::fresh().state.updates == Set::<Seq<u8>>::empty(),
        EngineView::fresh().state.clocks == Map::<u64, u32>::empty(),
        EngineView::fresh().waiting == Set::<Seq<u8>>::empty(),
{
}

/// Seeding puts the content before the text, whatever the content is: it is then the
/// snapshot, what was there stays the units that it was, and the engine has one
/// update more, which can be told to peers. Seeding nothing changes nothing.
pub proof fn law_seeding_puts_content_first(
    before: EngineView,
    content: Seq<char>,
    after: EngineView,
)
    requires
        seeded(before, content, after),
    ensures
        after.state.text == content + before.state.text,
        after.waiting == before.waiting,
        content.len() == 0 ==> after == before,
        content.len() > 0 ==> {
            &&& after.known == content
            &&& after.state.ids.skip(content.len() as int) == before.state.ids
            &&& exists|update: Seq<u8>|
                is_update(update) && after.state.updates == #[trigger] before.state.updates.insert(
                    update,
                ) && block_ids(update).disjoint(held_ids(before.state.updates))
        },
{
    if content.len() == 0 {
        assert(content + before.state.text =~= before.state.text);
    } else {
        let update = choose|update: Seq<u8>| #[trigger]
            edited(before.state, update, after.state);
        assert(after.state.updates == before.state.updates.insert(update));
    }
}

/// An edit of the text makes an update exactly if the content is not the one that was
/// known, whatever the content is. The text is then the new content and what followed
/// the snapshot; the update is new and becomes one of the engine's.
pub proof fn law_edit_changes_the_text(
    before: EngineView,
    new_content: Seq<char>,
    update: Option<Seq<u8>>,
    after: EngineView,
    rest: Seq<char>,
)
    requires
        changed_to(before, new_content, update, after),
        before.state.text == before.known + rest,
    ensures
        update is Some <==> new_content != before.known,
        after.known == new_content,
        after.state.text == new_content + rest,
        after.waiting == before.waiting,
        update is None ==> after == before,
        update matches Some(data) ==> {
            &&& is_update(data)
            &&& after.state.updates == before.state.updates.insert(data)
            &&& block_ids(data).disjoint(held_ids(before.state.updates))
        },
{
    let n = before.known.len() as int;
    assert((before.known + rest).skip(n) =~= rest);
}

/// An update of a peer is taken at once if it is sound and can be decoded, the
/// document has the units that it builds on, no character is divided, and the length
/// of the text can still be counted in 32 bits: there is no other reason to wait.
pub proof fn law_nothing_waits_without_a_reason(
    before: EngineView,
    data: Seq<u8>,
    after: EngineView,
    waiting: Seq<u8>,
)
    requires
        gathered(before, data, after),
    ensures
        is_sound(data) && decodes(data) && has_what_it_needs(
            held_ids(before.state.updates),
            scan_of(data)->0,
        ) && before.state.units + carried_bytes(data) <= 0xffff_ffff && (forall|k: u64|
            !(all_cuts(before.state.updates.insert(data)).contains(k) && #[trigger] all_halves(
                before.state.updates.insert(data),
            ).contains(k))) ==> after.state.updates.contains(data),
        after.waiting.contains(waiting) && is_sound(waiting) && decodes(waiting) ==> {
            ||| !has_what_it_needs(held_ids(after.state.updates), scan_of(waiting)->0)
            ||| after.state.units + carried_bytes(waiting) > 0xffff_ffff
            ||| exists|k: u64|
                all_cuts(after.state.updates.insert(waiting)).contains(k) && #[trigger] all_halves(
                    after.state.updates.insert(waiting),
                ).contains(k)
        },
{
    lemma_added_bytes(before.state.updates, data);
    lemma_added_bytes(after.state.updates, waiting);
    if after.waiting.contains(waiting) {
        assert(!takes(after.state, waiting));
    }
}

/// Whatever comes of a peer, what the engine had it keeps, nothing is made up, the
/// snapshot is the text, and what was given to the engine is in the text or waits.
pub proof fn law_updates_are_neither_lost_nor_made_up(
    before: EngineView,
    data: Seq<u8>,
    after: EngineView,
    update: Seq<u8>,
)
    requires
        gathered(before, data, after),
    ensures
        before.state.updates.contains(update) ==> after.state.updates.contains(update),
        after.state.updates.contains(update) || after.waiting.contains(update) <==> {
            ||| before.state.updates.contains(update)
            ||| before.waiting.contains(update)
            ||| update == data
        },
        after.known == after.state.text,
{
    let all = before.state.updates.union(before.waiting).insert(data);
    let now = after.state.updates.union(after.waiting);
    assert(now.contains(update) <==> all.contains(update));
}

/// An edit reaches a peer that joined by a reply to its state vector, and so does
/// one that the joined peer makes.
pub proof fn law_edit_reaches_joined_peer(
    sharer: EngineView,
    diff: Seq<u8>,
    joined: EngineView,
    editor: EngineView,
    other: EngineView,
    update: Seq<u8>,
    editor_after: EngineView,
    other_after: EngineView,
)
    requires
        consistent(sharer.state),
        sharer.waiting == Set::<Seq<u8>>::empty(),
        go_together(sharer.state.updates),
        fills_gap(diff, EngineView::fresh().state.clocks, sharer.state.updates),
        gathered(EngineView::fresh(), diff, joined),
        editor == sharer && other == joined || editor == joined && other == sharer,
        edited(editor.state, update, editor_after.state),
        gathered(other, update, other_after),
    ensures
        other_after.known == editor_after.state.text,
        synced(editor_after.state.updates, other_after.state.updates),
{
    law_joining_peer_gets_the_text(sharer.state, diff, joined);
    law_sync_is_mutual(sharer.state.updates, joined.state.updates);
    law_edit_reaches_peer(editor.state, other, update, editor_after.state, other_after);
}

/// A peer and one that joined by a reply to its state vector edit at the same
/// time and then receive each other's update: they have the same text.
pub proof fn law_concurrent_edits_after_joining_converge(
    sharer: EngineView,
    diff: Seq<u8>,
    joined: EngineView,
    sharer_update: Seq<u8>,
    joined_update: Seq<u8>,
    sharer_edited: EngineView,
    joined_edited: EngineView,
    sharer_after: EngineView,
    joined_after: EngineView,
)
    requires
        consistent(sharer.state),
        go_together(sharer.state.updates),
        fills_gap(diff, EngineView::fresh().state.clocks, sharer.state.updates),
        gathered(EngineView::fresh(), diff, joined),
        edited(sharer.state, sharer_update, sharer_edited.state),
        edited(joined.state, joined_update, joined_edited.state),
        sharer_edited.waiting == Set::<Seq<u8>>::empty(),
        joined_edited.waiting == Set::<Seq<u8>>::empty(),
        block_ids(sharer_update).disjoint(block_ids(joined_update)),
        byte_len(sharer_edited.state.text) + byte_len(joined_edited.state.text) <= u32::MAX,
        gathered(sharer_edited, joined_update, sharer_after),
        gathered(joined_edited, sharer_update, joined_after),
    ensures
        sharer_after.known == joined_after.known,
        synced(sharer_after.state.updates, joined_after.state.updates),
{
    law_joining_peer_gets_the_text(sharer.state, diff, joined);
    law_concurrent_edits_converge(
        sharer,
        joined,
        sharer_update,
        joined_update,
        sharer_edited,
        joined_edited,
        sharer_after,
        joined_after,
    );
}

/// Whether an engine that was `before` is `after` once it was given the update of a
/// peer, if that made one.
pub open spec fn given(before: EngineView, update: Option<Seq<u8>>, after: EngineView) -> bool {
    match update {
        Some(data) => gathered(before, data, after),
        None => after == before,
    }
}

/// A text is shared, a peer joins, both edit at the same time, and each is given the
/// update of the other: they have the same text. The peers must have different
/// client ids.
pub proof fn law_two_peers_converge(
    initial: Seq<char>,
    sharer: EngineView,
    diff: Seq<u8>,
    joined: EngineView,
    sharer_content: Seq<char>,
    sharer_update: Option<Seq<u8>>,
    sharer_edited: EngineView,
    joined_content: Seq<char>,
    joined_update: Option<Seq<u8>>,
    joined_edited: EngineView,
    sharer_after: EngineView,
    joined_after: EngineView,
)
    requires
        consistent(EngineView::fresh().state),
        seeded(EngineView::fresh(), initial, sharer),
        fills_gap(diff, EngineView::fresh().state.clocks, sharer.state.updates),
        gathered(EngineView::fresh(), diff, joined),
        changed_to(sharer, sharer_content, sharer_update, sharer_edited),
        changed_to(joined, joined_content, joined_update, joined_edited),
        byte_len(sharer_content) + byte_len(joined_content) <= u32::MAX,
        sharer_update matches Some(u) ==> joined_update matches Some(v) ==> block_ids(
            u,
        ).disjoint(block_ids(v)),
        given(sharer_edited, joined_update, sharer_after),
        given(joined_edited, sharer_update, joined_after),
    ensures
        sharer_update matches Some(u) ==> is_update(u),
        joined_update matches Some(v) ==> is_update(v),
        sharer_after.known == joined_after.known,
{
    law_seeded_text_reaches_a_peer(initial, sharer, diff, joined);
    law_joining_peer_gets_the_text(sharer.state, diff, joined);
    law_sync_is_mutual(sharer.state.updates, joined.state.updates);
    let n = sharer.known.len() as int;
    assert(initial + EngineView::fresh().state.text =~= initial);
    assert(sharer.mirrors() && joined.mirrors());
    assert(sharer_content + sharer.state.text.skip(n) =~= sharer_content);
    assert(joined_content + joined.state.text.skip(n) =~= joined_content);
    match (sharer_update, joined_update) {
        (Some(u), Some(v)) => {
            law_concurrent_edits_converge(
                sharer,
                joined,
                u,
                v,
                sharer_edited,
                joined_edited,
                sharer_after,
                joined_after,
            );
        },
        (Some(u), None) => {
            law_edit_reaches_peer(
                sharer.state,
                joined,
                u,
                sharer_edited.state,
                joined_after,
            );
        },
        (None, Some(v)) => {
            law_edit_reaches_peer(
                joined.state,
                sharer,
                v,
                joined_edited.state,
                sharer_after,
            );
        },
        (None, None) => {},
    }
}

} // verus!

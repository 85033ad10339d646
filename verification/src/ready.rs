//! Whether a document has what an update builds on.
//!
//! A block can be put into a document once the unit before it and the units that
//! it was put between are there. The blocks of an update may build on each other,
//! across clients; an update is ready if they can be put in one after the other,
//! those of each client in the order in which they are listed, as `yrs` does it.
use vstd::prelude::*;
use std::collections::{HashMap, HashSet};
use crate::replica::{clock_in, counts, sv_clocks};
use crate::update::{bounded, Block, Contents, Scan};

verus! {

/// Identifies one unit of content in all replicas: the client that made it and
/// how many units that client had made before.
pub type BlockId = (u64, u32);

/// Whether a block has the unit `id`.
pub open spec fn carries(block: Block, id: BlockId) -> bool {
    block.client == id.0 && block.clock <= id.1 < block.clock + block.len
}

/// Whether one of the blocks `done` has the unit `id`.
pub open spec fn one_carries(blocks: Seq<Block>, done: Set<int>, id: BlockId) -> bool {
    exists|i: int| #[trigger] done.contains(i) && carries(blocks[i], id)
}

/// Whether the units of `client` up to `at` are there: among `held`, or in one
/// of the blocks `done`.
pub open spec fn reached(
    held: Set<BlockId>,
    blocks: Seq<Block>,
    done: Set<int>,
    client: u32,
    at: int,
) -> bool {
    at <= 0 || held.contains((client as u64, (at - 1) as u32)) || one_carries(
        blocks,
        done,
        (client as u64, (at - 1) as u32),
    )
}

/// Whether a neighbour is there, if there is to be one.
pub open spec fn neighbour_there(
    held: Set<BlockId>,
    blocks: Seq<Block>,
    done: Set<int>,
    unit: Option<(u32, u32)>,
) -> bool {
    unit matches Some(id) ==> reached(held, blocks, done, id.0, id.1 + 1)
}

/// Whether a block can be put in once the blocks `done` are.
pub open spec fn can_go(
    held: Set<BlockId>,
    blocks: Seq<Block>,
    done: Set<int>,
    block: Block,
) -> bool {
    &&& reached(held, blocks, done, block.client, block.clock as int)
    &&& neighbour_there(held, blocks, done, block.left)
    &&& neighbour_there(held, blocks, done, block.right)
}

/// Whether the blocks of the same client that are listed before the block with
/// the number `i` are among `done`.
pub open spec fn earlier_done(blocks: Seq<Block>, done: Set<int>, i: int) -> bool {
    forall|k: int|
        0 <= k < i && (#[trigger] blocks[k]).client == blocks[i].client ==> done.contains(k)
}

/// Whether the block with the number `i` can be put in next once the blocks
/// `done` are.
pub open spec fn can_go_next(
    held: Set<BlockId>,
    blocks: Seq<Block>,
    done: Set<int>,
    i: int,
) -> bool {
    can_go(held, blocks, done, blocks[i]) && earlier_done(blocks, done, i)
}

/// Whether each block of `order` can go next once those before it are done.
pub open spec fn in_order(held: Set<BlockId>, blocks: Seq<Block>, order: Seq<int>) -> bool {
    forall|j: int|
        0 <= j < order.len() ==> 0 <= #[trigger] order[j] < blocks.len() && can_go_next(
            held,
            blocks,
            order.take(j).to_set(),
            order[j],
        )
}

/// Whether `order` names all the blocks, each after those that it builds on.
pub open spec fn is_schedule(held: Set<BlockId>, blocks: Seq<Block>, order: Seq<int>) -> bool {
    &&& in_order(held, blocks, order)
    &&& forall|i: int| 0 <= i < blocks.len() ==> #[trigger] order.contains(i)
}

/// The numbers of all the blocks.
pub open spec fn all_of(blocks: Seq<Block>) -> Set<int> {
    Set::new(|i: int| 0 <= i < blocks.len())
}

/// Whether what an update deletes is there once its blocks are.
pub open spec fn deletions_there(held: Set<BlockId>, scan: Scan) -> bool {
    forall|i: int|
        0 <= i < scan.spans.len() ==> reached(
            held,
            scan.blocks,
            all_of(scan.blocks),
            (#[trigger] scan.spans[i]).client,
            scan.spans[i].end as int,
        )
}

/// Whether a document with the units `held` has all that an update builds on.
#[verifier::opaque]
pub open spec fn has_what_it_needs(held: Set<BlockId>, scan: Scan) -> bool {
    &&& exists|order: Seq<int>| is_schedule(held, scan.blocks, order)
    &&& deletions_there(held, scan)
}

/// More units are no hindrance.
pub proof fn lemma_reached_monotone(
    held1: Set<BlockId>,
    held2: Set<BlockId>,
    blocks: Seq<Block>,
    done1: Set<int>,
    done2: Set<int>,
    client: u32,
    at: int,
)
    requires
        held1.subset_of(held2),
        done1.subset_of(done2),
        reached(held1, blocks, done1, client, at),
    ensures
        reached(held2, blocks, done2, client, at),
{
    let id = (client as u64, (at - 1) as u32);
    if one_carries(blocks, done1, id) {
        let i = choose|i: int| #[trigger] done1.contains(i) && carries(blocks[i], id);
        assert(done2.contains(i));
    }
}

pub proof fn lemma_can_go_monotone(
    held1: Set<BlockId>,
    held2: Set<BlockId>,
    blocks: Seq<Block>,
    done1: Set<int>,
    done2: Set<int>,
    block: Block,
)
    requires
        held1.subset_of(held2),
        done1.subset_of(done2),
        can_go(held1, blocks, done1, block),
    ensures
        can_go(held2, blocks, done2, block),
{
    lemma_reached_monotone(
        held1,
        held2,
        blocks,
        done1,
        done2,
        block.client,
        block.clock as int,
    );
    if let Some(id) = block.left {
        lemma_reached_monotone(held1, held2, blocks, done1, done2, id.0, id.1 + 1);
    }
    if let Some(id) = block.right {
        lemma_reached_monotone(held1, held2, blocks, done1, done2, id.0, id.1 + 1);
    }
}

/// An update that was ready stays ready when more units are there.
pub proof fn lemma_needs_monotone(held1: Set<BlockId>, held2: Set<BlockId>, scan: Scan)
    requires
        held1.subset_of(held2),
        has_what_it_needs(held1, scan),
    ensures
        has_what_it_needs(held2, scan),
{
    reveal(has_what_it_needs);
    let order = choose|order: Seq<int>| is_schedule(held1, scan.blocks, order);
    assert forall|j: int| 0 <= j < order.len() implies 0 <= #[trigger] order[j] < scan.blocks.len()
        && can_go_next(held2, scan.blocks, order.take(j).to_set(), order[j]) by {
        let done = order.take(j).to_set();
        lemma_can_go_monotone(held1, held2, scan.blocks, done, done, scan.blocks[order[j]]);
    }
    assert(is_schedule(held2, scan.blocks, order));
    let all = all_of(scan.blocks);
    assert forall|i: int| 0 <= i < scan.spans.len() implies reached(
        held2,
        scan.blocks,
        all,
        (#[trigger] scan.spans[i]).client,
        scan.spans[i].end as int,
    ) by {
        let span = scan.spans[i];
        lemma_reached_monotone(
            held1,
            held2,
            scan.blocks,
            all,
            all,
            span.client,
            span.end as int,
        );
    }
}

/// Whether the unit with the clock `n` of `client` is among `held`, or in one of the
/// blocks that `order` lists before the place `j`.
pub open spec fn is_there_before(
    held: Set<BlockId>,
    blocks: Seq<Block>,
    order: Seq<int>,
    j: int,
    client: u32,
    n: int,
) -> bool {
    ||| held.contains((client as u64, n as u32))
    ||| exists|i: int|
        0 <= i < j && {
            let block = blocks[#[trigger] order[i]];
            block.client == client && block.clock <= n < block.clock + block.len
        }
}

/// Whether a block builds only on units that are there before the place `j`: the one
/// that its client made before it, and its neighbours.
pub open spec fn builds_on_what_is_there(
    held: Set<BlockId>,
    blocks: Seq<Block>,
    order: Seq<int>,
    j: int,
    block: Block,
) -> bool {
    &&& block.clock > 0 ==> is_there_before(held, blocks, order, j, block.client, block.clock - 1)
    &&& block.left matches Some(id) ==> is_there_before(held, blocks, order, j, id.0, id.1 as int)
    &&& block.right matches Some(id) ==> is_there_before(held, blocks, order, j, id.0, id.1 as int)
}

proof fn lemma_there_is_reached(
    held: Set<BlockId>,
    blocks: Seq<Block>,
    order: Seq<int>,
    j: int,
    client: u32,
    n: int,
)
    requires
        0 <= n <= u32::MAX,
        0 <= j <= order.len(),
        is_there_before(held, blocks, order, j, client, n),
    ensures
        reached(held, blocks, order.take(j).to_set(), client, n + 1),
{
    let id = (client as u64, n as u32);
    if !held.contains(id) {
        let i = choose|i: int|
            0 <= i < j && {
                let block = blocks[#[trigger] order[i]];
                block.client == client && block.clock <= n < block.clock + block.len
            };
        assert(order.take(j)[i] == order[i]);
        assert(order.take(j).to_set().contains(order[i]));
        assert(carries(blocks[order[i]], id));
    }
}

/// If the blocks of an update can be listed so that each builds only on what a
/// document has and on blocks listed before it, those of each client in the order
/// that they come in, and what the update deletes is in the document or in the
/// blocks, then the document has all that the update needs.
pub proof fn law_ready_if_nothing_is_missing(held: Set<BlockId>, scan: Scan, order: Seq<int>)
    requires
        bounded(scan.blocks),
        forall|i: int| 0 <= i < scan.blocks.len() ==> #[trigger] order.contains(i),
        forall|j: int| 0 <= j < order.len() ==> 0 <= #[trigger] order[j] < scan.blocks.len(),
        forall|j: int, k: int|
            0 <= j < order.len() && 0 <= k < order[j] && (#[trigger] scan.blocks[k]).client
                == scan.blocks[#[trigger] order[j]].client ==> order.take(j).contains(k),
        forall|j: int|
            0 <= j < order.len() ==> builds_on_what_is_there(
                held,
                scan.blocks,
                order,
                j,
                scan.blocks[#[trigger] order[j]],
            ),
        forall|i: int|
            0 <= i < scan.spans.len() ==> 0 < (#[trigger] scan.spans[i]).end && is_there_before(
                held,
                scan.blocks,
                order,
                order.len() as int,
                scan.spans[i].client,
                scan.spans[i].end - 1,
            ),
    ensures
        has_what_it_needs(held, scan),
{
    reveal(has_what_it_needs);
    let blocks = scan.blocks;
    assert forall|j: int| 0 <= j < order.len() implies 0 <= #[trigger] order[j] < blocks.len()
        && can_go_next(held, blocks, order.take(j).to_set(), order[j]) by {
        let block = blocks[order[j]];
        let done = order.take(j).to_set();
        assert(builds_on_what_is_there(held, blocks, order, j, block));
        if block.clock > 0 {
            lemma_there_is_reached(held, blocks, order, j, block.client, block.clock - 1);
        }
        if let Some(id) = block.left {
            lemma_there_is_reached(held, blocks, order, j, id.0, id.1 as int);
        }
        if let Some(id) = block.right {
            lemma_there_is_reached(held, blocks, order, j, id.0, id.1 as int);
        }
        assert forall|k: int|
            0 <= k < order[j] && (#[trigger] blocks[k]).client
                == blocks[order[j]].client implies done.contains(k) by {
            assert(order.take(j).contains(k));
        }
    }
    assert(is_schedule(held, blocks, order));
    assert forall|i: int| 0 <= i < scan.spans.len() implies reached(
        held,
        blocks,
        all_of(blocks),
        (#[trigger] scan.spans[i]).client,
        scan.spans[i].end as int,
    ) by {
        let span = scan.spans[i];
        let n = order.len() as int;
        lemma_there_is_reached(held, blocks, order, n, span.client, span.end - 1);
        assert forall|k: int| #[trigger] order.take(n).to_set().contains(k) implies all_of(
            blocks,
        ).contains(k) by {
            let j = choose|j: int| 0 <= j < n && order.take(n)[j] == k;
            assert(order[j] == k);
        }
        lemma_reached_monotone(
            held,
            held,
            blocks,
            order.take(n).to_set(),
            all_of(blocks),
            span.client,
            span.end as int,
        );
    }
}

/// Whether a unit is among `held`, or in one of the blocks, but not that with the
/// number `i`.
pub open spec fn is_there_beside(
    held: Set<BlockId>,
    blocks: Seq<Block>,
    i: int,
    client: u32,
    n: int,
) -> bool {
    ||| held.contains((client as u64, n as u32))
    ||| exists|k: int|
        0 <= k < blocks.len() && k != i && {
            let block = #[trigger] blocks[k];
            block.client == client && block.clock <= n < block.clock + block.len
        }
}

/// The first place of a block in a schedule.
proof fn lemma_first_place(order: Seq<int>, i: int, n: int) -> (j: int)
    requires
        0 <= n < order.len(),
        order[n] == i,
    ensures
        0 <= j <= n,
        order[j] == i,
        !order.take(j).to_set().contains(i),
    decreases n,
{
    if order.take(n).to_set().contains(i) {
        let m = choose|m: int| 0 <= m < n && order.take(n)[m] == i;
        lemma_first_place(order, i, m)
    } else {
        n
    }
}

proof fn lemma_reached_is_there(
    held: Set<BlockId>,
    blocks: Seq<Block>,
    order: Seq<int>,
    j: int,
    client: u32,
    n: int,
)
    requires
        in_order(held, blocks, order),
        0 <= j < order.len(),
        !order.take(j).to_set().contains(order[j]),
        0 <= n <= u32::MAX,
        reached(held, blocks, order.take(j).to_set(), client, n + 1),
    ensures
        is_there_beside(held, blocks, order[j], client, n),
{
    let id = (client as u64, n as u32);
    let done = order.take(j).to_set();
    if !held.contains(id) {
        let k = choose|k: int| #[trigger] done.contains(k) && carries(blocks[k], id);
        let m = choose|m: int| 0 <= m < j && order.take(j)[m] == k;
        assert(order[m] == k);
        assert(blocks[k].client == client);
    }
}

/// A document that has all that an update needs lacks nothing that the update builds
/// on: the unit before each block, the neighbours of each block and the end of each
/// deletion are in the document or in another of the blocks.
pub proof fn law_nothing_is_missing_if_ready(held: Set<BlockId>, scan: Scan, i: int)
    requires
        has_what_it_needs(held, scan),
    ensures
        0 <= i < scan.blocks.len() ==> {
            let block = scan.blocks[i];
            &&& block.clock > 0 ==> is_there_beside(
                held,
                scan.blocks,
                i,
                block.client,
                block.clock - 1,
            )
            &&& block.left matches Some(id) ==> is_there_beside(
                held,
                scan.blocks,
                i,
                id.0,
                id.1 as int,
            )
            &&& block.right matches Some(id) ==> is_there_beside(
                held,
                scan.blocks,
                i,
                id.0,
                id.1 as int,
            )
        },
        0 <= i < scan.spans.len() && scan.spans[i].end > 0 ==> is_there_beside(
            held,
            scan.blocks,
            -1,
            scan.spans[i].client,
            scan.spans[i].end - 1,
        ),
{
    reveal(has_what_it_needs);
    let blocks = scan.blocks;
    let order = choose|order: Seq<int>| is_schedule(held, blocks, order);
    if 0 <= i < blocks.len() {
        let block = blocks[i];
        assert(order.contains(i));
        let n = choose|n: int| 0 <= n < order.len() && order[n] == i;
        let j = lemma_first_place(order, i, n);
        assert(can_go_next(held, blocks, order.take(j).to_set(), order[j]));
        if block.clock > 0 {
            lemma_reached_is_there(held, blocks, order, j, block.client, block.clock - 1);
        }
        if let Some(id) = block.left {
            lemma_reached_is_there(held, blocks, order, j, id.0, id.1 as int);
        }
        if let Some(id) = block.right {
            lemma_reached_is_there(held, blocks, order, j, id.0, id.1 as int);
        }
    }
    if 0 <= i < scan.spans.len() && scan.spans[i].end > 0 {
        let span = scan.spans[i];
        let id = (span.client as u64, (span.end - 1) as u32);
        assert(reached(held, blocks, all_of(blocks), span.client, span.end as int));
        if !held.contains(id) {
            let k = choose|k: int| #[trigger]
                all_of(blocks).contains(k) && carries(blocks[k], id);
            assert(blocks[k].client == span.client);
        }
    }
}

/// Where no further block can go, a schedule has no further block.
proof fn lemma_stuck(held: Set<BlockId>, blocks: Seq<Block>, done: Set<int>, order: Seq<int>, n: int)
    requires
        is_schedule(held, blocks, order),
        forall|i: int|
            0 <= i < blocks.len() && !done.contains(i) ==> !#[trigger] can_go_next(
                held,
                blocks,
                done,
                i,
            ),
        0 <= n <= order.len(),
    ensures
        forall|j: int| 0 <= j < n ==> done.contains(#[trigger] order[j]),
    decreases n,
{
    if n > 0 {
        lemma_stuck(held, blocks, done, order, n - 1);
        let before = order.take(n - 1).to_set();
        assert forall|i: int| before.contains(i) implies done.contains(i) by {
            let front = order.take(n - 1);
            let j = choose|j: int| 0 <= j < front.len() && front[j] == i;
            assert(order[j] == i);
        }
        assert(can_go_next(held, blocks, before, order[n - 1]));
        lemma_can_go_monotone(held, held, blocks, before, done, blocks[order[n - 1]]);
        assert(can_go_next(held, blocks, done, order[n - 1]));
    }
}

/// How many are still to be done.
spec fn open_count(done: Seq<bool>) -> nat
    decreases done.len(),
{
    if done.len() == 0 {
        0
    } else {
        open_count(done.drop_last()) + if done.last() {
            0nat
        } else {
            1nat
        }
    }
}

proof fn lemma_open_count_update(done: Seq<bool>, i: int)
    requires
        0 <= i < done.len(),
        !done[i],
    ensures
        open_count(done) == open_count(done.update(i, true)) + 1,
    decreases done.len(),
{
    let after = done.update(i, true);
    if i == done.len() - 1 {
        assert(after.drop_last() =~= done.drop_last());
    } else {
        lemma_open_count_update(done.drop_last(), i);
        assert(after.drop_last() =~= done.drop_last().update(i, true));
    }
}

proof fn lemma_open_count_zero(done: Seq<bool>)
    ensures
        open_count(done) == 0 <==> forall|i: int| 0 <= i < done.len() ==> #[trigger] done[i],
        open_count(done) <= done.len(),
    decreases done.len(),
{
    if done.len() > 0 {
        lemma_open_count_zero(done.drop_last());
        if open_count(done) == 0 {
            assert forall|i: int| 0 <= i < done.len() implies #[trigger] done[i] by {
                if i < done.len() - 1 {
                    assert(done.drop_last()[i]);
                }
            }
        }
        if forall|i: int| 0 <= i < done.len() ==> #[trigger] done[i] {
            assert forall|i: int| 0 <= i < done.len() - 1 implies #[trigger] done.drop_last()[i] by {
                assert(done[i]);
            }
        }
    }
}

/// The clock of a client: one that was raised, or the one in the state vector.
spec fn level(clocks: Map<u64, u32>, raised: Map<u64, u32>, client: u32) -> int {
    if raised.contains_key(client as u64) {
        raised[client as u64] as int
    } else if clocks.contains_key(client as u64) {
        clocks[client as u64] as int
    } else {
        0
    }
}

/// Whether the clocks count the units that are there.
spec fn levels_right(
    held: Set<BlockId>,
    clocks: Map<u64, u32>,
    raised: Map<u64, u32>,
    blocks: Seq<Block>,
    done: Set<int>,
) -> bool {
    forall|client: u32, at: int|
        0 <= at <= u32::MAX ==> (#[trigger] reached(held, blocks, done, client, at) <==> at
            <= level(clocks, raised, client))
}

/// Computes [`level`].
fn level_of(sv: &yrs::StateVector, raised: &HashMap<u64, u32>, client: u32) -> (n: u32)
    ensures
        n == level(sv_clocks(*sv), raised@, client),
{
    match raised.get(&(client as u64)) {
        Some(n) => *n,
        None => clock_in(sv, client as u64),
    }
}

/// Tells whether a neighbour is there.
fn check_neighbour(
    sv: &yrs::StateVector,
    raised: &HashMap<u64, u32>,
    unit: Option<(u32, u32)>,
    Ghost(held): Ghost<Set<BlockId>>,
    Ghost(blocks): Ghost<Seq<Block>>,
    Ghost(done): Ghost<Set<int>>,
) -> (there: bool)
    requires
        levels_right(held, sv_clocks(*sv), raised@, blocks, done),
        unit matches Some(id) ==> id.1 < u32::MAX,
    ensures
        there == neighbour_there(held, blocks, done, unit),
{
    match unit {
        Some(id) => {
            assert(reached(held, blocks, done, id.0, id.1 + 1) <==> id.1 + 1 <= level(
                sv_clocks(*sv),
                raised@,
                id.0,
            ));
            id.1 < level_of(sv, raised, id.0)
        },
        None => true,
    }
}

/// One more block is done.
proof fn lemma_levels_raised(
    held: Set<BlockId>,
    clocks: Map<u64, u32>,
    raised: Map<u64, u32>,
    blocks: Seq<Block>,
    done: Set<int>,
    i: int,
    after: Map<u64, u32>,
)
    requires
        levels_right(held, clocks, raised, blocks, done),
        0 <= i < blocks.len(),
        blocks[i].clock + blocks[i].len <= u32::MAX,
        blocks[i].clock <= level(clocks, raised, blocks[i].client),
        ({
            let end = blocks[i].clock + blocks[i].len;
            let now = level(clocks, raised, blocks[i].client);
            after == raised.insert(
                blocks[i].client as u64,
                if end > now {
                    end as u32
                } else {
                    now as u32
                },
            )
        }),
        0 <= level(clocks, raised, blocks[i].client) <= u32::MAX,
    ensures
        levels_right(held, clocks, after, blocks, done.insert(i)),
{
    let b = blocks[i];
    let more = done.insert(i);
    assert forall|client: u32, at: int| 0 <= at <= u32::MAX implies (#[trigger] reached(
        held,
        blocks,
        more,
        client,
        at,
    ) <==> at <= level(clocks, after, client)) by {
        let id = (client as u64, (at - 1) as u32);
        assert(reached(held, blocks, done, client, at) <==> at <= level(clocks, raised, client));
        if one_carries(blocks, done, id) {
            lemma_reached_monotone(held, held, blocks, done, more, client, at);
        }
        if at > 0 && client == b.client && b.clock < at <= b.clock + b.len {
            assert(more.contains(i) && carries(blocks[i], id));
        }
        if one_carries(blocks, more, id) && !one_carries(blocks, done, id) {
            let k = choose|k: int| #[trigger] more.contains(k) && carries(blocks[k], id);
            if k != i {
                assert(done.contains(k));
            }
        }
    }
}

/// The list with one more block is still in order.
proof fn lemma_order_push(held: Set<BlockId>, blocks: Seq<Block>, order: Seq<int>, i: int)
    requires
        in_order(held, blocks, order),
        0 <= i < blocks.len(),
        can_go_next(held, blocks, order.to_set(), i),
    ensures
        in_order(held, blocks, order.push(i)),
        order.push(i).to_set() == order.to_set().insert(i),
{
    let more = order.push(i);
    assert(more.take(order.len() as int) =~= order);
    assert forall|j: int| 0 <= j < more.len() implies 0 <= #[trigger] more[j] < blocks.len()
        && can_go_next(held, blocks, more.take(j).to_set(), more[j]) by {
        if j < order.len() {
            assert(more.take(j) =~= order.take(j));
            assert(more[j] == order[j]);
        }
    }
    assert forall|x: int| more.to_set().contains(x) <==> order.to_set().insert(i).contains(x) by {
        if order.contains(x) {
            let k = choose|k: int| 0 <= k < order.len() && order[k] == x;
            assert(more[k] == x);
        }
        assert(more[order.len() as int] == i);
        if more.contains(x) {
            let k = choose|k: int| 0 <= k < more.len() && more[k] == x;
            if k < order.len() {
                assert(order[k] == x);
            }
        }
    }
    assert(more.to_set() =~= order.to_set().insert(i));
}

/// Whether `passed` are the clients of the first `n` blocks that are not done.
spec fn has_open(blocks: Seq<Block>, done: Set<int>, n: int, passed: Set<u32>) -> bool {
    forall|client: u32| #[trigger]
        passed.contains(client) <==> exists|k: int|
            0 <= k < n && !done.contains(k) && (#[trigger] blocks[k]).client == client
}

/// Tells whether a document with the state vector `sv` has all that the blocks
/// of an update build on, and returns the clocks that they raise.
fn place_blocks(
    sv: &yrs::StateVector,
    contents: &Contents,
    raised: &mut HashMap<u64, u32>,
    Ghost(held): Ghost<Set<BlockId>>,
) -> (placed: bool)
    requires
        counts(sv_clocks(*sv), held),
        old(raised)@ == Map::<u64, u32>::empty(),
        bounded(contents.blocks@),
    ensures
        placed == (exists|order: Seq<int>| is_schedule(held, contents.blocks@, order)),
        placed ==> levels_right(
            held,
            sv_clocks(*sv),
            final(raised)@,
            contents.blocks@,
            all_of(contents.blocks@),
        ),
{
    let ghost blocks = contents.blocks@;
    let ghost clocks = sv_clocks(*sv);
    let ghost mut order: Seq<int> = Seq::empty();
    let n: usize = contents.blocks.len();
    let mut done: Vec<bool> = Vec::new();
    let mut k: usize = 0;
    while k < n
        invariant
            k <= n,
            done@.len() == k,
            forall|i: int| 0 <= i < k ==> !#[trigger] done@[i],
        decreases n - k,
    {
        done.push(false);
        k += 1;
    }
    let mut left: usize = n;
    let mut progress: bool = true;
    proof {
        lemma_all_open(done@);
        lemma_levels_at_start(held, clocks, raised@, blocks);
        assert(order.to_set() =~= Set::empty());
    }
    while progress
        invariant
            n == blocks.len(),
            blocks == contents.blocks@,
            clocks == sv_clocks(*sv),
            bounded(blocks),
            done@.len() == n,
            left == open_count(done@),
            in_order(held, blocks, order),
            forall|i: int| 0 <= i < n ==> (#[trigger] done@[i] <==> order.to_set().contains(i)),
            levels_right(held, clocks, raised@, blocks, order.to_set()),
            !progress ==> forall|i: int|
                0 <= i < n && !order.to_set().contains(i) ==> !#[trigger] can_go_next(
                    held,
                    blocks,
                    order.to_set(),
                    i,
                ),
        decreases left, (if progress { 1nat } else { 0nat }),
    {
        progress = false;
        let ghost left_before = left;
        let mut i: usize = 0;
        // The clients that a block was passed over of.
        let mut passed: HashSet<u32> = HashSet::new();
        while i < n
            invariant
                i <= n,
                n == blocks.len(),
                blocks == contents.blocks@,
                clocks == sv_clocks(*sv),
                bounded(blocks),
                done@.len() == n,
                left == open_count(done@),
                in_order(held, blocks, order),
                forall|j: int|
                    0 <= j < n ==> (#[trigger] done@[j] <==> order.to_set().contains(j)),
                levels_right(held, clocks, raised@, blocks, order.to_set()),
                !progress ==> left == left_before,
                progress ==> left < left_before,
                !progress ==> forall|j: int|
                    0 <= j < i && !order.to_set().contains(j) ==> !#[trigger] can_go_next(
                        held,
                        blocks,
                        order.to_set(),
                        j,
                    ),
                has_open(blocks, order.to_set(), i as int, passed@),
            decreases n - i,
        {
            let block = contents.blocks[i];
            let ghost set = order.to_set();
            if !done[i] && passed.contains(&block.client) {
                proof {
                    let k = choose|k: int|
                        0 <= k < i && !set.contains(k) && (#[trigger] blocks[k]).client
                            == block.client;
                    assert(!earlier_done(blocks, set, i as int));
                }
            } else if !done[i] {
                let now: u32 = level_of(sv, raised, block.client);
                assert(reached(held, blocks, set, block.client, block.clock as int)
                    <==> block.clock <= now);
                assert(blocks[i as int] == block);
                if block.clock <= now && check_neighbour(
                    sv,
                    raised,
                    block.left,
                    Ghost(held),
                    Ghost(blocks),
                    Ghost(set),
                ) && check_neighbour(
                    sv,
                    raised,
                    block.right,
                    Ghost(held),
                    Ghost(blocks),
                    Ghost(set),
                ) {
                    let end: u32 = block.clock + block.len;
                    let ghost before = raised@;
                    raised.insert(
                        block.client as u64,
                        if end > now {
                            end
                        } else {
                            now
                        },
                    );
                    proof {
                        lemma_levels_raised(held, clocks, before, blocks, set, i as int, raised@);
                        assert forall|k: int|
                            0 <= k < i && (#[trigger] blocks[k]).client
                                == block.client implies set.contains(k) by {
                            if !set.contains(k) {
                                assert(passed@.contains(blocks[k].client));
                            }
                        }
                        lemma_order_push(held, blocks, order, i as int);
                        lemma_open_count_update(done@, i as int);
                        order = order.push(i as int);
                    }
                    done.set(i, true);
                    left -= 1;
                    progress = true;
                } else {
                    passed.insert(block.client);
                }
            }
            i += 1;
        }
    }
    proof {
        lemma_open_count_zero(done@);
        let set = order.to_set();
        if left == 0 {
            assert forall|i: int| 0 <= i < blocks.len() implies #[trigger] order.contains(i) by {
                assert(done@[i]);
            }
            assert(is_schedule(held, blocks, order));
            assert forall|i: int| all_of(blocks).contains(i) <==> set.contains(i) by {
                if set.contains(i) {
                    let j = choose|j: int| 0 <= j < order.len() && order[j] == i;
                    assert(0 <= order[j] < blocks.len());
                }
            }
            assert(all_of(blocks) =~= set);
        } else if exists|other: Seq<int>| is_schedule(held, blocks, other) {
            let other = choose|other: Seq<int>| is_schedule(held, blocks, other);
            lemma_stuck(held, blocks, set, other, other.len() as int);
            assert forall|i: int| 0 <= i < done@.len() implies #[trigger] done@[i] by {
                assert(other.contains(i));
                let j = choose|j: int| 0 <= j < other.len() && other[j] == i;
                assert(set.contains(other[j]));
            }
            assert(false);
        }
    }
    left == 0
}

/// Nothing is done yet.
proof fn lemma_all_open(done: Seq<bool>)
    requires
        forall|i: int| 0 <= i < done.len() ==> !#[trigger] done[i],
    ensures
        open_count(done) == done.len(),
    decreases done.len(),
{
    if done.len() > 0 {
        assert forall|i: int| 0 <= i < done.len() - 1 implies !#[trigger] done.drop_last()[i] by {
            assert(!done[i]);
        }
        lemma_all_open(done.drop_last());
    }
}

/// The state vector counts what is held.
proof fn lemma_levels_at_start(
    held: Set<BlockId>,
    clocks: Map<u64, u32>,
    raised: Map<u64, u32>,
    blocks: Seq<Block>,
)
    requires
        counts(clocks, held),
        raised == Map::<u64, u32>::empty(),
    ensures
        levels_right(held, clocks, raised, blocks, Set::empty()),
{
    let none = Set::<int>::empty();
    assert forall|client: u32, at: int| 0 <= at <= u32::MAX implies (#[trigger] reached(
        held,
        blocks,
        none,
        client,
        at,
    ) <==> at <= level(clocks, raised, client)) by {
        if at > 0 {
            let id = (client as u64, (at - 1) as u32);
            assert(held.contains(id) <==> clocks.contains_key(id.0) && id.1 < clocks[id.0]);
        }
    }
}

/// Tells whether a document with the state vector `sv` has all that an update
/// builds on.
pub(crate) fn has_needed(
    sv: &yrs::StateVector,
    contents: &Contents,
    Ghost(held): Ghost<Set<BlockId>>,
    Ghost(scan): Ghost<Scan>,
) -> (ready: bool)
    requires
        counts(sv_clocks(*sv), held),
        contents.scan(scan.pos) == scan,
        bounded(scan.blocks),
    ensures
        ready == has_what_it_needs(held, scan),
{
    proof {
        reveal(has_what_it_needs);
    }
    let mut raised: HashMap<u64, u32> = HashMap::new();
    if !place_blocks(sv, contents, &mut raised, Ghost(held)) {
        return false;
    }
    let mut i: usize = 0;
    while i < contents.spans.len()
        invariant
            i <= contents.spans@.len(),
            contents.scan(scan.pos) == scan,
            levels_right(held, sv_clocks(*sv), raised@, scan.blocks, all_of(scan.blocks)),
            exists|order: Seq<int>| is_schedule(held, scan.blocks, order),
            forall|j: int|
                0 <= j < i ==> reached(
                    held,
                    scan.blocks,
                    all_of(scan.blocks),
                    (#[trigger] scan.spans[j]).client,
                    scan.spans[j].end as int,
                ),
        decreases contents.spans@.len() - i,
    {
        let span = contents.spans[i];
        assert(scan.spans[i as int] == span);
        assert(reached(held, scan.blocks, all_of(scan.blocks), span.client, span.end as int)
            <==> span.end <= level(sv_clocks(*sv), raised@, span.client));
        if span.end > level_of(sv, &raised, span.client) {
            proof {
                reveal(has_what_it_needs);
            }
            return false;
        }
        i += 1;
    }
    true
}

/// By how much the blocks of an update can make the text of a document with the
/// units `held` longer, in bytes: those that it has already do not.
pub open spec fn new_bytes(held: Set<BlockId>, blocks: Seq<Block>) -> nat
    decreases blocks.len(),
{
    if blocks.len() == 0 {
        0
    } else {
        new_bytes(held, blocks.drop_last()) + if is_held(held, blocks.last()) {
            0nat
        } else {
            blocks.last().bytes as nat
        }
    }
}

/// Whether a block, and with it all that its client made before, is held.
pub open spec fn is_held(held: Set<BlockId>, block: Block) -> bool {
    held.contains((block.client as u64, (block.clock + block.len - 1) as u32))
}

/// The bytes of all the blocks.
pub open spec fn all_bytes(blocks: Seq<Block>) -> nat
    decreases blocks.len(),
{
    if blocks.len() == 0 {
        0
    } else {
        all_bytes(blocks.drop_last()) + blocks.last().bytes as nat
    }
}

/// The bytes that blocks add are those of the blocks that a document does not have to
/// their last unit; those of two lists of blocks add up, and a document that has
/// nothing gets the bytes of all.
pub proof fn law_new_bytes_add_up(held: Set<BlockId>, a: Seq<Block>, b: Seq<Block>, block: Block)
    ensures
        new_bytes(held, a + b) == new_bytes(held, a) + new_bytes(held, b),
        new_bytes(held, seq![block]) == if held.contains(
            (block.client as u64, (block.clock + block.len - 1) as u32),
        ) {
            0nat
        } else {
            block.bytes as nat
        },
        new_bytes(Set::empty(), a) == all_bytes(a),
        all_bytes(a + b) == all_bytes(a) + all_bytes(b),
        all_bytes(seq![block]) == block.bytes,
    decreases a.len() + b.len(),
{
    assert(seq![block].drop_last() =~= Seq::<Block>::empty());
    assert(new_bytes(held, seq![block].drop_last()) == 0);
    assert(all_bytes(seq![block].drop_last()) == 0);
    if b.len() > 0 {
        law_new_bytes_add_up(held, a, b.drop_last(), block);
        assert((a + b).drop_last() =~= a + b.drop_last());
    } else {
        assert(a + b =~= a);
        if a.len() > 0 {
            law_new_bytes_add_up(held, a.drop_last(), b, block);
        }
    }
}

pub proof fn lemma_new_bytes(held: Set<BlockId>, blocks: Seq<Block>)
    ensures
        new_bytes(held, blocks) <= all_bytes(blocks),
        (forall|i: int| 0 <= i < blocks.len() ==> is_held(held, #[trigger] blocks[i]))
            ==> new_bytes(held, blocks) == 0,
    decreases blocks.len(),
{
    if blocks.len() > 0 {
        lemma_new_bytes(held, blocks.drop_last());
        if forall|i: int| 0 <= i < blocks.len() ==> is_held(held, #[trigger] blocks[i]) {
            assert(is_held(held, blocks[blocks.len() - 1]));
            assert forall|i: int| 0 <= i < blocks.len() - 1 implies is_held(
                held,
                #[trigger] blocks.drop_last()[i],
            ) by {
                assert(is_held(held, blocks[i]));
            }
        }
    }
}

/// Tells whether the blocks of an update make the text of a document with the
/// state vector `sv` longer by at most `room` bytes.
pub(crate) fn has_bytes(
    sv: &yrs::StateVector,
    contents: &Contents,
    room: u32,
    Ghost(held): Ghost<Set<BlockId>>,
) -> (fit: bool)
    requires
        counts(sv_clocks(*sv), held),
        bounded(contents.blocks@),
    ensures
        fit == (new_bytes(held, contents.blocks@) <= room),
{
    let ghost blocks = contents.blocks@;
    let mut sum: u64 = 0;
    let mut i: usize = 0;
    assert(blocks.take(0) =~= Seq::empty());
    while i < contents.blocks.len()
        invariant
            i <= blocks.len(),
            blocks == contents.blocks@,
            counts(sv_clocks(*sv), held),
            bounded(blocks),
            sum == new_bytes(held, blocks.take(i as int)),
            sum <= room,
        decreases blocks.len() - i,
    {
        let block = contents.blocks[i];
        proof {
            assert(blocks.take(i + 1).drop_last() =~= blocks.take(i as int));
            assert(blocks.take(i + 1).last() == block);
            assert(blocks[i as int] == block);
            let id = (block.client as u64, (block.clock + block.len - 1) as u32);
            assert(held.contains(id) <==> sv_clocks(*sv).contains_key(id.0) && id.1
                < sv_clocks(*sv)[id.0]);
        }
        if clock_in(sv, block.client as u64) < block.clock + block.len {
            if block.bytes > (room as u64 - sum) {
                proof {
                    lemma_new_bytes_take(held, blocks, i + 1);
                }
                return false;
            }
            sum = sum + block.bytes;
        }
        i += 1;
    }
    assert(blocks.take(blocks.len() as int) =~= blocks);
    true
}

proof fn lemma_new_bytes_take(held: Set<BlockId>, blocks: Seq<Block>, n: int)
    requires
        0 <= n <= blocks.len(),
    ensures
        new_bytes(held, blocks.take(n)) <= new_bytes(held, blocks),
    decreases blocks.len() - n,
{
    if n < blocks.len() {
        lemma_new_bytes_take(held, blocks, n + 1);
        assert(blocks.take(n + 1).drop_last() =~= blocks.take(n));
    } else {
        assert(blocks.take(n) =~= blocks);
    }
}

} // verus!

//! The bytes of an update, as far as they decide what can be done with it.
//!
//! An update lists blocks of content, client by client, and then the ranges of
//! content that it deletes. A unit of content is known by the client that made it
//! and by how many units that client had made before, its clock. Characters
//! outside the basic plane are two units.
//!
//! Only flat updates are sound: those whose blocks stand directly in the root text.
//! Nested shared types, subdocuments and moves are followed by recursion in
//! `yrs`, without a bound, and are not handed over to it; nor are the entries of
//! maps, which `yrs` does not count but shows where they stand in a text.
use vstd::prelude::*;
use vstd::utf8::{decode_utf8, decode_utf8_encode_utf8, valid_utf8};
use std::collections::HashSet;
use crate::protocol::{lemma_varint_end, read_varint, varint_at};
use crate::replica::ROOT;
use crate::text::{byte_len, lemma_byte_len_push, same_text};

verus! {

/// Clocks stay at or below this one: `yrs` subtracts them as signed numbers.
pub const CLOCK_LIMIT: u32 = 0x7fff_ffff;

/// Values may be nested this deep.
pub const MAX_NESTING: u32 = 64;

/// A run of units that one client made, and the units that it was put between.
#[derive(Debug, Clone, Copy)]
pub struct Block {
    pub client: u32,
    pub clock: u32,
    pub len: u32,
    /// By how much it can make a text longer, in bytes.
    pub bytes: u64,
    pub left: Option<(u32, u32)>,
    pub right: Option<(u32, u32)>,
}

/// A range of units that is deleted: from `start` up to `end`.
#[derive(Debug, Clone, Copy)]
pub struct Span {
    pub client: u32,
    pub start: u32,
    pub end: u32,
}

/// What a block carries.
pub enum Payload {
    /// Characters.
    Text(Seq<char>),
    /// Characters that are deleted: only their place in the text is left.
    Deleted,
    /// Units of which not even their place is left.
    Gone,
    /// Objects or formatting.
    Other,
}

impl Payload {
    /// The characters.
    pub open spec fn chars(self) -> Seq<char> {
        match self {
            Payload::Text(text) => text,
            _ => Seq::empty(),
        }
    }

    /// By how much `n` units of it can make a text longer, in bytes.
    pub open spec fn weight(self, n: nat) -> nat {
        match self {
            Payload::Text(text) => byte_len(text),
            Payload::Other => n,
            _ => 0,
        }
    }
}

/// What was found in the bytes of an update up to a position.
#[verifier::ext_equal]
pub struct Scan {
    pub pos: nat,
    /// The blocks that it carries.
    pub blocks: Seq<Block>,
    /// What is in the blocks.
    pub payloads: Seq<Payload>,
    /// The ranges that it deletes.
    pub spans: Seq<Span>,
    /// Where content is divided for it, or can be between two characters that it
    /// carries, as [`key`]s.
    pub cuts: Seq<u64>,
    /// The second halves of the characters that it carries, as [`key`]s.
    pub halves: Seq<u64>,
}

impl Scan {
    /// Nothing found yet, and the position `pos` reached.
    pub open spec fn start(pos: nat) -> Scan {
        Scan {
            pos,
            blocks: Seq::empty(),
            payloads: Seq::empty(),
            spans: Seq::empty(),
            cuts: Seq::empty(),
            halves: Seq::empty(),
        }
    }
}

/// A client and a clock in one number.
pub open spec fn key(client: u32, clock: int) -> u64 {
    (client * 0x1_0000_0000 + clock) as u64
}

/// The number at `pos`, if one of 32 bits and of at most five bytes is there.
pub open spec fn u32_at(data: Seq<u8>, pos: nat) -> Option<(u32, nat)> {
    match varint_at(data, pos) {
        Some((n, next)) => if n <= u32::MAX && next <= pos + 5 {
            Some((n as u32, next))
        } else {
            None
        },
        None => None,
    }
}

/// The number of items at `pos`, if as many can follow.
pub open spec fn count_at(data: Seq<u8>, pos: nat) -> Option<(u32, nat)> {
    match u32_at(data, pos) {
        Some((n, next)) => if next + n <= data.len() {
            Some((n, next))
        } else {
            None
        },
        None => None,
    }
}

/// The position behind `n` bytes, if they are there.
pub open spec fn skipped(data: Seq<u8>, pos: nat, n: nat) -> Option<nat> {
    if pos + n <= data.len() {
        Some(pos + n)
    } else {
        None
    }
}

/// The position behind a buffer with its length in front.
pub open spec fn buffer_end(data: Seq<u8>, pos: nat) -> Option<nat> {
    match count_at(data, pos) {
        Some((n, next)) => Some(next + n as nat),
        None => None,
    }
}

/// The text at `pos` with its length in bytes in front, if it is UTF-8.
pub open spec fn text_at(data: Seq<u8>, pos: nat) -> Option<(Seq<char>, nat)> {
    match count_at(data, pos) {
        Some((n, next)) => {
            let bytes = data.subrange(next as int, next + n);
            if valid_utf8(bytes) {
                Some((decode_utf8(bytes), next + n as nat))
            } else {
                None
            }
        },
        None => None,
    }
}

/// The position behind a text.
pub open spec fn text_end(data: Seq<u8>, pos: nat) -> Option<nat> {
    match text_at(data, pos) {
        Some((_, next)) => Some(next),
        None => None,
    }
}

/// The unit named at `pos`.
pub open spec fn unit_at(data: Seq<u8>, pos: nat) -> Option<((u32, u32), nat)> {
    match u32_at(data, pos) {
        Some((client, p)) => match u32_at(data, p) {
            Some((clock, next)) => if clock < CLOCK_LIMIT {
                Some(((client, clock), next))
            } else {
                None
            },
            None => None,
        },
        None => None,
    }
}

/// The position behind a value of the JSON kind at `pos`, if it is nested less
/// than `depth` deep.
pub open spec fn value_end(data: Seq<u8>, pos: nat, depth: nat) -> Option<nat>
    decreases depth, 0nat,
{
    if depth == 0 || pos >= data.len() {
        None
    } else {
        let tag = data[pos as int];
        if tag == 127 || tag == 126 || tag == 121 || tag == 120 {
            Some(pos + 1)
        } else if tag == 125 {
            match varint_at(data, pos + 1) {
                Some((_, next)) => if next <= pos + 9 {
                    Some(next)
                } else {
                    None
                },
                None => None,
            }
        } else if tag == 124 {
            skipped(data, pos + 1, 4)
        } else if tag == 123 || tag == 122 {
            skipped(data, pos + 1, 8)
        } else if tag == 119 {
            text_end(data, pos + 1)
        } else if tag == 116 {
            buffer_end(data, pos + 1)
        } else if tag == 118 || tag == 117 {
            match count_at(data, pos + 1) {
                Some((n, next)) => values_end(data, next, n as nat, tag == 118, (depth - 1) as nat),
                None => None,
            }
        } else {
            None
        }
    }
}

/// The position behind `n` values, each with a name in front if `named`.
pub open spec fn values_end(data: Seq<u8>, pos: nat, n: nat, named: bool, depth: nat) -> Option<
    nat,
>
    decreases depth, n,
{
    if n == 0 {
        Some(pos)
    } else {
        let value = if named {
            text_end(data, pos)
        } else {
            Some(pos)
        };
        match value {
            Some(p) => match value_end(data, p, depth) {
                Some(next) => values_end(data, next, (n - 1) as nat, named, depth),
                None => None,
            },
            None => None,
        }
    }
}

/// Whether a character is two units.
pub open spec fn is_wide(c: char) -> bool {
    c as u32 >= 0x1_0000
}

/// The number of units of a text.
pub open spec fn units_of(text: Seq<char>) -> nat
    decreases text.len(),
{
    if text.len() == 0 {
        0
    } else {
        units_of(text.drop_last()) + if is_wide(text.last()) {
            2nat
        } else {
            1nat
        }
    }
}

/// The character that the `k`-th unit of a text belongs to, and whether that unit is
/// its second half.
pub open spec fn face_at(text: Seq<char>, k: int) -> (char, bool)
    decreases text.len(),
{
    let before = units_of(text.drop_last());
    if text.len() <= 1 || k >= before {
        (text.last(), k > before)
    } else {
        face_at(text.drop_last(), k)
    }
}

/// Where the characters of a text that starts at `clock` begin.
pub open spec fn starts_of(text: Seq<char>, client: u32, clock: int) -> Seq<u64>
    decreases text.len(),
{
    if text.len() == 0 {
        Seq::empty()
    } else {
        starts_of(text.drop_last(), client, clock).push(
            key(client, clock + units_of(text.drop_last())),
        )
    }
}

/// The second halves of the characters of a text that starts at `clock`.
pub open spec fn halves_of(text: Seq<char>, client: u32, clock: int) -> Seq<u64>
    decreases text.len(),
{
    if text.len() == 0 {
        Seq::empty()
    } else {
        let before = halves_of(text.drop_last(), client, clock);
        if is_wide(text.last()) {
            before.push(key(client, clock + units_of(text.drop_last()) + 1))
        } else {
            before
        }
    }
}

/// The units of a text are its UTF-16 code units: one for each character of the
/// basic plane, two for any other, and those of two texts in a row add up.
pub proof fn law_units_are_utf16_code_units(c: char, a: Seq<char>, b: Seq<char>)
    ensures
        units_of(Seq::empty()) == 0,
        units_of(seq![c]) == if c as u32 <= 0xffff {
            1nat
        } else {
            2
        },
        units_of(a + b) == units_of(a) + units_of(b),
    decreases b.len(),
{
    assert(seq![c].drop_last() =~= Seq::<char>::empty());
    assert(units_of(seq![c].drop_last()) == 0);
    if b.len() > 0 {
        law_units_are_utf16_code_units(c, a, b.drop_last());
        assert((a + b).drop_last() =~= a + b.drop_last());
    } else {
        assert(a + b =~= a);
    }
}

/// The units in front of a character, and those up to its end.
proof fn lemma_units_step(text: Seq<char>, j: int)
    requires
        0 <= j < text.len(),
    ensures
        units_of(text.take(j + 1)) == units_of(text.take(j)) + if is_wide(text[j]) {
            2nat
        } else {
            1
        },
        units_of(text.take(j + 1)) <= units_of(text),
    decreases text.len() - j,
{
    assert(text.take(j + 1).drop_last() =~= text.take(j));
    if j + 1 < text.len() {
        lemma_units_step(text, j + 1);
    } else {
        assert(text.take(j + 1) =~= text);
    }
}

/// Each character is found by the units that are before it: its first half, or all
/// of it, there, and the second half, if it has one, behind that.
pub proof fn law_units_belong_to_their_characters(text: Seq<char>, j: int)
    requires
        0 <= j < text.len(),
    ensures
        face_at(text, units_of(text.take(j)) as int) == (text[j], false),
        text[j] as u32 > 0xffff ==> face_at(text, (units_of(text.take(j)) + 1) as int) == (
            text[j],
            true,
        ),
    decreases text.len(),
{
    let init = text.drop_last();
    if j == text.len() - 1 {
        assert(text.take(j) =~= init);
    } else {
        law_units_belong_to_their_characters(init, j);
        lemma_units_step(init, j);
        assert(init.take(j) =~= text.take(j));
        assert(init.take(j + 1) =~= text.take(j + 1));
    }
}

/// Each character of a text starts where the units before it end.
pub proof fn law_starts_of_characters(text: Seq<char>, client: u32, clock: int)
    ensures
        starts_of(text, client, clock).len() == text.len(),
        forall|j: int|
            0 <= j < text.len() ==> #[trigger] starts_of(text, client, clock)[j] == key(
                client,
                clock + units_of(text.take(j)),
            ),
    decreases text.len(),
{
    if text.len() > 0 {
        let init = text.drop_last();
        law_starts_of_characters(init, client, clock);
        assert forall|j: int| 0 <= j < text.len() implies #[trigger] starts_of(
            text,
            client,
            clock,
        )[j] == key(client, clock + units_of(text.take(j))) by {
            assert(text.take(j) =~= init.take(j));
            if j < init.len() {
                assert(starts_of(init, client, clock)[j] == key(
                    client,
                    clock + units_of(init.take(j)),
                ));
            } else {
                assert(init.take(j) =~= init);
            }
        }
    }
}

/// Whether `k` is where the second half of a character of a text is that starts at
/// `clock`.
pub open spec fn is_half_of(text: Seq<char>, client: u32, clock: int, k: u64) -> bool {
    exists|j: int|
        0 <= j < text.len() && (#[trigger] text[j]) as u32 > 0xffff && k == key(
            client,
            clock + units_of(text.take(j)) + 1,
        )
}

/// The second halves of a text are those of its characters beyond the basic plane,
/// each behind the first half.
pub proof fn law_second_halves_of_characters(text: Seq<char>, client: u32, clock: int, k: u64)
    ensures
        halves_of(text, client, clock).contains(k) <==> is_half_of(text, client, clock, k),
    decreases text.len(),
{
    if text.len() > 0 {
        let init = text.drop_last();
        let halves = halves_of(text, client, clock);
        let fewer = halves_of(init, client, clock);
        law_second_halves_of_characters(init, client, clock, k);
        let last = text.len() - 1;
        assert(text.take(last) =~= init);
        if halves.contains(k) {
            let i = choose|i: int| 0 <= i < halves.len() && halves[i] == k;
            if i < fewer.len() {
                assert(fewer[i] == k);
                let j = choose|j: int|
                    0 <= j < init.len() && (#[trigger] init[j]) as u32 > 0xffff && k == key(
                        client,
                        clock + units_of(init.take(j)) + 1,
                    );
                assert(init.take(j) =~= text.take(j));
                assert(text[j] as u32 > 0xffff);
            } else {
                assert(text[last] as u32 > 0xffff);
            }
        }
        if is_half_of(text, client, clock, k) {
            let j = choose|j: int|
                0 <= j < text.len() && (#[trigger] text[j]) as u32 > 0xffff && k == key(
                    client,
                    clock + units_of(text.take(j)) + 1,
                );
            if j < last {
                assert(init.take(j) =~= text.take(j));
                assert(init[j] as u32 > 0xffff);
                let i = choose|i: int| 0 <= i < fewer.len() && fewer[i] == k;
                assert(halves[i] == k);
            } else {
                assert(halves.last() == k);
            }
        }
    }
}

/// Units have different keys.
pub proof fn law_keys_differ(client1: u32, clock1: u32, client2: u32, clock2: u32)
    requires
        key(client1, clock1 as int) == key(client2, clock2 as int),
    ensures
        client1 == client2,
        clock1 == clock2,
{
}

/// The content of the given kind at `pos`: its number of units, what it is, and the
/// position behind it.
pub open spec fn content_at(data: Seq<u8>, pos: nat, kind: int) -> Option<(nat, Payload, nat)> {
    if kind == 1 {
        match u32_at(data, pos) {
            Some((n, next)) => Some((n as nat, Payload::Deleted, next)),
            None => None,
        }
    } else if kind == 3 {
        match buffer_end(data, pos) {
            Some(next) => Some((1, Payload::Other, next)),
            None => None,
        }
    } else if kind == 4 {
        match text_at(data, pos) {
            Some((text, next)) => Some((units_of(text), Payload::Text(text), next)),
            None => None,
        }
    } else if kind == 5 {
        match text_end(data, pos) {
            Some(next) => Some((1, Payload::Other, next)),
            None => None,
        }
    } else if kind == 6 {
        match text_end(data, pos) {
            Some(p) => match text_end(data, p) {
                Some(next) => Some((1, Payload::Other, next)),
                None => None,
            },
            None => None,
        }
    } else if kind == 8 {
        match count_at(data, pos) {
            Some((n, p)) => match values_end(data, p, n as nat, false, MAX_NESTING as nat) {
                Some(next) => Some((n as nat, Payload::Other, next)),
                None => None,
            },
            None => None,
        }
    } else {
        None
    }
}

/// The unit at `pos`, if there is to be one.
pub open spec fn neighbour_at(data: Seq<u8>, pos: nat, there: bool) -> Option<
    (Option<(u32, u32)>, nat),
> {
    if there {
        match unit_at(data, pos) {
            Some((unit, next)) => Some((Some(unit), next)),
            None => None,
        }
    } else {
        Some((None, pos))
    }
}

/// Whether a neighbour made by `client` itself was made before `clock`.
pub open spec fn is_earlier(unit: Option<(u32, u32)>, client: u32, clock: int) -> bool {
    unit matches Some(id) ==> id.0 == client ==> id.1 < clock
}

/// The position behind the name of the root that a block without neighbours
/// stands in: it must be the root text, and the block no entry of a map.
pub open spec fn parent_end(data: Seq<u8>, pos: nat, there: bool, entry: bool) -> Option<nat> {
    if !there {
        Some(pos)
    } else {
        match u32_at(data, pos) {
            Some((is_root, p)) => if is_root == 1 && !entry {
                match text_at(data, p) {
                    Some((name, next)) => if name == ROOT@ {
                        Some(next)
                    } else {
                        None
                    },
                    None => None,
                }
            } else {
                None
            },
            None => None,
        }
    }
}

/// Where the content of a block is divided by its neighbours.
pub open spec fn neighbour_cuts(left: Option<(u32, u32)>, right: Option<(u32, u32)>) -> Seq<u64> {
    let before = match left {
        Some(id) => seq![key(id.0, id.1 + 1)],
        None => Seq::empty(),
    };
    match right {
        Some(id) => before.push(key(id.0, id.1 as int)),
        None => before,
    }
}

/// `scan` with one more block, which carries `payload`, unless that is empty.
pub open spec fn with_block(scan: Scan, block: Block, payload: Payload, pos: nat) -> Scan {
    let text = payload.chars();
    if block.len == 0 {
        Scan { pos, ..scan }
    } else {
        Scan {
            pos,
            blocks: scan.blocks.push(block),
            payloads: scan.payloads.push(payload),
            cuts: scan.cuts + seq![
                key(block.client, block.clock as int),
                key(block.client, block.clock + block.len),
            ] + neighbour_cuts(block.left, block.right) + starts_of(
                text,
                block.client,
                block.clock as int,
            ),
            halves: scan.halves + halves_of(text, block.client, block.clock as int),
            ..scan
        }
    }
}

/// Reads a block at the position of `scan`: the number of its units and what was
/// found then.
#[verifier::opaque]
pub open spec fn block_at(data: Seq<u8>, scan: Scan, client: u32, clock: u32) -> Option<
    (u32, Scan),
> {
    if scan.pos >= data.len() {
        None
    } else {
        let info = data[scan.pos as int];
        if info == 10 || info == 0 {
            match u32_at(data, scan.pos + 1) {
                Some((n, next)) => if 0 < n && clock + n <= CLOCK_LIMIT {
                    if info == 10 {
                        Some((n, Scan { pos: next, ..scan }))
                    } else {
                        let block = Block {
                            client,
                            clock,
                            len: n,
                            bytes: 0,
                            left: None,
                            right: None,
                        };
                        Some((n, with_block(scan, block, Payload::Gone, next)))
                    }
                } else {
                    None
                },
                None => None,
            }
        } else {
            item_at(data, scan, client, clock, info)
        }
    }
}

/// Reads a block that stands in a root type, behind its first byte `info`.
pub open spec fn item_at(data: Seq<u8>, scan: Scan, client: u32, clock: u32, info: u8) -> Option<
    (u32, Scan),
> {
    let has_left = info >= 128;
    let has_right = info % 128 >= 64;
    let has_entry = info % 64 >= 32;
    match neighbour_at(data, scan.pos + 1, has_left) {
        Some((left, p)) => match neighbour_at(data, p, has_right) {
            Some((right, q)) => match parent_end(data, q, !has_left && !has_right, has_entry) {
                Some(r) => match content_at(data, r, info as int % 16) {
                    Some((n, payload, next)) => if clock + n <= CLOCK_LIMIT && is_earlier(
                        left,
                        client,
                        clock as int,
                    ) && is_earlier(right, client, clock as int) {
                        let block = Block {
                            client,
                            clock,
                            len: n as u32,
                            bytes: payload.weight(n) as u64,
                            left,
                            right,
                        };
                        Some((n as u32, with_block(scan, block, payload, next)))
                    } else {
                        None
                    },
                    None => None,
                },
                None => None,
            },
            None => None,
        },
        None => None,
    }
}

/// Reads `n` blocks of one client, the first of which starts at `clock`.
pub open spec fn blocks_at(data: Seq<u8>, scan: Scan, client: u32, clock: u32, n: nat) -> Option<
    Scan,
>
    decreases n,
{
    if n == 0 {
        Some(scan)
    } else {
        match block_at(data, scan, client, clock) {
            Some((len, next)) => blocks_at(
                data,
                next,
                client,
                (clock + len) as u32,
                (n - 1) as nat,
            ),
            None => None,
        }
    }
}

/// Reads the blocks of `n` clients.
pub open spec fn clients_at(data: Seq<u8>, scan: Scan, n: nat) -> Option<Scan>
    decreases n,
{
    if n == 0 {
        Some(scan)
    } else {
        match client_at(data, scan) {
            Some(next) => clients_at(data, next, (n - 1) as nat),
            None => None,
        }
    }
}

/// Reads the blocks of one client, of which there must be some that are not
/// empty.
#[verifier::opaque]
pub open spec fn client_at(data: Seq<u8>, scan: Scan) -> Option<Scan> {
    match count_at(data, scan.pos) {
        Some((n, p)) => match u32_at(data, p) {
            Some((client, q)) => match u32_at(data, q) {
                Some((clock, r)) => if clock <= CLOCK_LIMIT {
                    match blocks_at(data, Scan { pos: r, ..scan }, client, clock, n as nat) {
                        Some(next) => if next.blocks.len() > scan.blocks.len() {
                            Some(next)
                        } else {
                            None
                        },
                        None => None,
                    }
                } else {
                    None
                },
                None => None,
            },
            None => None,
        },
        None => None,
    }
}

/// Reads `n` ranges of one client.
pub open spec fn spans_at(data: Seq<u8>, scan: Scan, client: u32, n: nat) -> Option<Scan>
    decreases n,
{
    if n == 0 {
        Some(scan)
    } else {
        match u32_at(data, scan.pos) {
            Some((clock, p)) => match u32_at(data, p) {
                Some((len, q)) => if 0 < len && clock + len <= CLOCK_LIMIT {
                    let span = Span { client, start: clock, end: (clock + len) as u32 };
                    spans_at(data, with_span(scan, span, q), client, (n - 1) as nat)
                } else {
                    None
                },
                None => None,
            },
            None => None,
        }
    }
}

/// `scan` with one more range.
pub open spec fn with_span(scan: Scan, span: Span, pos: nat) -> Scan {
    Scan {
        pos,
        spans: scan.spans.push(span),
        cuts: scan.cuts + seq![key(span.client, span.start as int), key(
            span.client,
            span.end as int,
        )],
        ..scan
    }
}

/// Reads the ranges of `n` clients, at least one of each. None of them may be
/// among `seen`, those that ranges were read of before: `yrs` would forget the
/// earlier ones.
pub open spec fn deletions_at(data: Seq<u8>, scan: Scan, seen: Set<u32>, n: nat) -> Option<Scan>
    decreases n,
{
    if n == 0 {
        Some(scan)
    } else {
        match u32_at(data, scan.pos) {
            Some((client, p)) => match count_at(data, p) {
                Some((m, q)) => if m > 0 && !seen.contains(client) {
                    match spans_at(data, Scan { pos: q, ..scan }, client, m as nat) {
                        Some(next) => deletions_at(
                            data,
                            next,
                            seen.insert(client),
                            (n - 1) as nat,
                        ),
                        None => None,
                    }
                } else {
                    None
                },
                None => None,
            },
            None => None,
        }
    }
}

/// What the bytes of an update hold, if they are sound.
#[verifier::opaque]
pub open spec fn scan_of(data: Seq<u8>) -> Option<Scan> {
    match count_at(data, 0) {
        Some((n, p)) => match clients_at(data, Scan::start(p), n as nat) {
            Some(scan) => match count_at(data, scan.pos) {
                Some((m, q)) => deletions_at(
                    data,
                    Scan { pos: q, ..scan },
                    Set::empty(),
                    m as nat,
                ),
                None => None,
            },
            None => None,
        },
        None => None,
    }
}

/// Whether the bytes of an update are sound: everything that they declare is
/// there, numbers stay within their limits, text is UTF-8, no block was put beside
/// one that its client made later, and no client is listed with nothing, or twice
/// among the deletions.
pub open spec fn is_sound(data: Seq<u8>) -> bool {
    scan_of(data) is Some
}

/// Whether a state vector can have as many entries as it declares: each is at
/// least two bytes.
pub open spec fn entries_fit(data: Seq<u8>) -> bool {
    u32_at(data, 0) matches Some((n, next)) && next + 2 * n <= data.len()
}

/// Whether the blocks stay within the numbers, and none is empty.
pub open spec fn bounded(blocks: Seq<Block>) -> bool {
    forall|i: int|
        0 <= i < blocks.len() ==> {
            let b = #[trigger] blocks[i];
            &&& 0 < b.len
            &&& b.clock + b.len <= u32::MAX
            &&& b.left matches Some(id) ==> id.1 < u32::MAX
            &&& b.right matches Some(id) ==> id.1 < u32::MAX
        }
}

/// Whether a block stays within the limits, carries something, was put beside units
/// that were there, and has the length of what it carries.
pub open spec fn is_fair_block(block: Block, payload: Payload) -> bool {
    &&& 0 < block.len
    &&& block.clock + block.len <= CLOCK_LIMIT
    &&& block.left matches Some(id) ==> id.1 < CLOCK_LIMIT && (id.0 == block.client ==> id.1
        < block.clock)
    &&& block.right matches Some(id) ==> id.1 < CLOCK_LIMIT && (id.0 == block.client ==> id.1
        < block.clock)
    &&& payload matches Payload::Text(text) ==> block.len == units_of(text) && block.bytes
        == byte_len(text)
    &&& payload is Other ==> block.bytes == block.len
    &&& payload is Deleted || payload is Gone ==> block.bytes == 0
    &&& payload is Gone ==> block.left is None && block.right is None
}

/// Whether content is divided at `k` for a block, or can be: at its ends, at its
/// neighbours, and where a character of it starts.
pub open spec fn block_cuts(block: Block, payload: Payload, k: u64) -> bool {
    ||| k == key(block.client, block.clock as int)
    ||| k == key(block.client, block.clock + block.len)
    ||| block.left matches Some(id) && k == key(id.0, id.1 + 1)
    ||| block.right matches Some(id) && k == key(id.0, id.1 as int)
    ||| payload matches Payload::Text(text) && exists|j: int|
        0 <= j < text.len() && k == key(block.client, block.clock + units_of(#[trigger] text.take(j)))
}

/// Whether `k` is the second half of a character that a block carries.
pub open spec fn block_halves(block: Block, payload: Payload, k: u64) -> bool {
    payload matches Payload::Text(text) && is_half_of(text, block.client, block.clock as int, k)
}

/// Whether content is divided at `k` for one of some blocks, or can be.
pub open spec fn blocks_cut(blocks: Seq<Block>, payloads: Seq<Payload>, k: u64) -> bool {
    exists|i: int| 0 <= i < blocks.len() && block_cuts(#[trigger] blocks[i], payloads[i], k)
}

/// Whether content is divided at `k` for one of some deletions: at its ends.
pub open spec fn spans_cut(spans: Seq<Span>, k: u64) -> bool {
    exists|i: int| 0 <= i < spans.len() && span_cuts(#[trigger] spans[i], k)
}

/// Whether content is divided at `k` for a deletion.
pub open spec fn span_cuts(span: Span, k: u64) -> bool {
    k == key(span.client, span.start as int) || k == key(span.client, span.end as int)
}

/// Whether `k` is the second half of a character that one of some blocks carries.
pub open spec fn blocks_halve(blocks: Seq<Block>, payloads: Seq<Payload>, k: u64) -> bool {
    exists|i: int| 0 <= i < blocks.len() && block_halves(#[trigger] blocks[i], payloads[i], k)
}

/// What holds of everything that is found.
#[verifier::opaque]
pub open spec fn is_fair(scan: Scan) -> bool {
    &&& forall|i: int|
        0 <= i < scan.blocks.len() ==> is_fair_block(#[trigger] scan.blocks[i], scan.payloads[i])
    &&& forall|i: int|
        0 <= i < scan.spans.len() ==> (#[trigger] scan.spans[i]).start < scan.spans[i].end
            && scan.spans[i].end <= CLOCK_LIMIT
    &&& forall|k: u64| #[trigger] scan.cuts.contains(k) <==> blocks_cut(
        scan.blocks,
        scan.payloads,
        k,
    ) || spans_cut(scan.spans, k)
    &&& forall|k: u64| #[trigger] scan.halves.contains(k) <==> blocks_halve(
        scan.blocks,
        scan.payloads,
        k,
    )
}

/// What holds of everything that is found.
spec fn well_shaped(scan: Scan) -> bool {
    &&& bounded(scan.blocks)
    &&& scan.payloads.len() == scan.blocks.len()
    &&& is_fair(scan)
}

proof fn lemma_concat_contains(a: Seq<u64>, b: Seq<u64>, k: u64)
    ensures
        (a + b).contains(k) <==> a.contains(k) || b.contains(k),
{
    if a.contains(k) {
        let i = choose|i: int| 0 <= i < a.len() && a[i] == k;
        assert((a + b)[i] == k);
    }
    if b.contains(k) {
        let i = choose|i: int| 0 <= i < b.len() && b[i] == k;
        assert((a + b)[a.len() + i] == k);
    }
}

/// The cuts that come with a block.
proof fn lemma_cuts_of_block(block: Block, payload: Payload, k: u64)
    ensures
        (seq![key(block.client, block.clock as int), key(block.client, block.clock + block.len)]
            + neighbour_cuts(block.left, block.right) + starts_of(
            payload.chars(),
            block.client,
            block.clock as int,
        )).contains(k) <==> block_cuts(block, payload, k),
{
    let ends = seq![
        key(block.client, block.clock as int),
        key(block.client, block.clock + block.len),
    ];
    let beside = neighbour_cuts(block.left, block.right);
    let text = payload.chars();
    let starts = starts_of(text, block.client, block.clock as int);
    lemma_concat_contains(ends, beside, k);
    lemma_concat_contains(ends + beside, starts, k);
    assert(ends.contains(k) <==> k == ends[0] || k == ends[1]);
    assert(beside.contains(k) <==> {
        ||| block.left matches Some(id) && k == key(id.0, id.1 + 1)
        ||| block.right matches Some(id) && k == key(id.0, id.1 as int)
    }) by {
        if beside.len() > 0 {
            assert(beside[0] == beside[0] && beside[beside.len() - 1] == beside.last());
        }
        if let Some(id) = block.left {
            assert(beside[0] == key(id.0, id.1 + 1));
        }
        if let Some(id) = block.right {
            assert(beside.last() == key(id.0, id.1 as int));
        }
    }
    law_starts_of_characters(text, block.client, block.clock as int);
    if starts.contains(k) {
        let j = choose|j: int| 0 <= j < starts.len() && starts[j] == k;
        assert(k == key(block.client, block.clock + units_of(text.take(j))));
    }
    if payload matches Payload::Text(text) && exists|j: int|
        0 <= j < text.len() && k == key(block.client, block.clock + units_of(
            #[trigger] text.take(j),
        )) {
        let j = choose|j: int|
            0 <= j < text.len() && k == key(block.client, block.clock + units_of(
                #[trigger] text.take(j),
            ));
        assert(starts[j] == k);
    }
}

/// The cuts and the second halves of one more block.
proof fn lemma_one_more_block(
    blocks: Seq<Block>,
    payloads: Seq<Payload>,
    block: Block,
    payload: Payload,
    k: u64,
)
    requires
        payloads.len() == blocks.len(),
    ensures
        blocks_cut(blocks.push(block), payloads.push(payload), k) <==> blocks_cut(
            blocks,
            payloads,
            k,
        ) || block_cuts(block, payload, k),
        blocks_halve(blocks.push(block), payloads.push(payload), k) <==> blocks_halve(
            blocks,
            payloads,
            k,
        ) || block_halves(block, payload, k),
{
    let n = blocks.len() as int;
    let more = blocks.push(block);
    let payloads_more = payloads.push(payload);
    assert(more[n] == block && payloads_more[n] == payload);
    if blocks_cut(blocks, payloads, k) {
        let i = choose|i: int| 0 <= i < n && block_cuts(#[trigger] blocks[i], payloads[i], k);
        assert(block_cuts(more[i], payloads_more[i], k));
    }
    if blocks_halve(blocks, payloads, k) {
        let i = choose|i: int| 0 <= i < n && block_halves(#[trigger] blocks[i], payloads[i], k);
        assert(block_halves(more[i], payloads_more[i], k));
    }
    if blocks_cut(more, payloads_more, k) {
        let i = choose|i: int|
            0 <= i < n + 1 && block_cuts(#[trigger] more[i], payloads_more[i], k);
        if i < n {
            assert(block_cuts(blocks[i], payloads[i], k));
        }
    }
    if blocks_halve(more, payloads_more, k) {
        let i = choose|i: int|
            0 <= i < n + 1 && block_halves(#[trigger] more[i], payloads_more[i], k);
        if i < n {
            assert(block_halves(blocks[i], payloads[i], k));
        }
    }
}

/// One more block.
proof fn lemma_fair_with_block(scan: Scan, block: Block, payload: Payload, pos: nat)
    requires
        well_shaped(scan),
        block.len > 0 ==> is_fair_block(block, payload),
    ensures
        well_shaped(with_block(scan, block, payload, pos)),
{
    reveal(is_fair);
    let next = with_block(scan, block, payload, pos);
    if block.len > 0 {
        let text = payload.chars();
        let cuts = seq![
            key(block.client, block.clock as int),
            key(block.client, block.clock + block.len),
        ] + neighbour_cuts(block.left, block.right) + starts_of(
            text,
            block.client,
            block.clock as int,
        );
        let halves = halves_of(text, block.client, block.clock as int);
        assert(next.cuts =~= scan.cuts + cuts);
        assert(next.halves =~= scan.halves + halves);
        assert forall|k: u64| #[trigger] next.cuts.contains(k) <==> blocks_cut(
            next.blocks,
            next.payloads,
            k,
        ) || spans_cut(next.spans, k) by {
            lemma_concat_contains(scan.cuts, cuts, k);
            lemma_cuts_of_block(block, payload, k);
            lemma_one_more_block(scan.blocks, scan.payloads, block, payload, k);
            assert(scan.cuts.contains(k) <==> blocks_cut(scan.blocks, scan.payloads, k)
                || spans_cut(scan.spans, k));
        }
        assert forall|k: u64| #[trigger] next.halves.contains(k) <==> blocks_halve(
            next.blocks,
            next.payloads,
            k,
        ) by {
            lemma_concat_contains(scan.halves, halves, k);
            law_second_halves_of_characters(text, block.client, block.clock as int, k);
            assert(halves.contains(k) <==> block_halves(block, payload, k));
            lemma_one_more_block(scan.blocks, scan.payloads, block, payload, k);
            assert(scan.halves.contains(k) <==> blocks_halve(scan.blocks, scan.payloads, k));
        }
    }
}

/// The position does not matter.
proof fn lemma_fair_moved(scan: Scan, pos: nat)
    requires
        well_shaped(scan),
    ensures
        well_shaped(Scan { pos, ..scan }),
{
    reveal(is_fair);
}

/// One more range.
proof fn lemma_fair_with_span(scan: Scan, span: Span, pos: nat)
    requires
        well_shaped(scan),
        span.start < span.end <= CLOCK_LIMIT,
    ensures
        well_shaped(with_span(scan, span, pos)),
{
    reveal(is_fair);
    let next = with_span(scan, span, pos);
    let n = scan.spans.len() as int;
    let ends = seq![key(span.client, span.start as int), key(span.client, span.end as int)];
    assert(next.spans[n] == span);
    assert forall|k: u64| #[trigger] next.cuts.contains(k) <==> blocks_cut(
        next.blocks,
        next.payloads,
        k,
    ) || spans_cut(next.spans, k) by {
        lemma_concat_contains(scan.cuts, ends, k);
        assert(ends.contains(k) <==> k == ends[0] || k == ends[1]);
        assert(scan.cuts.contains(k) <==> blocks_cut(scan.blocks, scan.payloads, k) || spans_cut(
            scan.spans,
            k,
        ));
        if spans_cut(scan.spans, k) {
            let i = choose|i: int| 0 <= i < n && span_cuts(#[trigger] scan.spans[i], k);
            assert(span_cuts(next.spans[i], k));
        }
        if spans_cut(next.spans, k) {
            let i = choose|i: int| 0 <= i < n + 1 && span_cuts(#[trigger] next.spans[i], k);
            if i < n {
                assert(span_cuts(scan.spans[i], k));
            }
        }
    }
    assert forall|k: u64| #[trigger] next.halves.contains(k) <==> blocks_halve(
        next.blocks,
        next.payloads,
        k,
    ) by {
        assert(scan.halves.contains(k) <==> blocks_halve(scan.blocks, scan.payloads, k));
    }
}

proof fn lemma_block_shape(data: Seq<u8>, scan: Scan, client: u32, clock: u32)
    requires
        well_shaped(scan),
    ensures
        block_at(data, scan, client, clock) matches Some((_, next)) ==> well_shaped(next),
{
    reveal(block_at);
    if block_at(data, scan, client, clock) is Some {
        let info = data[scan.pos as int];
        if info == 10 || info == 0 {
            let (n, next) = u32_at(data, scan.pos + 1)->0;
            if info == 10 {
                lemma_fair_moved(scan, next);
            } else {
                let block = Block { client, clock, len: n, bytes: 0, left: None, right: None };
                lemma_fair_with_block(scan, block, Payload::Gone, next);
            }
        } else {
            let has_left = info >= 128;
            let has_right = info % 128 >= 64;
            let (left, p) = neighbour_at(data, scan.pos + 1, has_left)->0;
            let (right, q) = neighbour_at(data, p, has_right)->0;
            let r = parent_end(data, q, !has_left && !has_right, info % 64 >= 32)->0;
            let (n, payload, next) = content_at(data, r, info as int % 16)->0;
            let block = Block {
                client,
                clock,
                len: n as u32,
                bytes: payload.weight(n) as u64,
                left,
                right,
            };
            lemma_content_fair(data, r, info as int % 16);
            lemma_fair_with_block(scan, block, payload, next);
        }
    }
}

/// The length of what is found fits, and an object is one unit or more.
proof fn lemma_content_fair(data: Seq<u8>, pos: nat, kind: int)
    ensures
        content_at(data, pos, kind) matches Some((n, payload, _)) ==> {
            &&& payload matches Payload::Text(text) ==> n == units_of(text) && byte_len(text)
                <= u32::MAX
            &&& !(payload is Gone)
        },
{
    if kind == 4 && text_at(data, pos) is Some {
        let (n, next) = count_at(data, pos)->0;
        let bytes = data.subrange(next as int, next + n);
        decode_utf8_encode_utf8(bytes);
    }
}

proof fn lemma_blocks_shape(data: Seq<u8>, scan: Scan, client: u32, clock: u32, n: nat)
    requires
        well_shaped(scan),
    ensures
        blocks_at(data, scan, client, clock, n) matches Some(next) ==> well_shaped(next),
    decreases n,
{
    if n > 0 {
        lemma_block_shape(data, scan, client, clock);
        if let Some((len, next)) = block_at(data, scan, client, clock) {
            lemma_blocks_shape(data, next, client, (clock + len) as u32, (n - 1) as nat);
        }
    }
}

proof fn lemma_clients_shape(data: Seq<u8>, scan: Scan, n: nat)
    requires
        well_shaped(scan),
    ensures
        clients_at(data, scan, n) matches Some(next) ==> well_shaped(next),
    decreases n,
{
    if n > 0 {
        reveal(client_at);
        if let Some((k, p)) = count_at(data, scan.pos) {
            if let Some((client, q)) = u32_at(data, p) {
                if let Some((clock, r)) = u32_at(data, q) {
                    lemma_fair_moved(scan, r);
                    lemma_blocks_shape(
                        data,
                        Scan { pos: r, ..scan },
                        client,
                        clock,
                        k as nat,
                    );
                }
            }
        }
        if let Some(next) = client_at(data, scan) {
            lemma_clients_shape(data, next, (n - 1) as nat);
        }
    }
}

proof fn lemma_spans_shape(data: Seq<u8>, scan: Scan, client: u32, n: nat)
    requires
        well_shaped(scan),
    ensures
        spans_at(data, scan, client, n) matches Some(next) ==> well_shaped(next),
    decreases n,
{
    if n > 0 {
        if let Some((clock, p)) = u32_at(data, scan.pos) {
            if let Some((len, q)) = u32_at(data, p) {
                if 0 < len && clock + len <= CLOCK_LIMIT {
                    let span = Span { client, start: clock, end: (clock + len) as u32 };
                    lemma_fair_with_span(scan, span, q);
                    lemma_spans_shape(data, with_span(scan, span, q), client, (n - 1) as nat);
                }
            }
        }
    }
}

proof fn lemma_deletions_shape(data: Seq<u8>, scan: Scan, seen: Set<u32>, n: nat)
    requires
        well_shaped(scan),
    ensures
        deletions_at(data, scan, seen, n) matches Some(next) ==> well_shaped(next),
    decreases n,
{
    if n > 0 {
        if let Some((client, p)) = u32_at(data, scan.pos) {
            if let Some((m, q)) = count_at(data, p) {
                let start = Scan { pos: q, ..scan };
                lemma_fair_moved(scan, q);
                lemma_spans_shape(data, start, client, m as nat);
                if let Some(next) = spans_at(data, start, client, m as nat) {
                    lemma_deletions_shape(data, next, seen.insert(client), (n - 1) as nat);
                }
            }
        }
    }
}

/// What holds of the blocks of an update.
pub proof fn lemma_scan_shape(data: Seq<u8>)
    ensures
        scan_of(data) matches Some(scan) ==> bounded(scan.blocks) && scan.payloads.len()
            == scan.blocks.len() && is_fair(scan),
{
    reveal(scan_of);
    if let Some((n, p)) = count_at(data, 0) {
        let start = Scan::start(p);
        assert(well_shaped(start)) by {
            reveal(is_fair);
        }
        lemma_clients_shape(data, start, n as nat);
        if let Some(scan) = clients_at(data, start, n as nat) {
            if let Some((m, q)) = count_at(data, scan.pos) {
                lemma_fair_moved(scan, q);
                lemma_deletions_shape(data, Scan { pos: q, ..scan }, Set::empty(), m as nat);
            }
        }
    }
}

/// Whatever the bytes of a sound update are, its blocks stay within the limits and
/// were put beside units that were there; its deletions are of some units each; and
/// what is kept of where it divides content and of the second halves of its
/// characters is neither more nor less than its blocks and deletions say.
pub proof fn law_sound_update_is_fair(data: Seq<u8>, i: int, k: u64)
    requires
        is_sound(data),
    ensures
        ({
            let scan = scan_of(data)->0;
            &&& scan.payloads.len() == scan.blocks.len()
            &&& 0 <= i < scan.blocks.len() ==> is_fair_block(scan.blocks[i], scan.payloads[i])
            &&& 0 <= i < scan.spans.len() ==> scan.spans[i].start < scan.spans[i].end
                && scan.spans[i].end <= CLOCK_LIMIT
            &&& scan.cuts.contains(k) <==> blocks_cut(scan.blocks, scan.payloads, k) || spans_cut(
                scan.spans,
                k,
            )
            &&& scan.halves.contains(k) <==> blocks_halve(scan.blocks, scan.payloads, k)
        }),
{
    reveal(is_fair);
    lemma_scan_shape(data);
}

/// What the bytes of an update hold.
pub struct Contents {
    pub blocks: Vec<Block>,
    pub payloads: Ghost<Seq<Payload>>,
    pub spans: Vec<Span>,
    pub cuts: Vec<u64>,
    pub halves: Vec<u64>,
}

impl Contents {
    /// The contents, with the position `pos`.
    pub open spec fn scan(&self, pos: nat) -> Scan {
        Scan {
            pos,
            blocks: self.blocks@,
            payloads: self.payloads@,
            spans: self.spans@,
            cuts: self.cuts@,
            halves: self.halves@,
        }
    }
}

/// Whether `found` and a position is what `expected` says.
spec fn agree<T>(found: Option<(T, usize)>, expected: Option<(T, nat)>) -> bool {
    match found {
        Some((value, next)) => expected == Some((value, next as nat)),
        None => expected is None,
    }
}

/// Whether a position is the one that `expected` says.
spec fn agree_on_end(found: Option<usize>, expected: Option<nat>) -> bool {
    match found {
        Some(next) => expected == Some(next as nat),
        None => expected is None,
    }
}

/// Computes [`u32_at`].
fn read_u32(data: &[u8], pos: usize) -> (found: Option<(u32, usize)>)
    requires
        pos <= data@.len(),
    ensures
        agree(found, u32_at(data@, pos as nat)),
        found matches Some((_, next)) ==> pos < next <= data@.len(),
{
    let mut next: usize = pos;
    proof {
        lemma_varint_end(data@, pos as nat);
    }
    match read_varint(data, &mut next) {
        Some(n) => if n <= u32::MAX as u64 && next - pos <= 5 {
            Some((n as u32, next))
        } else {
            None
        },
        None => None,
    }
}

/// Computes [`count_at`].
fn read_count(data: &[u8], pos: usize) -> (found: Option<(u32, usize)>)
    requires
        pos <= data@.len(),
    ensures
        agree(found, count_at(data@, pos as nat)),
        found matches Some((n, next)) ==> pos < next && next + n <= data@.len() <= usize::MAX,
{
    match read_u32(data, pos) {
        Some((n, next)) => if n as usize <= data.len() - next {
            Some((n, next))
        } else {
            None
        },
        None => None,
    }
}

/// Computes [`buffer_end`].
fn skip_buffer(data: &[u8], pos: usize) -> (found: Option<usize>)
    requires
        pos <= data@.len(),
    ensures
        agree_on_end(found, buffer_end(data@, pos as nat)),
        found matches Some(next) ==> pos < next <= data@.len(),
{
    match read_count(data, pos) {
        Some((n, next)) => Some(next + n as usize),
        None => None,
    }
}

/// `std::str::from_utf8`: the text that the bytes are, if they are UTF-8.
#[verifier::external_body]
fn utf8_text(bytes: &[u8]) -> (text: Option<&str>)
    ensures
        match text {
            Some(s) => valid_utf8(bytes@) && s@ == decode_utf8(bytes@),
            None => !valid_utf8(bytes@),
        },
{
    std::str::from_utf8(bytes).ok()
}

/// Computes [`text_at`].
fn read_text<'a>(data: &'a [u8], pos: usize) -> (found: Option<(&'a str, usize)>)
    requires
        pos <= data@.len(),
    ensures
        match found {
            Some((text, next)) => text_at(data@, pos as nat) == Some((text@, next as nat)),
            None => text_at(data@, pos as nat) is None,
        },
        found matches Some((_, next)) ==> pos < next <= data@.len(),
{
    match read_count(data, pos) {
        Some((n, next)) => {
            let end: usize = next + n as usize;
            let bytes = vstd::slice::slice_subrange(data, next, end);
            match utf8_text(bytes) {
                Some(text) => Some((text, end)),
                None => None,
            }
        },
        None => None,
    }
}

/// Computes [`text_end`].
fn skip_text(data: &[u8], pos: usize) -> (found: Option<usize>)
    requires
        pos <= data@.len(),
    ensures
        agree_on_end(found, text_end(data@, pos as nat)),
        found matches Some(next) ==> pos < next <= data@.len(),
{
    match read_text(data, pos) {
        Some((_, next)) => Some(next),
        None => None,
    }
}

/// Computes [`unit_at`].
fn read_unit(data: &[u8], pos: usize) -> (found: Option<((u32, u32), usize)>)
    requires
        pos <= data@.len(),
    ensures
        agree(found, unit_at(data@, pos as nat)),
        found matches Some((unit, next)) ==> pos < next <= data@.len() && unit.1 < CLOCK_LIMIT,
{
    match read_u32(data, pos) {
        Some((client, p)) => match read_u32(data, p) {
            Some((clock, next)) => if clock < CLOCK_LIMIT {
                Some(((client, clock), next))
            } else {
                None
            },
            None => None,
        },
        None => None,
    }
}

/// Computes [`value_end`].
fn skip_value(data: &[u8], pos: usize, depth: u32) -> (found: Option<usize>)
    requires
        pos <= data@.len(),
    ensures
        agree_on_end(found, value_end(data@, pos as nat, depth as nat)),
        found matches Some(next) ==> pos < next <= data@.len(),
    decreases depth, 0nat,
{
    if depth == 0 || pos >= data.len() {
        return None;
    }
    let tag: u8 = data[pos];
    let rest: usize = data.len() - pos - 1;
    if tag == 127 || tag == 126 || tag == 121 || tag == 120 {
        Some(pos + 1)
    } else if tag == 125 {
        let mut next: usize = pos + 1;
        proof {
            lemma_varint_end(data@, (pos + 1) as nat);
        }
        match read_varint(data, &mut next) {
            Some(_) => if next - pos <= 9 {
                Some(next)
            } else {
                None
            },
            None => None,
        }
    } else if tag == 124 {
        if rest >= 4 {
            Some(pos + 5)
        } else {
            None
        }
    } else if tag == 123 || tag == 122 {
        if rest >= 8 {
            Some(pos + 9)
        } else {
            None
        }
    } else if tag == 119 {
        skip_text(data, pos + 1)
    } else if tag == 116 {
        skip_buffer(data, pos + 1)
    } else if tag == 118 || tag == 117 {
        match read_count(data, pos + 1) {
            Some((n, next)) => skip_values(data, next, n, tag == 118, depth - 1),
            None => None,
        }
    } else {
        None
    }
}

/// Computes [`values_end`].
fn skip_values(data: &[u8], pos: usize, n: u32, named: bool, depth: u32) -> (found: Option<usize>)
    requires
        pos <= data@.len(),
    ensures
        agree_on_end(found, values_end(data@, pos as nat, n as nat, named, depth as nat)),
        found matches Some(next) ==> pos <= next <= data@.len(),
    decreases depth, 1nat,
{
    let mut at: usize = pos;
    let mut left: u32 = n;
    while left > 0
        invariant
            pos <= at <= data@.len(),
            values_end(data@, pos as nat, n as nat, named, depth as nat) == values_end(
                data@,
                at as nat,
                left as nat,
                named,
                depth as nat,
            ),
        decreases left,
    {
        let value: usize = if named {
            match skip_text(data, at) {
                Some(p) => p,
                None => {
                    return None;
                },
            }
        } else {
            at
        };
        match skip_value(data, value, depth) {
            Some(next) => {
                at = next;
            },
            None => {
                return None;
            },
        }
        left -= 1;
    }
    Some(at)
}

/// A text has no more units than bytes.
proof fn lemma_units_fit(text: Seq<char>)
    ensures
        units_of(text) <= byte_len(text),
    decreases text.len(),
{
    if text.len() > 0 {
        lemma_units_fit(text.drop_last());
        lemma_byte_len_push(text.drop_last(), text.last());
        assert(text.drop_last().push(text.last()) =~= text);
    }
}

/// A part of a text has no more units than the text.
proof fn lemma_units_take(text: Seq<char>, n: int)
    requires
        0 <= n <= text.len(),
    ensures
        units_of(text.take(n)) <= units_of(text),
    decreases text.len() - n,
{
    if n < text.len() {
        lemma_units_take(text, n + 1);
        assert(text.take(n + 1).drop_last() =~= text.take(n));
    } else {
        assert(text.take(n) =~= text);
    }
}

/// Computes [`units_of`].
fn count_units(text: &str) -> (n: usize)
    ensures
        n == units_of(text@),
{
    let bytes: usize = text.as_bytes().len();
    proof {
        lemma_units_fit(text@);
    }
    let mut n: usize = 0;
    assert(text@.take(0) =~= Seq::empty());
    for c in it: text.chars()
        invariant
            it.seq() == text@,
            n == units_of(text@.take(it.index() as int)),
            units_of(text@) <= bytes,
    {
        proof {
            let i = it.index() as int;
            assert(text@.take(i + 1).drop_last() =~= text@.take(i));
            lemma_units_take(text@, i + 1);
        }
        n += if c as u32 >= 0x1_0000 {
            2usize
        } else {
            1usize
        };
    }
    assert(text@.take(text@.len() as int) =~= text@);
    n
}

/// Computes [`key`].
fn make_key(client: u32, clock: u32) -> (k: u64)
    ensures
        k == key(client, clock as int),
{
    client as u64 * 0x1_0000_0000 + clock as u64
}

/// Appends [`starts_of`] to `starts` and [`halves_of`] to `halves`.
fn push_marks(starts: &mut Vec<u64>, halves: &mut Vec<u64>, text: &str, client: u32, clock: u32)
    requires
        clock + units_of(text@) <= CLOCK_LIMIT,
    ensures
        final(starts)@ == old(starts)@ + starts_of(text@, client, clock as int),
        final(halves)@ == old(halves)@ + halves_of(text@, client, clock as int),
{
    let ghost first_starts = starts@;
    let ghost first_halves = halves@;
    let mut at: u32 = clock;
    assert(text@.take(0) =~= Seq::empty());
    assert(starts@ =~= first_starts + starts_of(text@.take(0), client, clock as int));
    assert(halves@ =~= first_halves + halves_of(text@.take(0), client, clock as int));
    for c in it: text.chars()
        invariant
            it.seq() == text@,
            clock + units_of(text@) <= CLOCK_LIMIT,
            at == clock + units_of(text@.take(it.index() as int)),
            starts@ == first_starts + starts_of(
                text@.take(it.index() as int),
                client,
                clock as int,
            ),
            halves@ == first_halves + halves_of(
                text@.take(it.index() as int),
                client,
                clock as int,
            ),
    {
        proof {
            let i = it.index() as int;
            assert(text@.take(i + 1).drop_last() =~= text@.take(i));
            assert(text@.take(i + 1).last() == c);
            lemma_units_take(text@, i + 1);
        }
        let ghost old_starts = starts@;
        let ghost old_halves = halves@;
        starts.push(make_key(client, at));
        assert(starts@ =~= old_starts.push(starts@.last()));
        if c as u32 >= 0x1_0000 {
            halves.push(make_key(client, at + 1));
            at += 2;
            assert(halves@ =~= old_halves.push(halves@.last()));
        } else {
            at += 1;
        }
        assert(starts@ =~= first_starts + starts_of(
            text@.take(it.index() as int + 1),
            client,
            clock as int,
        ));
        assert(halves@ =~= first_halves + halves_of(
            text@.take(it.index() as int + 1),
            client,
            clock as int,
        ));
    }
    assert(text@.take(text@.len() as int) =~= text@);
}

/// What a block of the given kind carries, with its text if it is text.
spec fn payload_of(kind: u8, text: Option<&str>) -> Payload {
    match text {
        Some(t) => Payload::Text(t@),
        None => if kind == 1 {
            Payload::Deleted
        } else {
            Payload::Other
        },
    }
}

/// Reads the content of a block that starts at `clock`: its number of units, its
/// text, and the position behind it.
fn read_content<'a>(data: &'a [u8], pos: usize, kind: u8, clock: u32) -> (found:
    Option<(u32, Option<&'a str>, usize)>)
    requires
        pos <= data@.len(),
        clock <= CLOCK_LIMIT,
    ensures
        match found {
            Some((n, text, next)) => {
                &&& content_at(data@, pos as nat, kind as int) == Some(
                    (n as nat, payload_of(kind, text), next as nat),
                )
                &&& clock + n <= CLOCK_LIMIT
                &&& text matches Some(t) ==> units_of(t@) == n
                &&& next <= data@.len()
            },
            None => content_at(data@, pos as nat, kind as int) matches Some(content) ==> clock
                + content.0 > CLOCK_LIMIT,
        },
{
    let room: u32 = CLOCK_LIMIT - clock;
    let (n, text, next): (u32, Option<&'a str>, usize) = if kind == 1 {
        match read_u32(data, pos) {
            Some((n, next)) => (n, None, next),
            None => {
                return None;
            },
        }
    } else if kind == 3 {
        match skip_buffer(data, pos) {
            Some(next) => (1, None, next),
            None => {
                return None;
            },
        }
    } else if kind == 4 {
        match read_text(data, pos) {
            Some((text, next)) => {
                let n: usize = count_units(text);
                if n > room as usize {
                    return None;
                }
                (n as u32, Some(text), next)
            },
            None => {
                return None;
            },
        }
    } else if kind == 5 {
        match skip_text(data, pos) {
            Some(next) => (1, None, next),
            None => {
                return None;
            },
        }
    } else if kind == 6 {
        match skip_text(data, pos) {
            Some(p) => match skip_text(data, p) {
                Some(next) => (1, None, next),
                None => {
                    return None;
                },
            },
            None => {
                return None;
            },
        }
    } else if kind == 8 {
        match read_count(data, pos) {
            Some((n, p)) => match skip_values(data, p, n, false, MAX_NESTING) {
                Some(next) => (n, None, next),
                None => {
                    return None;
                },
            },
            None => {
                return None;
            },
        }
    } else {
        return None;
    };
    if n > room {
        None
    } else {
        Some((n, text, next))
    }
}

/// Computes [`neighbour_at`].
fn read_neighbour(data: &[u8], pos: usize, there: bool) -> (found: Option<
    (Option<(u32, u32)>, usize),
>)
    requires
        pos <= data@.len(),
    ensures
        agree(found, neighbour_at(data@, pos as nat, there)),
        found matches Some((unit, next)) ==> next <= data@.len() && (unit matches Some(id)
            ==> id.1 < CLOCK_LIMIT),
{
    if there {
        match read_unit(data, pos) {
            Some((unit, next)) => Some((Some(unit), next)),
            None => None,
        }
    } else {
        Some((None, pos))
    }
}

/// Computes [`is_earlier`].
fn check_earlier(unit: Option<(u32, u32)>, client: u32, clock: u32) -> (earlier: bool)
    ensures
        earlier == is_earlier(unit, client, clock as int),
{
    match unit {
        Some(id) => id.0 != client || id.1 < clock,
        None => true,
    }
}

/// Computes [`parent_end`].
fn skip_parent(data: &[u8], pos: usize, there: bool, entry: bool) -> (found: Option<usize>)
    requires
        pos <= data@.len(),
    ensures
        agree_on_end(found, parent_end(data@, pos as nat, there, entry)),
        found matches Some(next) ==> next <= data@.len(),
{
    if !there {
        return Some(pos);
    }
    match read_u32(data, pos) {
        Some((is_root, p)) => if is_root == 1 && !entry {
            match read_text(data, p) {
                Some((name, next)) => if same_text(name, ROOT) {
                    Some(next)
                } else {
                    None
                },
                None => None,
            }
        } else {
            None
        },
        None => None,
    }
}

impl Contents {
    /// Adds a block as [`with_block`] does.
    fn push_block(
        &mut self,
        block: Block,
        text: Option<&str>,
        Ghost(payload): Ghost<Payload>,
        Ghost(pos): Ghost<nat>,
    )
        requires
            block.clock + block.len <= CLOCK_LIMIT,
            block.left matches Some(id) ==> id.1 < CLOCK_LIMIT,
            block.right matches Some(id) ==> id.1 < CLOCK_LIMIT,
            bounded(old(self).blocks@),
            text matches Some(t) ==> units_of(t@) == block.len,
            payload.chars() == (match text {
                Some(t) => t@,
                None => Seq::empty(),
            }),
        ensures
            bounded(final(self).blocks@),
            final(self).scan(pos) == with_block(
                old(self).scan(pos),
                block,
                payload,
                pos,
            ),
    {
        if block.len == 0 {
            return;
        }
        let ghost before = self.scan(pos);
        self.blocks.push(block);
        proof {
            self.payloads@ = self.payloads@.push(payload);
        }
        self.cuts.push(make_key(block.client, block.clock));
        self.cuts.push(make_key(block.client, block.clock + block.len));
        if let Some(id) = block.left {
            self.cuts.push(make_key(id.0, id.1 + 1));
        }
        if let Some(id) = block.right {
            self.cuts.push(make_key(id.0, id.1));
        }
        if let Some(t) = text {
            push_marks(&mut self.cuts, &mut self.halves, t, block.client, block.clock);
        }
        proof {
            let after = with_block(before, block, payload, pos);
            assert(self.cuts@ =~= after.cuts);
            assert(self.halves@ =~= after.halves);
            assert(self.blocks@ =~= after.blocks);
            assert(self.payloads@ =~= after.payloads);
        }
    }

    /// Reads a block as [`block_at`] does.
    fn read_block(&mut self, data: &[u8], pos: usize, client: u32, clock: u32) -> (found: Option<
        (u32, usize),
    >)
        requires
            pos <= data@.len(),
            clock <= CLOCK_LIMIT,
            bounded(old(self).blocks@),
        ensures
            bounded(final(self).blocks@),
            match found {
                Some((n, next)) => {
                    &&& block_at(data@, old(self).scan(pos as nat), client, clock) == Some(
                        (n, final(self).scan(next as nat)),
                    )
                    &&& clock + n <= CLOCK_LIMIT
                    &&& next <= data@.len()
                },
                None => block_at(data@, old(self).scan(pos as nat), client, clock) is None,
            },
    {
        proof {
            reveal(block_at);
        }
        if pos >= data.len() {
            return None;
        }
        let info: u8 = data[pos];
        if info == 10 || info == 0 {
            return match read_u32(data, pos + 1) {
                Some((n, next)) => if 0 < n && n <= CLOCK_LIMIT - clock {
                    if info == 0 {
                        let block = Block {
                            client,
                            clock,
                            len: n,
                            bytes: 0,
                            left: None,
                            right: None,
                        };
                        self.push_block(block, None, Ghost(Payload::Gone), Ghost(next as nat));
                        assert(with_block(
                            old(self).scan(pos as nat),
                            block,
                            Payload::Gone,
                            next as nat,
                        ) == with_block(
                            old(self).scan(next as nat),
                            block,
                            Payload::Gone,
                            next as nat,
                        ));
                    }
                    Some((n, next))
                } else {
                    None
                },
                None => None,
            };
        }
        let has_left: bool = info >= 128;
        let has_right: bool = info % 128 >= 64;
        let has_entry: bool = info % 64 >= 32;
        let (left, p): (Option<(u32, u32)>, usize) = match read_neighbour(
            data,
            pos + 1,
            has_left,
        ) {
            Some(found) => found,
            None => {
                return None;
            },
        };
        let (right, q): (Option<(u32, u32)>, usize) = match read_neighbour(data, p, has_right) {
            Some(found) => found,
            None => {
                return None;
            },
        };
        let r: usize = match skip_parent(data, q, !has_left && !has_right, has_entry) {
            Some(found) => found,
            None => {
                return None;
            },
        };
        match read_content(data, r, info % 16, clock) {
            Some((n, text, next)) => {
                if !check_earlier(left, client, clock) || !check_earlier(right, client, clock) {
                    return None;
                }
                let kind: u8 = info % 16;
                let bytes: u64 = match text {
                    Some(t) => t.as_bytes().len() as u64,
                    None => if kind == 1 {
                        0
                    } else {
                        n as u64
                    },
                };
                let block = Block { client, clock, len: n, bytes, left, right };
                self.push_block(
                    block,
                    text,
                    Ghost(payload_of(kind, text)),
                    Ghost(next as nat),
                );
                Some((n, next))
            },
            None => None,
        }
    }

    /// Reads the blocks of one client as [`client_at`] does.
    fn read_client(&mut self, data: &[u8], pos: usize) -> (found: Option<usize>)
        requires
            pos <= data@.len(),
            bounded(old(self).blocks@),
        ensures
            bounded(final(self).blocks@),
            match found {
                Some(next) => client_at(data@, old(self).scan(pos as nat)) == Some(
                    final(self).scan(next as nat),
                ) && next <= data@.len(),
                None => client_at(data@, old(self).scan(pos as nat)) is None,
            },
    {
        proof {
            reveal(client_at);
        }
        let (n, p): (u32, usize) = match read_count(data, pos) {
            Some(found) => found,
            None => {
                return None;
            },
        };
        let (client, q): (u32, usize) = match read_u32(data, p) {
            Some(found) => found,
            None => {
                return None;
            },
        };
        let (first, r): (u32, usize) = match read_u32(data, q) {
            Some(found) => found,
            None => {
                return None;
            },
        };
        if first > CLOCK_LIMIT {
            return None;
        }
        let before: usize = self.blocks.len();
        let ghost all = blocks_at(
            data@,
            Scan { pos: r as nat, ..old(self).scan(pos as nat) },
            client,
            first,
            n as nat,
        );
        let mut at: usize = r;
        let mut clock: u32 = first;
        let mut left: u32 = n;
        assert(self.scan(r as nat) == (Scan { pos: r as nat, ..old(self).scan(pos as nat) }));
        while left > 0
            invariant
                at <= data@.len(),
                clock <= CLOCK_LIMIT,
                bounded(self.blocks@),
                all is None ==> client_at(data@, old(self).scan(pos as nat)) is None,
                all == blocks_at(data@, self.scan(at as nat), client, clock, left as nat),
            decreases left,
        {
            match self.read_block(data, at, client, clock) {
                Some((len, next)) => {
                    clock = clock + len;
                    at = next;
                },
                None => {
                    assert(all is None);
                    return None;
                },
            }
            left -= 1;
        }
        if self.blocks.len() > before {
            Some(at)
        } else {
            None
        }
    }

    /// Reads the ranges of one client as [`spans_at`] does.
    fn read_spans(&mut self, data: &[u8], pos: usize, client: u32, n: u32) -> (found: Option<
        usize,
    >)
        requires
            pos <= data@.len(),
            bounded(old(self).blocks@),
        ensures
            bounded(final(self).blocks@),
            match found {
                Some(next) => spans_at(data@, old(self).scan(pos as nat), client, n as nat)
                    == Some(final(self).scan(next as nat)) && next <= data@.len(),
                None => spans_at(data@, old(self).scan(pos as nat), client, n as nat) is None,
            },
    {
        let ghost all = spans_at(data@, old(self).scan(pos as nat), client, n as nat);
        let mut at: usize = pos;
        let mut left: u32 = n;
        while left > 0
            invariant
                at <= data@.len(),
                bounded(self.blocks@),
                all == spans_at(data@, old(self).scan(pos as nat), client, n as nat),
                all == spans_at(data@, self.scan(at as nat), client, left as nat),
            decreases left,
        {
            let (clock, p): (u32, usize) = match read_u32(data, at) {
                Some(found) => found,
                None => {
                    assert(all is None);
                    return None;
                },
            };
            let (len, q): (u32, usize) = match read_u32(data, p) {
                Some(found) => found,
                None => {
                    assert(all is None);
                    return None;
                },
            };
            if len == 0 || clock > CLOCK_LIMIT || len > CLOCK_LIMIT - clock {
                assert(all is None);
                return None;
            }
            let span = Span { client, start: clock, end: clock + len };
            let ghost before = self.scan(at as nat);
            self.spans.push(span);
            self.cuts.push(make_key(client, clock));
            self.cuts.push(make_key(client, clock + len));
            proof {
                let after = with_span(before, span, q as nat);
                assert(self.cuts@ =~= after.cuts);
                assert(self.scan(q as nat) == after);
            }
            at = q;
            left -= 1;
        }
        Some(at)
    }
}

/// Finds out what the bytes of an update hold. `None` if they are not sound.
pub fn scan(data: &[u8]) -> (found: Option<Contents>)
    ensures
        match found {
            Some(contents) => {
                &&& scan_of(data@) matches Some(scan)
                &&& contents.scan(scan.pos) == scan
                &&& bounded(contents.blocks@)
            },
            None => !is_sound(data@),
        },
{
    proof {
        reveal(scan_of);
    }
    let (n, start): (u32, usize) = match read_count(data, 0) {
        Some(found) => found,
        None => {
            return None;
        },
    };
    let mut contents = Contents {
        blocks: Vec::new(),
        payloads: Ghost(Seq::empty()),
        spans: Vec::new(),
        cuts: Vec::new(),
        halves: Vec::new(),
    };
    let ghost blocks = clients_at(data@, Scan::start(start as nat), n as nat);
    let mut at: usize = start;
    let mut left: u32 = n;
    assert(contents.scan(start as nat) =~= Scan::start(start as nat));
    while left > 0
        invariant
            at <= data@.len(),
            bounded(contents.blocks@),
            blocks is None ==> scan_of(data@) is None,
            blocks == clients_at(data@, contents.scan(at as nat), left as nat),
        decreases left,
    {
        match contents.read_client(data, at) {
            Some(next) => {
                at = next;
            },
            None => {
                assert(blocks is None);
                return None;
            },
        }
        left -= 1;
    }
    let (m, first): (u32, usize) = match read_count(data, at) {
        Some(found) => found,
        None => {
            return None;
        },
    };
    let ghost all = scan_of(data@);
    at = first;
    left = m;
    let mut seen: HashSet<u32> = HashSet::new();
    assert(all == deletions_at(data@, contents.scan(at as nat), seen@, left as nat));
    while left > 0
        invariant
            at <= data@.len(),
            bounded(contents.blocks@),
            all == scan_of(data@),
            all == deletions_at(data@, contents.scan(at as nat), seen@, left as nat),
        decreases left,
    {
        let (client, p): (u32, usize) = match read_u32(data, at) {
            Some(found) => found,
            None => {
                assert(all is None);
                return None;
            },
        };
        let (k, q): (u32, usize) = match read_count(data, p) {
            Some(found) => found,
            None => {
                assert(all is None);
                return None;
            },
        };
        if k == 0 || seen.contains(&client) {
            assert(all is None);
            return None;
        }
        seen.insert(client);
        match contents.read_spans(data, q, client, k) {
            Some(next) => {
                at = next;
            },
            None => {
                assert(all is None);
                return None;
            },
        }
        left -= 1;
    }
    Some(contents)
}

/// Tells whether a state vector can have as many entries as it declares.
pub fn check_entries(data: &[u8]) -> (fit: bool)
    ensures
        fit == entries_fit(data@),
{
    match read_u32(data, 0) {
        Some((n, next)) => n as usize <= (data.len() - next) / 2,
        None => false,
    }
}

} // verus!

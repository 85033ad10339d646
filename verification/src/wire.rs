//! How updates are laid out in bytes by the programs that make them.
//!
//! This is the other side of [`crate::update`]: what an author of updates puts on
//! the wire. Numbers are variable-length integers, texts are UTF-8 with their
//! length in front. An update is the number of its authors, the blocks of each
//! one, the number of authors of what it deletes, and the ranges of each of these.
use vstd::prelude::*;
use vstd::utf8::{encode_utf8, encode_utf8_decode_utf8, encode_utf8_valid_utf8, valid_utf8};
use crate::convergence::law_nothing_waits_without_a_reason;
use crate::crdt::{gathered, EngineView};
use crate::history::{block_ids, held_ids, is_update, uncut};
use crate::protocol::{
    base128, is_delimited, law_varint_of_any_writer_is_read, law_varint_round_trip,
    lemma_base128_bound, lemma_varint_end, lemma_varint_len, varint, varint_at, varint_groups,
};
use crate::ready::{
    all_of, carries, law_new_bytes_add_up, law_ready_if_nothing_is_missing, one_carries, BlockId,
};
use crate::replica::decodes;
use crate::text::byte_len;
use crate::update::{
    block_at, blocks_at, buffer_end, client_at, clients_at, content_at, count_at, deletions_at,
    entries_fit, is_sound, item_at, law_units_are_utf16_code_units, lemma_scan_shape, neighbour_at,
    parent_end, scan_of, spans_at, text_at, text_end, u32_at, units_of, value_end, values_end,
    with_block, with_span, Block, Payload, Scan, Span, CLOCK_LIMIT, MAX_NESTING,
};

verus! {

/// A value of the JSON kind.
pub enum Value {
    Undefined,
    Null,
    True,
    False,
    /// An integer, by its digits: six bits and the sign in the first byte, seven bits
    /// in each that follows, and the high bit set on all bytes but the last.
    Integer(Seq<u8>),
    /// A number of four bytes.
    Short(Seq<u8>),
    /// A number of eight bytes.
    Long(Seq<u8>),
    /// An integer of eight bytes.
    Big(Seq<u8>),
    Text(Seq<char>),
    Bytes(Seq<u8>),
    Array(Seq<Value>),
    /// Values, each with its name.
    Object(Seq<Seq<char>>, Seq<Value>),
}

impl Value {
    /// The byte that says what it is, and what follows it.
    pub open spec fn encoding(self) -> Seq<u8>
        decreases self,
    {
        match self {
            Value::Undefined => seq![127u8],
            Value::Null => seq![126u8],
            Value::Integer(digits) => seq![125u8] + digits,
            Value::Short(bytes) => seq![124u8] + bytes,
            Value::Long(bytes) => seq![123u8] + bytes,
            Value::Big(bytes) => seq![122u8] + bytes,
            Value::False => seq![121u8],
            Value::True => seq![120u8],
            Value::Text(text) => seq![119u8] + text_encoding(text),
            Value::Object(names, values) => seq![118u8] + varint(values.len()) + named_encoding(
                names,
                values,
            ),
            Value::Array(values) => seq![117u8] + varint(values.len()) + values_encoding(values),
            Value::Bytes(bytes) => seq![116u8] + varint(bytes.len()) + bytes,
        }
    }

    /// Its lengths can be written down, and it is nested less than `depth` deep.
    pub open spec fn is_valid(self, depth: nat) -> bool
        decreases depth,
    {
        &&& depth > 0
        &&& match self {
            Value::Integer(digits) => is_delimited(digits) && digits.len() <= 8,
            Value::Short(bytes) => bytes.len() == 4,
            Value::Long(bytes) => bytes.len() == 8,
            Value::Big(bytes) => bytes.len() == 8,
            Value::Text(text) => byte_len(text) <= u32::MAX,
            Value::Bytes(bytes) => bytes.len() <= u32::MAX,
            Value::Array(values) => {
                &&& values.len() <= u32::MAX
                &&& forall|i: int|
                    0 <= i < values.len() ==> (#[trigger] values[i]).is_valid((depth - 1) as nat)
            },
            Value::Object(names, values) => {
                &&& values.len() <= u32::MAX
                &&& names.len() == values.len()
                &&& forall|i: int|
                    0 <= i < names.len() ==> byte_len(#[trigger] names[i]) <= u32::MAX
                &&& forall|i: int|
                    0 <= i < values.len() ==> (#[trigger] values[i]).is_valid((depth - 1) as nat)
            },
            _ => true,
        }
    }
}

/// Some values in a row.
pub open spec fn values_encoding(values: Seq<Value>) -> Seq<u8>
    decreases values,
{
    if values.len() == 0 {
        Seq::empty()
    } else {
        values[0].encoding() + values_encoding(values.drop_first())
    }
}

/// Some values in a row, each with its name in front.
pub open spec fn named_encoding(names: Seq<Seq<char>>, values: Seq<Value>) -> Seq<u8>
    decreases values,
{
    if values.len() == 0 {
        Seq::empty()
    } else {
        text_encoding(names[0]) + values[0].encoding() + named_encoding(
            names.drop_first(),
            values.drop_first(),
        )
    }
}

/// What an author puts into a block.
pub enum Part {
    /// Characters.
    Text(Seq<char>),
    /// Units that were deleted.
    Deleted(u32),
    /// Units of which nothing is left.
    Gone(u32),
    /// Units that come with another update.
    Skipped(u32),
    /// Bytes.
    Binary(Seq<u8>),
    /// An object, in JSON.
    Embed(Seq<char>),
    /// The name of a format, and its value in JSON.
    Format(Seq<char>, Seq<char>),
    /// Values.
    Values(Seq<Value>),
}

impl Part {
    /// How many units it is.
    pub open spec fn units(self) -> nat {
        match self {
            Part::Text(text) => units_of(text),
            Part::Deleted(n) => n as nat,
            Part::Gone(n) => n as nat,
            Part::Skipped(n) => n as nat,
            Part::Values(values) => values.len(),
            _ => 1,
        }
    }

    /// By how many bytes it can make a text longer.
    pub open spec fn bytes(self) -> nat {
        match self {
            Part::Text(text) => encode_utf8(text).len(),
            Part::Binary(_) => 1,
            Part::Embed(_) => 1,
            Part::Format(_, _) => 1,
            Part::Values(values) => values.len(),
            _ => 0,
        }
    }

    /// Whether it has neither a place in the text nor neighbours.
    pub open spec fn is_bare(self) -> bool {
        self is Gone || self is Skipped
    }

    /// The number of its kind.
    pub open spec fn kind(self) -> int {
        match self {
            Part::Gone(_) => 0,
            Part::Deleted(_) => 1,
            Part::Binary(_) => 3,
            Part::Text(_) => 4,
            Part::Embed(_) => 5,
            Part::Format(_, _) => 6,
            Part::Values(_) => 8,
            Part::Skipped(_) => 10,
        }
    }

    /// Its bytes, behind the first byte of the block and what says where it stands.
    pub open spec fn encoding(self) -> Seq<u8> {
        match self {
            Part::Text(text) => text_encoding(text),
            Part::Deleted(n) => varint(n as nat),
            Part::Gone(n) => varint(n as nat),
            Part::Skipped(n) => varint(n as nat),
            Part::Binary(bytes) => varint(bytes.len()) + bytes,
            Part::Embed(json) => text_encoding(json),
            Part::Format(name, json) => text_encoding(name) + text_encoding(json),
            Part::Values(values) => varint(values.len()) + values_encoding(values),
        }
    }

    /// Its lengths can be written down, it is not nothing where nothing is told of it but
    /// a number, and values are nested less than 64 deep.
    pub open spec fn is_valid(self) -> bool {
        match self {
            Part::Text(text) => byte_len(text) <= u32::MAX,
            Part::Deleted(_) => true,
            Part::Gone(n) => n > 0,
            Part::Skipped(n) => n > 0,
            Part::Binary(bytes) => bytes.len() <= u32::MAX,
            Part::Embed(json) => byte_len(json) <= u32::MAX,
            Part::Format(name, json) => byte_len(name) <= u32::MAX && byte_len(json) <= u32::MAX,
            Part::Values(values) => {
                &&& values.len() <= u32::MAX
                &&& forall|i: int|
                    0 <= i < values.len() ==> (#[trigger] values[i]).is_valid(64)
            },
        }
    }

    /// What is found in it.
    pub open spec fn payload(self) -> Payload {
        match self {
            Part::Text(text) => Payload::Text(text),
            Part::Deleted(_) => Payload::Deleted,
            Part::Gone(_) => Payload::Gone,
            _ => Payload::Other,
        }
    }
}

/// A block, with the units that it was put between.
pub struct Piece {
    pub left: Option<(u32, u32)>,
    pub right: Option<(u32, u32)>,
    pub part: Part,
}

/// The blocks that one author made one after the other, the first of them after
/// `clock` units.
pub struct Author {
    pub client: u32,
    pub clock: u32,
    pub pieces: Seq<Piece>,
}

/// The ranges of one author that are deleted, each by its first unit and its
/// length.
pub struct Removal {
    pub client: u32,
    pub ranges: Seq<(u32, u32)>,
}

/// An update as its author sees it.
pub struct Layout {
    pub authors: Seq<Author>,
    pub removals: Seq<Removal>,
}

/// A text with its length in front.
pub open spec fn text_encoding(text: Seq<char>) -> Seq<u8> {
    varint(encode_utf8(text).len()) + encode_utf8(text)
}

/// A unit: its client and its clock.
pub open spec fn unit_encoding(unit: (u32, u32)) -> Seq<u8> {
    varint(unit.0 as nat) + varint(unit.1 as nat)
}

/// A neighbour, if there is one.
pub open spec fn neighbour_encoding(unit: Option<(u32, u32)>) -> Seq<u8> {
    match unit {
        Some(unit) => unit_encoding(unit),
        None => Seq::empty(),
    }
}

impl Piece {
    /// The first byte: the kind, and which neighbours follow.
    pub open spec fn info(self) -> u8 {
        (self.part.kind() + (if self.left is Some {
            128int
        } else {
            0
        }) + (if self.right is Some {
            64int
        } else {
            0
        })) as u8
    }

    /// Where it stands: its neighbours, or the root text if it has none.
    pub open spec fn place_encoding(self) -> Seq<u8> {
        if self.part.is_bare() {
            Seq::empty()
        } else if self.left is None && self.right is None {
            varint(1) + text_encoding("content"@)
        } else {
            neighbour_encoding(self.left) + neighbour_encoding(self.right)
        }
    }

    /// Its bytes.
    pub open spec fn encoding(self) -> Seq<u8> {
        seq![self.info()] + self.place_encoding() + self.part.encoding()
    }

    /// Whether `client` can have made it after `clock` units.
    pub open spec fn is_valid(self, client: u32, clock: nat) -> bool {
        &&& self.part.is_valid()
        &&& clock + self.part.units() <= CLOCK_LIMIT
        &&& self.part.is_bare() ==> self.left is None && self.right is None
        &&& can_be_beside(self.left, client, clock)
        &&& can_be_beside(self.right, client, clock)
    }

    /// The block that is found, if there is something in it.
    pub open spec fn blocks(self, client: u32, clock: nat) -> Seq<Block> {
        if self.part is Skipped || self.part.units() == 0 {
            Seq::empty()
        } else {
            seq![
                Block {
                    client,
                    clock: clock as u32,
                    len: self.part.units() as u32,
                    bytes: self.part.bytes() as u64,
                    left: self.left,
                    right: self.right,
                },
            ]
        }
    }

    /// What is found in that block.
    pub open spec fn payloads(self) -> Seq<Payload> {
        if self.part is Skipped || self.part.units() == 0 {
            Seq::empty()
        } else {
            seq![self.part.payload()]
        }
    }
}

/// Whether a block of `client` can be put beside a unit after `clock` units: the
/// unit was there, if `client` made it.
pub open spec fn can_be_beside(unit: Option<(u32, u32)>, client: u32, clock: nat) -> bool {
    unit matches Some(id) ==> id.1 < CLOCK_LIMIT && (id.0 == client ==> id.1 < clock)
}

/// Some blocks in a row.
pub open spec fn pieces_encoding(pieces: Seq<Piece>) -> Seq<u8>
    decreases pieces.len(),
{
    if pieces.len() == 0 {
        Seq::empty()
    } else {
        pieces[0].encoding() + pieces_encoding(pieces.drop_first())
    }
}

/// Whether `client` can have made some blocks in a row after `clock` units.
pub open spec fn pieces_valid(client: u32, clock: nat, pieces: Seq<Piece>) -> bool
    decreases pieces.len(),
{
    pieces.len() > 0 ==> pieces[0].is_valid(client, clock) && pieces_valid(
        client,
        clock + pieces[0].part.units(),
        pieces.drop_first(),
    )
}

/// The blocks that are found in some pieces.
pub open spec fn pieces_blocks(client: u32, clock: nat, pieces: Seq<Piece>) -> Seq<Block>
    decreases pieces.len(),
{
    if pieces.len() == 0 {
        Seq::empty()
    } else {
        pieces[0].blocks(client, clock) + pieces_blocks(
            client,
            clock + pieces[0].part.units(),
            pieces.drop_first(),
        )
    }
}

/// What is found in the blocks.
pub open spec fn pieces_payloads(pieces: Seq<Piece>) -> Seq<Payload>
    decreases pieces.len(),
{
    if pieces.len() == 0 {
        Seq::empty()
    } else {
        pieces[0].payloads() + pieces_payloads(pieces.drop_first())
    }
}

impl Author {
    /// Its bytes: how many blocks there are, the client, the clock of the first unit, and
    /// the blocks.
    pub open spec fn encoding(self) -> Seq<u8> {
        varint(self.pieces.len()) + varint(self.client as nat) + varint(self.clock as nat)
            + pieces_encoding(self.pieces)
    }

    /// The blocks can have been made one after the other, and there is something in
    /// them.
    pub open spec fn is_valid(self) -> bool {
        &&& self.pieces.len() <= u32::MAX
        &&& self.clock <= CLOCK_LIMIT
        &&& pieces_valid(self.client, self.clock as nat, self.pieces)
        &&& pieces_payloads(self.pieces).len() > 0
    }
}

/// Some authors in a row.
pub open spec fn authors_encoding(authors: Seq<Author>) -> Seq<u8>
    decreases authors.len(),
{
    if authors.len() == 0 {
        Seq::empty()
    } else {
        authors[0].encoding() + authors_encoding(authors.drop_first())
    }
}

/// The blocks that are found of some authors.
pub open spec fn authors_blocks(authors: Seq<Author>) -> Seq<Block>
    decreases authors.len(),
{
    if authors.len() == 0 {
        Seq::empty()
    } else {
        pieces_blocks(authors[0].client, authors[0].clock as nat, authors[0].pieces)
            + authors_blocks(authors.drop_first())
    }
}

/// What is found in these blocks.
pub open spec fn authors_payloads(authors: Seq<Author>) -> Seq<Payload>
    decreases authors.len(),
{
    if authors.len() == 0 {
        Seq::empty()
    } else {
        pieces_payloads(authors[0].pieces) + authors_payloads(authors.drop_first())
    }
}

/// Some ranges in a row.
pub open spec fn ranges_encoding(ranges: Seq<(u32, u32)>) -> Seq<u8>
    decreases ranges.len(),
{
    if ranges.len() == 0 {
        Seq::empty()
    } else {
        unit_encoding(ranges[0]) + ranges_encoding(ranges.drop_first())
    }
}

/// Some ranges of a client, each from its first unit up to the unit behind it.
pub open spec fn ranges_spans(client: u32, ranges: Seq<(u32, u32)>) -> Seq<Span> {
    ranges.map_values(
        |range: (u32, u32)| Span { client, start: range.0, end: (range.0 + range.1) as u32 },
    )
}

impl Removal {
    /// Its bytes: the client, how many ranges there are, and the ranges.
    pub open spec fn encoding(self) -> Seq<u8> {
        varint(self.client as nat) + varint(self.ranges.len()) + ranges_encoding(self.ranges)
    }

    /// There are ranges, and each has some units and stays within the limit of clocks.
    pub open spec fn is_valid(self) -> bool {
        &&& 0 < self.ranges.len() <= u32::MAX
        &&& forall|i: int|
            0 <= i < self.ranges.len() ==> 0 < (#[trigger] self.ranges[i]).1 && self.ranges[i].0
                + self.ranges[i].1 <= CLOCK_LIMIT
    }
}

/// The deletions of some clients in a row.
pub open spec fn removals_encoding(removals: Seq<Removal>) -> Seq<u8>
    decreases removals.len(),
{
    if removals.len() == 0 {
        Seq::empty()
    } else {
        removals[0].encoding() + removals_encoding(removals.drop_first())
    }
}

/// The ranges that are found in them.
pub open spec fn removals_spans(removals: Seq<Removal>) -> Seq<Span>
    decreases removals.len(),
{
    if removals.len() == 0 {
        Seq::empty()
    } else {
        ranges_spans(removals[0].client, removals[0].ranges) + removals_spans(
            removals.drop_first(),
        )
    }
}

impl Layout {
    /// Its bytes.
    pub open spec fn encoding(self) -> Seq<u8> {
        varint(self.authors.len()) + authors_encoding(self.authors) + varint(self.removals.len())
            + removals_encoding(self.removals)
    }

    /// Its parts are valid, and no client has its deletions in two places.
    pub open spec fn is_valid(self) -> bool {
        &&& self.authors.len() <= u32::MAX
        &&& forall|i: int| 0 <= i < self.authors.len() ==> (#[trigger] self.authors[i]).is_valid()
        &&& self.removals.len() <= u32::MAX
        &&& forall|i: int|
            0 <= i < self.removals.len() ==> (#[trigger] self.removals[i]).is_valid()
        &&& forall|i: int, j: int|
            0 <= i < j < self.removals.len() ==> (#[trigger] self.removals[i]).client != (
            #[trigger] self.removals[j]).client
    }
}

/// Whether `data` has `bytes` at `pos`.
spec fn has_at(data: Seq<u8>, pos: nat, bytes: Seq<u8>) -> bool {
    pos + bytes.len() <= data.len() && data.subrange(pos as int, (pos + bytes.len()) as int)
        == bytes
}

/// What is there in a row is there one by one.
proof fn lemma_has_both(data: Seq<u8>, pos: nat, a: Seq<u8>, b: Seq<u8>)
    requires
        has_at(data, pos, a + b),
    ensures
        has_at(data, pos, a),
        has_at(data, pos + a.len(), b),
{
    let all = data.subrange(pos as int, (pos + (a + b).len()) as int);
    assert(all.subrange(0, a.len() as int) =~= a);
    assert(all.subrange(a.len() as int, (a + b).len() as int) =~= b);
    assert(data.subrange(pos as int, (pos + a.len()) as int) =~= all.subrange(0, a.len() as int));
    assert(data.subrange((pos + a.len()) as int, (pos + a.len() + b.len()) as int)
        =~= all.subrange(a.len() as int, (a + b).len() as int));
}

/// A number is read where it was written.
proof fn lemma_number(data: Seq<u8>, pos: nat, n: nat)
    requires
        n <= u32::MAX,
        has_at(data, pos, varint(n)),
    ensures
        u32_at(data, pos) == Some((n as u32, pos + varint(n).len())),
        varint(n).len() >= 1,
{
    let end = pos + varint(n).len();
    assert(data =~= data.take(pos as int) + varint(n) + data.skip(end as int));
    law_varint_round_trip(data.take(pos as int), n as u64, data.skip(end as int));
    vstd::arithmetic::power2::lemma2_to64();
    vstd::arithmetic::power2::lemma2_to64_rest();
    lemma_varint_len(n, 5);
}

/// A text is read where it was written.
proof fn lemma_text(data: Seq<u8>, pos: nat, text: Seq<char>)
    requires
        byte_len(text) <= u32::MAX,
        has_at(data, pos, text_encoding(text)),
    ensures
        text_at(data, pos) == Some((text, pos + text_encoding(text).len())),
        text_end(data, pos) == Some(pos + text_encoding(text).len()),
{
    let n = encode_utf8(text).len();
    lemma_has_both(data, pos, varint(n), encode_utf8(text));
    lemma_number(data, pos, n);
    encode_utf8_valid_utf8(text);
    encode_utf8_decode_utf8(text);
}

/// A unit is read where it was written.
proof fn lemma_unit(data: Seq<u8>, pos: nat, unit: (u32, u32))
    requires
        has_at(data, pos, unit_encoding(unit)),
    ensures
        u32_at(data, pos) == Some((unit.0, pos + varint(unit.0 as nat).len())),
        u32_at(data, pos + varint(unit.0 as nat).len()) == Some(
            (unit.1, pos + unit_encoding(unit).len()),
        ),
        unit_encoding(unit).len() >= 2,
{
    lemma_has_both(data, pos, varint(unit.0 as nat), varint(unit.1 as nat));
    lemma_number(data, pos, unit.0 as nat);
    lemma_number(data, pos + varint(unit.0 as nat).len(), unit.1 as nat);
}

proof fn lemma_neighbour(data: Seq<u8>, pos: nat, unit: Option<(u32, u32)>)
    requires
        has_at(data, pos, neighbour_encoding(unit)),
        unit matches Some(id) ==> id.1 < CLOCK_LIMIT,
    ensures
        neighbour_at(data, pos, unit is Some) == Some((unit, pos + neighbour_encoding(unit).len())),
{
    if let Some(id) = unit {
        lemma_unit(data, pos, id);
    }
}

proof fn lemma_value_len(value: Value)
    ensures
        value.encoding().len() >= 1,
{
}

proof fn lemma_values_len(names: Seq<Seq<char>>, values: Seq<Value>)
    ensures
        values.len() <= values_encoding(values).len(),
        values.len() <= named_encoding(names, values).len(),
    decreases values.len(),
{
    if values.len() > 0 {
        lemma_value_len(values[0]);
        lemma_values_len(names.drop_first(), values.drop_first());
    }
}

/// A value is read where it was written.
proof fn lemma_value(data: Seq<u8>, pos: nat, value: Value, depth: nat)
    requires
        value.is_valid(depth),
        has_at(data, pos, value.encoding()),
    ensures
        value_end(data, pos, depth) == Some(pos + value.encoding().len()),
    decreases depth, 0nat,
{
    let bytes = value.encoding();
    assert(data.subrange(pos as int, (pos + bytes.len()) as int)[0] == data[pos as int]);
    assert(data[pos as int] == bytes[0]);
    let tag = seq![bytes[0]];
    let rest = bytes.drop_first();
    assert(bytes =~= tag + rest);
    lemma_has_both(data, pos, tag, rest);
    match value {
        Value::Integer(digits) => {
            assert(rest =~= digits);
            let end = pos + 1 + digits.len();
            assert(data =~= data.take(pos as int + 1) + digits + data.skip(end as int));
            law_varint_of_any_writer_is_read(
                data.take(pos as int + 1),
                digits,
                data.skip(end as int),
            );
        },
        Value::Text(text) => {
            assert(rest =~= text_encoding(text));
            lemma_text(data, pos + 1, text);
        },
        Value::Bytes(buffer) => {
            assert(rest =~= varint(buffer.len()) + buffer);
            lemma_has_both(data, pos + 1, varint(buffer.len()), buffer);
            lemma_number(data, pos + 1, buffer.len());
        },
        Value::Array(values) => {
            let n = varint(values.len());
            assert(rest =~= n + values_encoding(values));
            lemma_has_both(data, pos + 1, n, values_encoding(values));
            lemma_number(data, pos + 1, values.len());
            lemma_values_len(Seq::empty(), values);
            lemma_values(data, pos + 1 + n.len(), values, (depth - 1) as nat);
        },
        Value::Object(names, values) => {
            let n = varint(values.len());
            assert(rest =~= n + named_encoding(names, values));
            lemma_has_both(data, pos + 1, n, named_encoding(names, values));
            lemma_number(data, pos + 1, values.len());
            lemma_values_len(names, values);
            lemma_named(data, pos + 1 + n.len(), names, values, (depth - 1) as nat);
        },
        _ => {},
    }
}

proof fn lemma_values(data: Seq<u8>, pos: nat, values: Seq<Value>, depth: nat)
    requires
        forall|i: int| 0 <= i < values.len() ==> (#[trigger] values[i]).is_valid(depth),
        has_at(data, pos, values_encoding(values)),
    ensures
        values_end(data, pos, values.len(), false, depth) == Some(
            pos + values_encoding(values).len(),
        ),
    decreases depth, values.len() + 1,
{
    if values.len() > 0 {
        let rest = values.drop_first();
        lemma_has_both(data, pos, values[0].encoding(), values_encoding(rest));
        lemma_value(data, pos, values[0], depth);
        lemma_values(data, pos + values[0].encoding().len(), rest, depth);
    }
}

proof fn lemma_named(
    data: Seq<u8>,
    pos: nat,
    names: Seq<Seq<char>>,
    values: Seq<Value>,
    depth: nat,
)
    requires
        names.len() == values.len(),
        forall|i: int| 0 <= i < names.len() ==> byte_len(#[trigger] names[i]) <= u32::MAX,
        forall|i: int| 0 <= i < values.len() ==> (#[trigger] values[i]).is_valid(depth),
        has_at(data, pos, named_encoding(names, values)),
    ensures
        values_end(data, pos, values.len(), true, depth) == Some(
            pos + named_encoding(names, values).len(),
        ),
    decreases depth, values.len() + 1,
{
    if values.len() > 0 {
        let name = text_encoding(names[0]);
        let value = values[0].encoding();
        let rest = named_encoding(names.drop_first(), values.drop_first());
        lemma_has_both(data, pos, name + value, rest);
        lemma_has_both(data, pos, name, value);
        lemma_text(data, pos, names[0]);
        lemma_value(data, pos + name.len(), values[0], depth);
        lemma_named(
            data,
            pos + name.len() + value.len(),
            names.drop_first(),
            values.drop_first(),
            depth,
        );
    }
}

/// What is in a block is read where it was written.
proof fn lemma_content(data: Seq<u8>, pos: nat, part: Part)
    requires
        part.is_valid(),
        !part.is_bare(),
        has_at(data, pos, part.encoding()),
    ensures
        content_at(data, pos, part.kind()) == Some(
            (part.units(), part.payload(), pos + part.encoding().len()),
        ),
{
    match part {
        Part::Text(text) => {
            lemma_text(data, pos, text);
        },
        Part::Deleted(n) => {
            lemma_number(data, pos, n as nat);
        },
        Part::Binary(bytes) => {
            lemma_has_both(data, pos, varint(bytes.len()), bytes);
            lemma_number(data, pos, bytes.len());
        },
        Part::Embed(json) => {
            lemma_text(data, pos, json);
        },
        Part::Format(name, json) => {
            lemma_has_both(data, pos, text_encoding(name), text_encoding(json));
            lemma_text(data, pos, name);
            lemma_text(data, pos + text_encoding(name).len(), json);
        },
        Part::Values(values) => {
            lemma_has_both(data, pos, varint(values.len()), values_encoding(values));
            lemma_number(data, pos, values.len());
            lemma_values_len(Seq::empty(), values);
            lemma_values(data, pos + varint(values.len()).len(), values, MAX_NESTING as nat);
        },
        _ => {},
    }
}

/// `scan` with what is found in a piece.
spec fn with_piece(scan: Scan, client: u32, clock: nat, piece: Piece) -> Scan {
    let pos = scan.pos + piece.encoding().len();
    if piece.part is Skipped {
        Scan { pos, ..scan }
    } else {
        with_block(
            scan,
            Block {
                client,
                clock: clock as u32,
                len: piece.part.units() as u32,
                bytes: piece.part.bytes() as u64,
                left: piece.left,
                right: piece.right,
            },
            piece.part.payload(),
            pos,
        )
    }
}

/// What the first byte of a block says.
proof fn lemma_info(piece: Piece)
    ensures
        piece.part.is_bare() && piece.left is None && piece.right is None ==> piece.info()
            == piece.part.kind(),
        !piece.part.is_bare() ==> {
            let info = piece.info();
            &&& info != 10 && info != 0
            &&& info >= 128 <==> piece.left is Some
            &&& info % 128 >= 64 <==> piece.right is Some
            &&& info % 64 < 32
            &&& info as int % 16 == piece.part.kind()
        },
{
}

/// Where a block stands is read where it was written.
proof fn lemma_place(data: Seq<u8>, pos: nat, piece: Piece)
    requires
        !piece.part.is_bare(),
        piece.left matches Some(id) ==> id.1 < CLOCK_LIMIT,
        piece.right matches Some(id) ==> id.1 < CLOCK_LIMIT,
        has_at(data, pos, piece.place_encoding()),
    ensures
        ({
            let p = pos + neighbour_encoding(piece.left).len();
            let q = p + neighbour_encoding(piece.right).len();
            let alone = piece.left is None && piece.right is None;
            &&& neighbour_at(data, pos, piece.left is Some) == Some((piece.left, p))
            &&& neighbour_at(data, p, piece.right is Some) == Some((piece.right, q))
            &&& parent_end(data, q, alone, false) == Some(pos + piece.place_encoding().len())
        }),
{
    let left = piece.left;
    let right = piece.right;
    if left is None && right is None {
        lemma_has_both(data, pos, varint(1), text_encoding("content"@));
        lemma_number(data, pos, 1);
        assert(byte_len("content"@) <= u32::MAX) by {
            reveal_strlit("content");
            vstd::utf8::is_ascii_chars_encode_utf8("content"@);
        }
        lemma_text(data, pos + varint(1).len(), "content"@);
    } else {
        lemma_has_both(data, pos, neighbour_encoding(left), neighbour_encoding(right));
        lemma_neighbour(data, pos, left);
        lemma_neighbour(data, pos + neighbour_encoding(left).len(), right);
    }
}

/// A block is read where it was written.
proof fn lemma_piece(data: Seq<u8>, scan: Scan, client: u32, clock: u32, piece: Piece)
    requires
        piece.is_valid(client, clock as nat),
        has_at(data, scan.pos, piece.encoding()),
    ensures
        block_at(data, scan, client, clock) == Some(
            (piece.part.units() as u32, with_piece(scan, client, clock as nat, piece)),
        ),
        piece.encoding().len() >= 1,
{
    reveal(block_at);
    let info = seq![piece.info()];
    let place = piece.place_encoding();
    let part = piece.part;
    let pos = scan.pos;
    lemma_has_both(data, pos, info + place, part.encoding());
    lemma_has_both(data, pos, info, place);
    assert(data[pos as int] == data.subrange(pos as int, (pos + 1) as int)[0]);
    assert(data[pos as int] == piece.info());
    lemma_info(piece);
    if part.is_bare() {
        assert(info + place =~= info);
        lemma_number(data, pos + 1, part.units());
    } else {
        let r = pos + 1 + place.len();
        lemma_place(data, pos + 1, piece);
        lemma_content(data, r, part);
        assert(item_at(data, scan, client, clock, piece.info()) == Some(
            (part.units() as u32, with_piece(scan, client, clock as nat, piece)),
        ));
    }
}

proof fn lemma_pieces_len(pieces: Seq<Piece>)
    ensures
        pieces.len() <= pieces_encoding(pieces).len(),
    decreases pieces.len(),
{
    if pieces.len() > 0 {
        lemma_pieces_len(pieces.drop_first());
    }
}

/// The blocks of an author are read where they were written.
proof fn lemma_pieces(data: Seq<u8>, scan: Scan, client: u32, clock: u32, pieces: Seq<Piece>)
    requires
        pieces_valid(client, clock as nat, pieces),
        has_at(data, scan.pos, pieces_encoding(pieces)),
    ensures
        blocks_at(data, scan, client, clock, pieces.len()) matches Some(next) && {
            &&& next.pos == scan.pos + pieces_encoding(pieces).len()
            &&& next.blocks == scan.blocks + pieces_blocks(client, clock as nat, pieces)
            &&& next.payloads == scan.payloads + pieces_payloads(pieces)
            &&& next.spans == scan.spans
        },
        pieces_blocks(client, clock as nat, pieces).len() == pieces_payloads(pieces).len(),
    decreases pieces.len(),
{
    if pieces.len() > 0 {
        let piece = pieces[0];
        let rest = pieces.drop_first();
        lemma_has_both(data, scan.pos, piece.encoding(), pieces_encoding(rest));
        lemma_piece(data, scan, client, clock, piece);
        let next = with_piece(scan, client, clock as nat, piece);
        let later = (clock + piece.part.units()) as u32;
        assert(next.blocks =~= scan.blocks + piece.blocks(client, clock as nat));
        assert(next.payloads =~= scan.payloads + piece.payloads());
        lemma_pieces(data, next, client, later, rest);
        let end = blocks_at(data, next, client, later, rest.len())->0;
        assert(blocks_at(data, scan, client, clock, pieces.len()) == Some(end));
        assert(end.blocks =~= scan.blocks + pieces_blocks(client, clock as nat, pieces));
        assert(end.payloads =~= scan.payloads + pieces_payloads(pieces));
    } else {
        assert(scan.blocks + pieces_blocks(client, clock as nat, pieces) =~= scan.blocks);
        assert(scan.payloads + pieces_payloads(pieces) =~= scan.payloads);
    }
}

proof fn lemma_author(data: Seq<u8>, scan: Scan, author: Author)
    requires
        author.is_valid(),
        has_at(data, scan.pos, author.encoding()),
    ensures
        client_at(data, scan) matches Some(next) && {
            &&& next.pos == scan.pos + author.encoding().len()
            &&& next.blocks == scan.blocks + pieces_blocks(
                author.client,
                author.clock as nat,
                author.pieces,
            )
            &&& next.payloads == scan.payloads + pieces_payloads(author.pieces)
            &&& next.spans == scan.spans
        },
{
    reveal(client_at);
    let a = varint(author.pieces.len());
    let b = varint(author.client as nat);
    let c = varint(author.clock as nat);
    let d = pieces_encoding(author.pieces);
    let pos = scan.pos;
    lemma_has_both(data, pos, a + b + c, d);
    lemma_has_both(data, pos, a + b, c);
    lemma_has_both(data, pos, a, b);
    lemma_number(data, pos, author.pieces.len());
    lemma_number(data, pos + a.len(), author.client as nat);
    lemma_number(data, pos + a.len() + b.len(), author.clock as nat);
    lemma_pieces_len(author.pieces);
    let r = pos + a.len() + b.len() + c.len();
    lemma_pieces(data, Scan { pos: r, ..scan }, author.client, author.clock, author.pieces);
}

proof fn lemma_authors_len(authors: Seq<Author>)
    requires
        forall|i: int| 0 <= i < authors.len() ==> (#[trigger] authors[i]).is_valid(),
    ensures
        authors.len() <= authors_encoding(authors).len(),
    decreases authors.len(),
{
    if authors.len() > 0 {
        lemma_pieces_len(authors[0].pieces);
        assert(authors[0].is_valid());
        lemma_authors_len(authors.drop_first());
    }
}

proof fn lemma_authors(data: Seq<u8>, scan: Scan, authors: Seq<Author>)
    requires
        forall|i: int| 0 <= i < authors.len() ==> (#[trigger] authors[i]).is_valid(),
        has_at(data, scan.pos, authors_encoding(authors)),
    ensures
        clients_at(data, scan, authors.len()) matches Some(next) && {
            &&& next.pos == scan.pos + authors_encoding(authors).len()
            &&& next.blocks == scan.blocks + authors_blocks(authors)
            &&& next.payloads == scan.payloads + authors_payloads(authors)
            &&& next.spans == scan.spans
        },
    decreases authors.len(),
{
    if authors.len() > 0 {
        let rest = authors.drop_first();
        lemma_has_both(data, scan.pos, authors[0].encoding(), authors_encoding(rest));
        lemma_author(data, scan, authors[0]);
        let next = client_at(data, scan)->0;
        lemma_authors(data, next, rest);
        let end = clients_at(data, next, rest.len())->0;
        assert(clients_at(data, scan, authors.len()) == Some(end));
        assert(end.blocks =~= scan.blocks + authors_blocks(authors));
        assert(end.payloads =~= scan.payloads + authors_payloads(authors));
    } else {
        assert(scan.blocks + authors_blocks(authors) =~= scan.blocks);
        assert(scan.payloads + authors_payloads(authors) =~= scan.payloads);
    }
}

proof fn lemma_ranges_len(ranges: Seq<(u32, u32)>)
    ensures
        ranges.len() <= ranges_encoding(ranges).len(),
    decreases ranges.len(),
{
    if ranges.len() > 0 {
        lemma_ranges_len(ranges.drop_first());
    }
}

proof fn lemma_ranges(data: Seq<u8>, scan: Scan, client: u32, ranges: Seq<(u32, u32)>)
    requires
        forall|i: int|
            0 <= i < ranges.len() ==> 0 < (#[trigger] ranges[i]).1 && ranges[i].0 + ranges[i].1
                <= CLOCK_LIMIT,
        has_at(data, scan.pos, ranges_encoding(ranges)),
    ensures
        spans_at(data, scan, client, ranges.len()) matches Some(next) && {
            &&& next.pos == scan.pos + ranges_encoding(ranges).len()
            &&& next.blocks == scan.blocks
            &&& next.payloads == scan.payloads
            &&& next.spans == scan.spans + ranges_spans(client, ranges)
        },
    decreases ranges.len(),
{
    if ranges.len() > 0 {
        let rest = ranges.drop_first();
        let range = ranges[0];
        lemma_has_both(data, scan.pos, unit_encoding(range), ranges_encoding(rest));
        lemma_unit(data, scan.pos, range);
        let span = Span { client, start: range.0, end: (range.0 + range.1) as u32 };
        let next = with_span(scan, span, scan.pos + unit_encoding(range).len());
        lemma_ranges(data, next, client, rest);
        let end = spans_at(data, next, client, rest.len())->0;
        assert(spans_at(data, scan, client, ranges.len()) == Some(end));
        assert(end.spans =~= scan.spans + ranges_spans(client, ranges));
    } else {
        assert(scan.spans + ranges_spans(client, ranges) =~= scan.spans);
    }
}

proof fn lemma_removals_len(removals: Seq<Removal>)
    requires
        forall|i: int| 0 <= i < removals.len() ==> (#[trigger] removals[i]).is_valid(),
    ensures
        removals.len() <= removals_encoding(removals).len(),
    decreases removals.len(),
{
    if removals.len() > 0 {
        assert(removals[0].is_valid());
        lemma_ranges_len(removals[0].ranges);
        lemma_removals_len(removals.drop_first());
    }
}

proof fn lemma_removals(data: Seq<u8>, scan: Scan, seen: Set<u32>, removals: Seq<Removal>)
    requires
        forall|i: int| 0 <= i < removals.len() ==> (#[trigger] removals[i]).is_valid(),
        forall|i: int|
            0 <= i < removals.len() ==> !seen.contains((#[trigger] removals[i]).client),
        forall|i: int, j: int|
            0 <= i < j < removals.len() ==> (#[trigger] removals[i]).client != (
            #[trigger] removals[j]).client,
        has_at(data, scan.pos, removals_encoding(removals)),
    ensures
        deletions_at(data, scan, seen, removals.len()) matches Some(next) && {
            &&& next.pos == scan.pos + removals_encoding(removals).len()
            &&& next.blocks == scan.blocks
            &&& next.payloads == scan.payloads
            &&& next.spans == scan.spans + removals_spans(removals)
        },
    decreases removals.len(),
{
    if removals.len() > 0 {
        let removal = removals[0];
        let rest = removals.drop_first();
        let a = varint(removal.client as nat);
        let b = varint(removal.ranges.len());
        let c = ranges_encoding(removal.ranges);
        let pos = scan.pos;
        assert(removal.is_valid());
        assert(!seen.contains(removal.client));
        lemma_has_both(data, pos, removal.encoding(), removals_encoding(rest));
        lemma_has_both(data, pos, a + b, c);
        lemma_has_both(data, pos, a, b);
        lemma_number(data, pos, removal.client as nat);
        lemma_number(data, pos + a.len(), removal.ranges.len());
        lemma_ranges_len(removal.ranges);
        let start = Scan { pos: pos + a.len() + b.len(), ..scan };
        lemma_ranges(data, start, removal.client, removal.ranges);
        let next = spans_at(data, start, removal.client, removal.ranges.len())->0;
        let more = seen.insert(removal.client);
        lemma_removals(data, next, more, rest);
        let end = deletions_at(data, next, more, rest.len())->0;
        assert(deletions_at(data, scan, seen, removals.len()) == Some(end));
        assert(end.spans =~= scan.spans + removals_spans(removals));
    } else {
        assert(scan.spans + removals_spans(removals) =~= scan.spans);
    }
}

/// Every update that an author can lay out is sound, whatever its characters, its
/// clients and its neighbours are, and what is found in it is what the author put
/// there: the same blocks with the same content, and the same deletions.
pub proof fn law_laid_out_update_is_sound(layout: Layout)
    requires
        layout.is_valid(),
    ensures
        is_sound(layout.encoding()),
        scan_of(layout.encoding()) matches Some(scan) && {
            &&& scan.pos == layout.encoding().len()
            &&& scan.blocks == authors_blocks(layout.authors)
            &&& scan.payloads == authors_payloads(layout.authors)
            &&& scan.spans == removals_spans(layout.removals)
        },
{
    reveal(scan_of);
    let data = layout.encoding();
    let a = varint(layout.authors.len());
    let b = authors_encoding(layout.authors);
    let c = varint(layout.removals.len());
    let d = removals_encoding(layout.removals);
    assert(data.subrange(0, data.len() as int) =~= data);
    assert(has_at(data, 0, data));
    lemma_has_both(data, 0, a + b + c, d);
    lemma_has_both(data, 0, a + b, c);
    lemma_has_both(data, 0, a, b);
    lemma_number(data, 0, layout.authors.len());
    lemma_number(data, a.len() + b.len(), layout.removals.len());
    lemma_authors_len(layout.authors);
    lemma_removals_len(layout.removals);
    let start = Scan::start(a.len());
    lemma_authors(data, start, layout.authors);
    let scan = clients_at(data, start, layout.authors.len())->0;
    assert(start.blocks + authors_blocks(layout.authors) =~= authors_blocks(layout.authors));
    assert(start.payloads + authors_payloads(layout.authors) =~= authors_payloads(layout.authors));
    let second = Scan { pos: a.len() + b.len() + c.len(), ..scan };
    lemma_removals(data, second, Set::empty(), layout.removals);
    assert(second.spans + removals_spans(layout.removals) =~= removals_spans(layout.removals));
}

/// The bytes of the root text's name.
proof fn lemma_root_name()
    ensures
        encode_utf8("content"@) == seq![99u8, 111, 110, 116, 101, 110, 116],
        text_encoding("content"@) == seq![7u8, 99, 111, 110, 116, 101, 110, 116],
        varint(0) == seq![0u8],
        varint(1) == seq![1u8],
{
    reveal_strlit("content");
    vstd::utf8::is_ascii_chars_encode_utf8("content"@);
    assert(encode_utf8("content"@) =~= seq![99u8, 111, 110, 116, 101, 110, 116]);
    assert(text_encoding("content"@) =~= seq![7u8, 99, 111, 110, 116, 101, 110, 116]);
}

/// An update of one author with one block.
spec fn with_one(client: u32, clock: u32, piece: Piece) -> Layout {
    Layout {
        authors: seq![Author { client, clock, pieces: seq![piece] }],
        removals: Seq::empty(),
    }
}

proof fn lemma_with_one(client: u32, clock: u32, piece: Piece)
    requires
        piece.is_valid(client, clock as nat),
        !(piece.part is Skipped),
        piece.part.units() > 0,
    ensures
        with_one(client, clock, piece).is_valid(),
        with_one(client, clock, piece).encoding() == seq![1u8, 1] + varint(client as nat) + varint(
            clock as nat,
        ) + piece.encoding() + seq![0u8],
        authors_blocks(with_one(client, clock, piece).authors) == piece.blocks(
            client,
            clock as nat,
        ),
        authors_payloads(with_one(client, clock, piece).authors) == piece.payloads(),
        removals_spans(with_one(client, clock, piece).removals) == Seq::<Span>::empty(),
{
    lemma_root_name();
    let layout = with_one(client, clock, piece);
    let author = layout.authors[0];
    assert(author.pieces.drop_first() =~= Seq::empty());
    assert(layout.authors.drop_first() =~= Seq::empty());
    assert(pieces_encoding(author.pieces.drop_first()) =~= Seq::empty());
    assert(pieces_encoding(author.pieces) =~= piece.encoding());
    assert(pieces_valid(client, clock as nat + piece.part.units(), author.pieces.drop_first()));
    assert(pieces_payloads(author.pieces.drop_first()) =~= Seq::empty());
    assert(pieces_payloads(author.pieces) =~= piece.payloads());
    let end = clock as nat + piece.part.units();
    assert(pieces_blocks(client, end, author.pieces.drop_first()) =~= Seq::empty());
    assert(pieces_blocks(client, clock as nat, author.pieces) =~= piece.blocks(
        client,
        clock as nat,
    ));
    assert(authors_blocks(layout.authors.drop_first()) =~= Seq::empty());
    assert(authors_payloads(layout.authors.drop_first()) =~= Seq::empty());
    assert(authors_blocks(layout.authors) =~= piece.blocks(client, clock as nat));
    assert(authors_payloads(layout.authors) =~= piece.payloads());
    assert(authors_encoding(layout.authors.drop_first()) =~= Seq::empty());
    assert(authors_encoding(layout.authors) =~= author.encoding());
    assert(removals_encoding(layout.removals) =~= Seq::empty());
    assert(layout.encoding() =~= seq![1u8, 1] + varint(client as nat) + varint(clock as nat)
        + piece.encoding() + seq![0u8]);
}

/// Any text that is put into an empty root text is a sound update: one author, one
/// block without neighbours in the root text, nothing deleted. One block is found
/// in it, with this text.
pub proof fn law_first_text_is_sound(client: u32, clock: u32, text: Seq<char>)
    requires
        text.len() > 0,
        encode_utf8(text).len() <= u32::MAX,
        clock + units_of(text) <= CLOCK_LIMIT,
    ensures
        scan_of(
            seq![1u8, 1] + varint(client as nat) + varint(clock as nat) + seq![
                4u8,
                1,
                7,
                99,
                111,
                110,
                116,
                101,
                110,
                116,
            ] + varint(encode_utf8(text).len()) + encode_utf8(text) + seq![0u8],
        ) matches Some(scan) && {
            &&& scan.blocks == seq![
                Block {
                    client,
                    clock,
                    len: units_of(text) as u32,
                    bytes: encode_utf8(text).len() as u64,
                    left: None,
                    right: None,
                },
            ]
            &&& scan.payloads == seq![Payload::Text(text)]
            &&& scan.spans == Seq::<Span>::empty()
        },
{
    lemma_root_name();
    let piece = Piece { left: None, right: None, part: Part::Text(text) };
    lemma_with_one(client, clock, piece);
    law_laid_out_update_is_sound(with_one(client, clock, piece));
    assert(with_one(client, clock, piece).encoding() =~= seq![1u8, 1] + varint(client as nat)
        + varint(clock as nat) + seq![4u8, 1, 7, 99, 111, 110, 116, 101, 110, 116] + varint(
        encode_utf8(text).len(),
    ) + encode_utf8(text) + seq![0u8]);
}

/// Any text that is put between two units is a sound update, and so is one that is
/// put behind a unit, or before one. The text and its neighbours are found in it.
pub proof fn law_text_between_units_is_sound(
    client: u32,
    clock: u32,
    text: Seq<char>,
    left: Option<(u32, u32)>,
    right: Option<(u32, u32)>,
)
    requires
        text.len() > 0,
        encode_utf8(text).len() <= u32::MAX,
        clock + units_of(text) <= CLOCK_LIMIT,
        left is Some || right is Some,
        can_be_beside(left, client, clock as nat),
        can_be_beside(right, client, clock as nat),
    ensures
        scan_of(
            seq![1u8, 1] + varint(client as nat) + varint(clock as nat) + seq![
                if left is Some && right is Some {
                    196u8
                } else if left is Some {
                    132
                } else {
                    68
                },
            ] + neighbour_encoding(left) + neighbour_encoding(right) + varint(
                encode_utf8(text).len(),
            ) + encode_utf8(text) + seq![0u8],
        ) matches Some(scan) && {
            &&& scan.blocks == seq![
                Block {
                    client,
                    clock,
                    len: units_of(text) as u32,
                    bytes: encode_utf8(text).len() as u64,
                    left,
                    right,
                },
            ]
            &&& scan.payloads == seq![Payload::Text(text)]
            &&& scan.spans == Seq::<Span>::empty()
        },
{
    let piece = Piece { left, right, part: Part::Text(text) };
    lemma_with_one(client, clock, piece);
    law_laid_out_update_is_sound(with_one(client, clock, piece));
    assert(with_one(client, clock, piece).encoding() =~= seq![1u8, 1] + varint(client as nat)
        + varint(clock as nat) + seq![
        if left is Some && right is Some {
            196u8
        } else if left is Some {
            132
        } else {
            68
        },
    ] + neighbour_encoding(left) + neighbour_encoding(right) + varint(encode_utf8(text).len())
        + encode_utf8(text) + seq![0u8]);
}

/// An update that only deletes some units of a client is sound, and these units are
/// found in it.
pub proof fn law_deletion_is_sound(client: u32, start: u32, len: u32)
    requires
        0 < len,
        start + len <= CLOCK_LIMIT,
    ensures
        scan_of(
            seq![0u8, 1] + varint(client as nat) + seq![1u8] + varint(start as nat) + varint(
                len as nat,
            ),
        ) matches Some(scan) && {
            &&& scan.blocks == Seq::<Block>::empty()
            &&& scan.payloads == Seq::<Payload>::empty()
            &&& scan.spans == seq![Span { client, start, end: (start + len) as u32 }]
        },
{
    lemma_root_name();
    let removal = Removal { client, ranges: seq![(start, len)] };
    let layout = Layout { authors: Seq::empty(), removals: seq![removal] };
    law_laid_out_update_is_sound(layout);
    assert(removal.ranges.drop_first() =~= Seq::empty());
    assert(layout.removals.drop_first() =~= Seq::empty());
    assert(ranges_encoding(removal.ranges.drop_first()) =~= Seq::empty());
    assert(removals_encoding(layout.removals.drop_first()) =~= Seq::empty());
    assert(removals_spans(layout.removals.drop_first()) =~= Seq::empty());
    assert(removals_spans(layout.removals) =~= seq![
        Span { client, start, end: (start + len) as u32 },
    ]);
    assert(authors_encoding(layout.authors) =~= Seq::empty());
    assert(layout.encoding() =~= seq![0u8, 1] + varint(client as nat) + seq![1u8] + varint(
        start as nat,
    ) + varint(len as nat));
}

/// Whether one of some blocks has the unit with the clock `n` of `client`.
pub open spec fn has_unit(blocks: Seq<Block>, client: u64, n: u32) -> bool {
    exists|i: int|
        0 <= i < blocks.len() && (#[trigger] blocks[i]).client == client && blocks[i].clock <= n
            < blocks[i].clock + blocks[i].len
}

/// Every update that an author can lay out is an update for this library if `yrs` can
/// decode it, and it carries the units of the blocks that the author put there and no
/// others.
pub proof fn law_laid_out_update_is_an_update(layout: Layout, client: u64, n: u32)
    requires
        layout.is_valid(),
    ensures
        is_update(layout.encoding()) <==> decodes(layout.encoding()),
        block_ids(layout.encoding()).contains((client, n)) <==> has_unit(
            authors_blocks(layout.authors),
            client,
            n,
        ),
{
    law_laid_out_update_is_sound(layout);
    let blocks = authors_blocks(layout.authors);
    let id = (client, n);
    if one_carries(blocks, all_of(blocks), id) {
        let i = choose|i: int| #[trigger] all_of(blocks).contains(i) && carries(blocks[i], id);
        assert(blocks[i].client == client);
    }
    if has_unit(blocks, client, n) {
        let i = choose|i: int|
            0 <= i < blocks.len() && (#[trigger] blocks[i]).client == client && blocks[i].clock
                <= n < blocks[i].clock + blocks[i].len;
        assert(all_of(blocks).contains(i) && carries(blocks[i], id));
    }
}

/// A state vector with as many entries as it declares passes the test for that,
/// however many they are, and one that is too short for them does not.
pub proof fn law_entries_must_fit(n: u32, entries: Seq<u8>)
    ensures
        entries_fit(varint(n as nat) + entries) <==> 2 * n <= entries.len(),
{
    let data = varint(n as nat) + entries;
    assert(data.subrange(0, varint(n as nat).len() as int) =~= varint(n as nat));
    lemma_number(data, 0, n as nat);
}

/// A number that any author wrote is read, if it has at most five bytes and 32 bits.
pub proof fn law_number_of_any_writer_is_read(head: Seq<u8>, bytes: Seq<u8>, tail: Seq<u8>)
    requires
        is_delimited(bytes),
        bytes.len() <= 9,
    ensures
        u32_at(head + bytes + tail, head.len()) == (if base128(bytes) <= u32::MAX && bytes.len()
            <= 5 {
            Some((base128(bytes) as u32, head.len() + bytes.len()))
        } else {
            None
        }),
{
    law_varint_of_any_writer_is_read(head, bytes, tail);
    lemma_base128_bound(bytes);
}

/// What is found is found too when more bytes follow: numbers.
proof fn lemma_more_groups(data: Seq<u8>, tail: Seq<u8>, pos: nat, limit: nat)
    ensures
        varint_groups(data, pos, limit) is Some ==> varint_groups(data + tail, pos, limit)
            == varint_groups(data, pos, limit),
    decreases limit,
{
    if limit > 0 && pos < data.len() {
        assert((data + tail)[pos as int] == data[pos as int]);
        lemma_more_groups(data, tail, pos + 1, (limit - 1) as nat);
    }
}

proof fn lemma_more_number(data: Seq<u8>, tail: Seq<u8>, pos: nat)
    ensures
        varint_at(data, pos) is Some ==> varint_at(data + tail, pos) == varint_at(data, pos),
        u32_at(data, pos) is Some ==> u32_at(data + tail, pos) == u32_at(data, pos),
        u32_at(data, pos) matches Some((_, next)) ==> pos < next <= data.len(),
        count_at(data, pos) is Some ==> count_at(data + tail, pos) == count_at(data, pos),
        count_at(data, pos) matches Some((n, next)) ==> pos < next && next + n <= data.len(),
        buffer_end(data, pos) is Some ==> buffer_end(data + tail, pos) == buffer_end(data, pos),
{
    lemma_more_groups(data, tail, pos, 10);
    lemma_varint_end(data, pos);
}

proof fn lemma_more_text(data: Seq<u8>, tail: Seq<u8>, pos: nat)
    ensures
        text_at(data, pos) is Some ==> text_at(data + tail, pos) == text_at(data, pos),
        text_end(data, pos) is Some ==> text_end(data + tail, pos) == text_end(data, pos),
{
    lemma_more_number(data, tail, pos);
    if let Some((n, next)) = count_at(data, pos) {
        assert((data + tail).subrange(next as int, next + n) =~= data.subrange(
            next as int,
            next + n,
        ));
    }
}

proof fn lemma_more_value(data: Seq<u8>, tail: Seq<u8>, pos: nat, depth: nat)
    ensures
        value_end(data, pos, depth) is Some ==> value_end(data + tail, pos, depth) == value_end(
            data,
            pos,
            depth,
        ),
    decreases depth, 0nat,
{
    if depth > 0 && pos < data.len() {
        assert((data + tail)[pos as int] == data[pos as int]);
        lemma_more_number(data, tail, pos + 1);
        lemma_more_text(data, tail, pos + 1);
        let tag = data[pos as int];
        if tag == 118 || tag == 117 {
            if let Some((n, next)) = count_at(data, pos + 1) {
                lemma_more_values(data, tail, next, n as nat, tag == 118, (depth - 1) as nat);
            }
        }
    }
}

proof fn lemma_more_values(
    data: Seq<u8>,
    tail: Seq<u8>,
    pos: nat,
    n: nat,
    named: bool,
    depth: nat,
)
    ensures
        values_end(data, pos, n, named, depth) is Some ==> values_end(
            data + tail,
            pos,
            n,
            named,
            depth,
        ) == values_end(data, pos, n, named, depth),
    decreases depth, n + 1,
{
    if n > 0 {
        lemma_more_text(data, tail, pos);
        let value = if named {
            text_end(data, pos)
        } else {
            Some(pos)
        };
        if let Some(p) = value {
            lemma_more_value(data, tail, p, depth);
            if let Some(next) = value_end(data, p, depth) {
                lemma_more_values(data, tail, next, (n - 1) as nat, named, depth);
            }
        }
    }
}

proof fn lemma_more_content(data: Seq<u8>, tail: Seq<u8>, pos: nat, kind: int)
    ensures
        content_at(data, pos, kind) is Some ==> content_at(data + tail, pos, kind) == content_at(
            data,
            pos,
            kind,
        ),
{
    lemma_more_number(data, tail, pos);
    lemma_more_text(data, tail, pos);
    if kind == 6 {
        if let Some(p) = text_end(data, pos) {
            lemma_more_text(data, tail, p);
        }
    } else if kind == 8 {
        if let Some((n, p)) = count_at(data, pos) {
            lemma_more_values(data, tail, p, n as nat, false, MAX_NESTING as nat);
        }
    }
}

proof fn lemma_more_neighbour(data: Seq<u8>, tail: Seq<u8>, pos: nat, there: bool)
    ensures
        neighbour_at(data, pos, there) is Some ==> neighbour_at(data + tail, pos, there)
            == neighbour_at(data, pos, there),
{
    lemma_more_number(data, tail, pos);
    if let Some((_, p)) = u32_at(data, pos) {
        lemma_more_number(data, tail, p);
    }
}

proof fn lemma_more_parent(data: Seq<u8>, tail: Seq<u8>, pos: nat, there: bool, entry: bool)
    ensures
        parent_end(data, pos, there, entry) is Some ==> parent_end(data + tail, pos, there, entry)
            == parent_end(data, pos, there, entry),
{
    lemma_more_number(data, tail, pos);
    if let Some((_, p)) = u32_at(data, pos) {
        lemma_more_text(data, tail, p);
    }
}

proof fn lemma_more_block(data: Seq<u8>, tail: Seq<u8>, scan: Scan, client: u32, clock: u32)
    ensures
        block_at(data, scan, client, clock) is Some ==> block_at(data + tail, scan, client, clock)
            == block_at(data, scan, client, clock),
{
    reveal(block_at);
    if block_at(data, scan, client, clock) is Some {
        let info = data[scan.pos as int];
        assert((data + tail)[scan.pos as int] == info);
        if info == 10 || info == 0 {
            lemma_more_number(data, tail, scan.pos + 1);
        } else {
            let has_left = info >= 128;
            let has_right = info % 128 >= 64;
            lemma_more_neighbour(data, tail, scan.pos + 1, has_left);
            let (left, p) = neighbour_at(data, scan.pos + 1, has_left)->0;
            lemma_more_neighbour(data, tail, p, has_right);
            let (right, q) = neighbour_at(data, p, has_right)->0;
            lemma_more_parent(data, tail, q, !has_left && !has_right, info % 64 >= 32);
            let r = parent_end(data, q, !has_left && !has_right, info % 64 >= 32)->0;
            lemma_more_content(data, tail, r, info as int % 16);
        }
    }
}

proof fn lemma_more_blocks(
    data: Seq<u8>,
    tail: Seq<u8>,
    scan: Scan,
    client: u32,
    clock: u32,
    n: nat,
)
    ensures
        blocks_at(data, scan, client, clock, n) is Some ==> blocks_at(
            data + tail,
            scan,
            client,
            clock,
            n,
        ) == blocks_at(data, scan, client, clock, n),
    decreases n,
{
    if n > 0 {
        lemma_more_block(data, tail, scan, client, clock);
        if let Some((len, next)) = block_at(data, scan, client, clock) {
            lemma_more_blocks(data, tail, next, client, (clock + len) as u32, (n - 1) as nat);
        }
    }
}

proof fn lemma_more_clients(data: Seq<u8>, tail: Seq<u8>, scan: Scan, n: nat)
    ensures
        clients_at(data, scan, n) is Some ==> clients_at(data + tail, scan, n) == clients_at(
            data,
            scan,
            n,
        ),
    decreases n,
{
    if n > 0 && client_at(data, scan) is Some {
        reveal(client_at);
        let (k, p) = count_at(data, scan.pos)->0;
        let (client, q) = u32_at(data, p)->0;
        let (clock, r) = u32_at(data, q)->0;
        lemma_more_number(data, tail, scan.pos);
        lemma_more_number(data, tail, p);
        lemma_more_number(data, tail, q);
        lemma_more_blocks(data, tail, Scan { pos: r, ..scan }, client, clock, k as nat);
        lemma_more_clients(data, tail, client_at(data, scan)->0, (n - 1) as nat);
    }
}

proof fn lemma_more_spans(data: Seq<u8>, tail: Seq<u8>, scan: Scan, client: u32, n: nat)
    requires
        scan.pos <= data.len(),
    ensures
        spans_at(data, scan, client, n) is Some ==> spans_at(data + tail, scan, client, n)
            == spans_at(data, scan, client, n),
        spans_at(data, scan, client, n) matches Some(next) ==> next.pos <= data.len(),
    decreases n,
{
    if n > 0 && spans_at(data, scan, client, n) is Some {
        let (clock, p) = u32_at(data, scan.pos)->0;
        let (len, q) = u32_at(data, p)->0;
        lemma_more_number(data, tail, scan.pos);
        lemma_more_number(data, tail, p);
        let span = Span { client, start: clock, end: (clock + len) as u32 };
        lemma_more_spans(data, tail, with_span(scan, span, q), client, (n - 1) as nat);
    }
}

proof fn lemma_more_deletions(data: Seq<u8>, tail: Seq<u8>, scan: Scan, seen: Set<u32>, n: nat)
    requires
        scan.pos <= data.len(),
    ensures
        deletions_at(data, scan, seen, n) is Some ==> deletions_at(data + tail, scan, seen, n)
            == deletions_at(data, scan, seen, n),
        deletions_at(data, scan, seen, n) matches Some(next) ==> next.pos <= data.len(),
    decreases n,
{
    if n > 0 && deletions_at(data, scan, seen, n) is Some {
        let (client, p) = u32_at(data, scan.pos)->0;
        let (m, q) = count_at(data, p)->0;
        lemma_more_number(data, tail, scan.pos);
        lemma_more_number(data, tail, p);
        let start = Scan { pos: q, ..scan };
        lemma_more_spans(data, tail, start, client, m as nat);
        let next = spans_at(data, start, client, m as nat)->0;
        lemma_more_deletions(data, tail, next, seen.insert(client), (n - 1) as nat);
    }
}

/// What stands behind an update makes no difference to it.
pub proof fn law_trailing_bytes_are_ignored(data: Seq<u8>, tail: Seq<u8>)
    requires
        is_sound(data),
    ensures
        scan_of(data + tail) == scan_of(data),
        (scan_of(data)->0).pos <= data.len(),
{
    reveal(scan_of);
    let (n, p) = count_at(data, 0)->0;
    lemma_more_number(data, tail, 0);
    lemma_more_clients(data, tail, Scan::start(p), n as nat);
    let scan = clients_at(data, Scan::start(p), n as nat)->0;
    let (m, q) = count_at(data, scan.pos)->0;
    lemma_more_number(data, tail, scan.pos);
    lemma_more_deletions(data, tail, Scan { pos: q, ..scan }, Set::empty(), m as nat);
}

/// An update that is cut short anywhere is not sound.
pub proof fn law_truncated_update_is_unsound(layout: Layout, kept: nat)
    requires
        layout.is_valid(),
        kept < layout.encoding().len(),
    ensures
        !is_sound(layout.encoding().take(kept as int)),
        !is_update(layout.encoding().take(kept as int)),
{
    let data = layout.encoding();
    let part = data.take(kept as int);
    if is_sound(part) {
        law_trailing_bytes_are_ignored(part, data.skip(kept as int));
        assert(part + data.skip(kept as int) =~= data);
        law_laid_out_update_is_sound(layout);
    }
}

/// A block of a kind that is none of those of [`Part`] is refused wherever it stands:
/// nested types, documents, moves and unknown ones.
pub proof fn law_other_kinds_of_blocks_are_refused(
    data: Seq<u8>,
    scan: Scan,
    client: u32,
    clock: u32,
)
    requires
        scan.pos < data.len(),
        ({
            let info = data[scan.pos as int];
            let kind = info % 16;
            &&& info != 0 && info != 10
            &&& kind != 1 && kind != 3 && kind != 4 && kind != 5 && kind != 6 && kind != 8
        }),
    ensures
        block_at(data, scan, client, clock) is None,
{
    reveal(block_at);
}

/// A block without neighbours is refused wherever it stands if it is not directly in
/// the root text: in a root of another name, or as an entry of a map.
pub proof fn law_blocks_elsewhere_are_refused(
    head: Seq<u8>,
    info: u8,
    name: Seq<char>,
    tail: Seq<u8>,
    scan: Scan,
    client: u32,
    clock: u32,
)
    requires
        info < 64 && info != 0 && info != 10,
        byte_len(name) <= u32::MAX,
        name != "content"@ || info >= 32,
        scan.pos == head.len(),
    ensures
        block_at(head + seq![info, 1u8] + text_encoding(name) + tail, scan, client, clock) is None,
{
    reveal(block_at);
    let data = head + seq![info, 1u8] + text_encoding(name) + tail;
    let pos = head.len();
    assert(data[pos as int] == info);
    assert(varint(1) == seq![1u8]);
    assert(data.subrange(pos as int + 1, pos as int + 2) =~= varint(1));
    lemma_number(data, pos + 1, 1);
    let end = pos + 2 + text_encoding(name).len();
    assert(data.subrange(pos as int + 2, end as int) =~= text_encoding(name));
    lemma_text(data, pos + 2, name);
}

/// Bytes that are not UTF-8 are no text, wherever they stand.
pub proof fn law_text_must_be_utf8(head: Seq<u8>, bytes: Seq<u8>, tail: Seq<u8>)
    requires
        bytes.len() <= u32::MAX,
        !valid_utf8(bytes),
    ensures
        text_at(head + varint(bytes.len()) + bytes + tail, head.len()) is None,
{
    let data = head + varint(bytes.len()) + bytes + tail;
    let pos = head.len();
    let next = pos + varint(bytes.len()).len();
    assert(data.subrange(pos as int, next as int) =~= varint(bytes.len()));
    lemma_number(data, pos, bytes.len());
    assert(data.subrange(next as int, (next + bytes.len()) as int) =~= bytes);
}

proof fn lemma_listed_twice(
    data: Seq<u8>,
    scan: Scan,
    seen: Set<u32>,
    removals: Seq<Removal>,
    i: int,
    j: int,
)
    requires
        forall|k: int| 0 <= k < removals.len() ==> (#[trigger] removals[k]).is_valid(),
        0 <= j < removals.len(),
        seen.contains(removals[j].client) || 0 <= i < j && removals[i].client
            == removals[j].client,
        has_at(data, scan.pos, removals_encoding(removals)),
    ensures
        deletions_at(data, scan, seen, removals.len()) is None,
    decreases removals.len(),
{
    let removal = removals[0];
    let rest = removals.drop_first();
    let a = varint(removal.client as nat);
    let b = varint(removal.ranges.len());
    let c = ranges_encoding(removal.ranges);
    let pos = scan.pos;
    assert(removal.is_valid());
    lemma_has_both(data, pos, removal.encoding(), removals_encoding(rest));
    lemma_has_both(data, pos, a + b, c);
    lemma_has_both(data, pos, a, b);
    lemma_number(data, pos, removal.client as nat);
    lemma_number(data, pos + a.len(), removal.ranges.len());
    lemma_ranges_len(removal.ranges);
    if !seen.contains(removal.client) {
        let start = Scan { pos: pos + a.len() + b.len(), ..scan };
        lemma_ranges(data, start, removal.client, removal.ranges);
        let next = spans_at(data, start, removal.client, removal.ranges.len())->0;
        assert(j > 0);
        assert(rest[j - 1] == removals[j]);
        if 0 < i < j {
            assert(rest[i - 1] == removals[i]);
        }
        lemma_listed_twice(data, next, seen.insert(removal.client), rest, i - 1, j - 1);
    }
}

/// An update that lists the deletions of one client in two places is not sound.
pub proof fn law_deletions_listed_twice_are_unsound(layout: Layout, i: int, j: int)
    requires
        layout.authors.len() <= u32::MAX,
        forall|k: int| 0 <= k < layout.authors.len() ==> (#[trigger] layout.authors[k]).is_valid(),
        layout.removals.len() <= u32::MAX,
        forall|k: int|
            0 <= k < layout.removals.len() ==> (#[trigger] layout.removals[k]).is_valid(),
        0 <= i < j < layout.removals.len(),
        layout.removals[i].client == layout.removals[j].client,
    ensures
        !is_sound(layout.encoding()),
{
    reveal(scan_of);
    let data = layout.encoding();
    let a = varint(layout.authors.len());
    let b = authors_encoding(layout.authors);
    let c = varint(layout.removals.len());
    let d = removals_encoding(layout.removals);
    assert(data.subrange(0, data.len() as int) =~= data);
    lemma_has_both(data, 0, a + b + c, d);
    lemma_has_both(data, 0, a + b, c);
    lemma_has_both(data, 0, a, b);
    lemma_number(data, 0, layout.authors.len());
    lemma_number(data, a.len() + b.len(), layout.removals.len());
    lemma_authors_len(layout.authors);
    lemma_removals_len(layout.removals);
    let start = Scan::start(a.len());
    lemma_authors(data, start, layout.authors);
    let scan = clients_at(data, start, layout.authors.len())->0;
    let second = Scan { pos: a.len() + b.len() + c.len(), ..scan };
    lemma_listed_twice(data, second, Set::empty(), layout.removals, i, j);
}

/// Whether a unit is held, if there is to be one.
pub open spec fn is_held_if_any(held: Set<BlockId>, unit: Option<(u32, u32)>) -> bool {
    unit matches Some(id) ==> held.contains((id.0 as u64, id.1))
}

/// Any text that a peer inserts is taken at once by an engine that has the unit which
/// the peer made before it and the units that it was put between, if `yrs` can decode
/// the update, no character is divided and the length of the text can be counted.
pub proof fn law_insertion_of_a_peer_is_taken(
    client: u32,
    clock: u32,
    piece: Piece,
    before: EngineView,
    after: EngineView,
)
    requires
        piece.is_valid(client, clock as nat),
        piece.part matches Part::Text(text) && text.len() > 0,
        decodes(single_encoding(client, clock, piece)),
        clock > 0 ==> held_ids(before.state.updates).contains((client as u64, (clock - 1) as u32)),
        is_held_if_any(held_ids(before.state.updates), piece.left),
        is_held_if_any(held_ids(before.state.updates), piece.right),
        uncut(before.state.updates.insert(single_encoding(client, clock, piece))),
        before.state.units + piece.part.bytes() <= u32::MAX,
        gathered(before, single_encoding(client, clock, piece), after),
    ensures
        after.state.updates.contains(single_encoding(client, clock, piece)),
        after.known == after.state.text,
{
    let data = single_encoding(client, clock, piece);
    let held = held_ids(before.state.updates);
    let text = piece.part->Text_0;
    law_units_are_utf16_code_units(text[0], text.take(1), text.skip(1));
    assert(text =~= text.take(1) + text.skip(1));
    assert(text.take(1) =~= seq![text[0]]);
    lemma_with_one(client, clock, piece);
    law_laid_out_update_is_sound(with_one(client, clock, piece));
    lemma_scan_shape(data);
    let scan = scan_of(data)->0;
    let block = scan.blocks[0];
    assert(scan.blocks =~= seq![block]);
    let order = seq![0int];
    assert(order[0] == 0);
    assert forall|i: int| 0 <= i < scan.blocks.len() implies #[trigger] order.contains(i) by {
        assert(order[i] == i);
    }
    law_ready_if_nothing_is_missing(held, scan, order);
    law_new_bytes_add_up(held, Seq::empty(), Seq::empty(), block);
    law_nothing_waits_without_a_reason(before, data, after, data);
}

/// The bytes of an update of one author with one block and nothing deleted.
pub open spec fn single_encoding(client: u32, clock: u32, piece: Piece) -> Seq<u8> {
    seq![1u8, 1] + varint(client as nat) + varint(clock as nat) + piece.encoding() + seq![0u8]
}

} // verus!

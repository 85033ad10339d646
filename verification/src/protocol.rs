//! Framing of the y-websocket sync protocol.
//!
//! A frame is `[message type][sync type][payload length][payload]`, where the
//! first three parts are lib0 variable-length integers: seven bits to a byte,
//! least significant group first, the high bit set on all bytes but the last.
use vstd::prelude::*;
use vstd::arithmetic::power2::{lemma2_to64, lemma2_to64_rest, lemma_pow2_adds, lemma_pow2_pos, pow2};
use vstd::bits::lemma_u64_shl_is_mul;

verus! {

/// Message type of the sync protocol.
pub const MSG_SYNC: u64 = 0;

/// Sync type of a request: the payload is a state vector.
pub const SYNC_STEP1: u64 = 0;

/// Sync type of a reply: the payload is what the requester is missing.
pub const SYNC_STEP2: u64 = 1;

/// Sync type of an incremental update.
pub const SYNC_UPDATE: u64 = 2;

/// A variable-length integer has at most this many bytes.
pub const MAX_VARINT_BYTES: u64 = 10;

/// The encoding of `n` as a variable-length integer.
pub open spec fn varint(n: nat) -> Seq<u8>
    decreases n,
{
    if n < 128 {
        seq![n as u8]
    } else {
        seq![(n % 128 + 128) as u8] + varint(n / 128)
    }
}

/// The groups of seven bits that start at `pos`: their value, which may exceed
/// 64 bits, and how many bytes they take. `None` if the last group does not
/// come within `limit` bytes or within the data.
pub open spec fn varint_groups(data: Seq<u8>, pos: nat, limit: nat) -> Option<(nat, nat)>
    decreases limit,
{
    if limit == 0 || pos >= data.len() {
        None
    } else if data[pos as int] < 128 {
        Some((data[pos as int] as nat, 1))
    } else {
        match varint_groups(data, pos + 1, (limit - 1) as nat) {
            Some((high, n)) => Some(((data[pos as int] - 128 + 128 * high) as nat, n + 1)),
            None => None,
        }
    }
}

/// The variable-length integer at `pos` and the position behind it. Bits beyond
/// the 64th are lost.
pub open spec fn varint_at(data: Seq<u8>, pos: nat) -> Option<(u64, nat)> {
    match varint_groups(data, pos, MAX_VARINT_BYTES as nat) {
        Some((value, n)) => Some(((value % 0x1_0000_0000_0000_0000) as u64, pos + n)),
        None => None,
    }
}

/// Where reading a variable-length integer at `pos` stops when there is none.
pub open spec fn varint_failure_pos(data: Seq<u8>, pos: nat) -> nat {
    if pos >= data.len() {
        pos
    } else if pos + MAX_VARINT_BYTES <= data.len() {
        pos + MAX_VARINT_BYTES as nat
    } else {
        data.len()
    }
}

/// Appends `n` to `buf` as a variable-length integer.
pub fn write_varint(buf: &mut Vec<u8>, n: u64)
    ensures
        final(buf)@ == old(buf)@ + varint(n as nat),
{
    let mut n: u64 = n;
    let ghost start = n;
    loop
        invariant_except_break
            buf@ + varint(n as nat) == old(buf)@ + varint(start as nat),
        ensures
            buf@ == old(buf)@ + varint(start as nat),
        decreases n,
    {
        let byte: u8 = (n & 0x7F) as u8;
        let ghost before = n;
        let ghost head = buf@;
        assert(before & 0x7F == before % 128 && before >> 7 == before / 128) by (bit_vector);
        n = n >> 7;
        if n == 0 {
            buf.push(byte);
            assert(varint(before as nat) == seq![byte]);
            assert(buf@ =~= head + varint(before as nat));
            break;
        }
        assert(byte < 128 ==> (byte | 0x80) == byte + 128) by (bit_vector);
        buf.push(byte | 0x80);
        assert(varint(before as nat) == seq![(byte | 0x80)] + varint(n as nat));
        assert(buf@ + varint(n as nat) =~= head + varint(before as nat));
    }
}

/// Appends `bytes` to `buf`, preceded by their number.
pub fn write_var_bytes(buf: &mut Vec<u8>, bytes: &[u8])
    ensures
        final(buf)@ == old(buf)@ + varint(bytes@.len()) + bytes@,
{
    write_varint(buf, bytes.len() as u64);
    let ghost head = buf@;
    buf.extend_from_slice(bytes);
    assert(buf@ =~= head + bytes@);
}

/// Adding the next group of seven bits, at a place that leaves room for it.
proof fn lemma_add_group(result: u64, low: u64, shift: u64)
    requires
        shift <= 56,
        low < 128,
        result < pow2(shift as nat),
    ensures
        result | (low << shift) == result + low * pow2(shift as nat),
        result + low * pow2(shift as nat) < pow2((shift + 7) as nat),
        pow2((shift + 7) as nat) <= 0x8000_0000_0000_0000,
{
    lemma2_to64();
    lemma2_to64_rest();
    lemma_pow2_adds(shift as nat, 7);
    lemma_pow2_adds((shift + 7) as nat, (56 - shift) as nat);
    lemma_pow2_pos((56 - shift) as nat);
    let place = pow2(shift as nat);
    assert(pow2((shift + 7) as nat) <= pow2(63)) by (nonlinear_arith)
        requires
            pow2(63) == pow2((shift + 7) as nat) * pow2((56 - shift) as nat),
            pow2((56 - shift) as nat) >= 1,
    ;
    assert(place <= pow2(63)) by (nonlinear_arith)
        requires
            pow2((shift + 7) as nat) == place * 128,
            pow2((shift + 7) as nat) <= pow2(63),
    ;
    assert(low * place <= 127 * place) by (nonlinear_arith)
        requires
            low < 128,
    ;
    assert(1 * place <= u64::MAX);
    lemma_u64_shl_is_mul(1, shift);
    lemma_u64_shl_is_mul(low, shift);
    assert(result | (low << shift) == result + (low << shift)) by (bit_vector)
        requires
            shift <= 56,
            low < 128,
            result < (1u64 << shift),
    ;
}

/// Adding the last group of seven bits, of which one bit fits.
proof fn lemma_add_last_group(result: u64, low: u64)
    requires
        low < 128,
        result < 0x8000_0000_0000_0000,
    ensures
        result | (low << 63u64) == (result + low * 0x8000_0000_0000_0000)
            % 0x1_0000_0000_0000_0000,
{
    let bit = low % 2;
    let lost = low / 2;
    assert(result | (low << 63u64) == result + (low % 2) * 0x8000_0000_0000_0000) by (bit_vector)
        requires
            low < 128,
            result < 0x8000_0000_0000_0000,
    ;
    assert(result + low * 0x8000_0000_0000_0000 == (result + bit * 0x8000_0000_0000_0000) + lost
        * 0x1_0000_0000_0000_0000);
}

/// Reads a variable-length integer at `*pos` and moves `*pos` behind it.
///
/// Fails if the data ends first or if the integer takes more than ten bytes;
/// `*pos` is then behind the last byte looked at.
pub fn read_varint(data: &[u8], pos: &mut usize) -> (result: Option<u64>)
    ensures
        match varint_at(data@, *old(pos) as nat) {
            Some((value, next)) => result == Some(value) && *final(pos) == next,
            None => result is None && *final(pos) == varint_failure_pos(data@, *old(pos) as nat),
        },
{
    let mut result: u64 = 0;
    let mut shift: u64 = 0;
    let ghost start = *pos as nat;
    let ghost mut n: nat = 0;
    proof {
        lemma2_to64();
    }
    loop
        invariant_except_break
            n <= 9,
            shift == 7 * n,
            *pos == start + n,
            n > 0 ==> *pos <= data@.len(),
            result < pow2(7 * n),
            varint_groups(data@, start, 10) == (match varint_groups(
                data@,
                start + n,
                (10 - n) as nat,
            ) {
                Some((high, k)) => Some(((result + pow2(7 * n) * high) as nat, k + n)),
                None => None,
            }),
        invariant
            start == *old(pos),
        ensures
            varint_at(data@, start) == Some((result, *pos as nat)),
        decreases 10 - n,
    {
        if *pos >= data.len() {
            return None;
        }
        let byte: u64 = data[*pos] as u64;
        *pos += 1;
        let ghost before = result;
        let ghost place = pow2(7 * n);
        let low: u64 = byte & 0x7F;
        proof {
            assert(byte < 256 ==> (byte & 0x7F) < 128 && (byte & 0x80 == 0 <==> byte < 128) && (
            byte & 0x7F) == (if byte < 128 {
                byte
            } else {
                (byte - 128) as u64
            })) by (bit_vector);
            lemma2_to64();
            lemma2_to64_rest();
            if n <= 8 {
                lemma_add_group(before, low, shift);
            } else {
                lemma_add_last_group(before, low);
            }
        }
        result = result | (low << shift);
        if byte & 0x80 == 0 {
            proof {
                assert(place * byte == byte * place) by (nonlinear_arith);
                assert(varint_groups(data@, (start + n) as nat, (10 - n) as nat) == Some(
                    (byte as nat, 1nat),
                ));
            }
            break;
        }
        shift += 7;
        if shift >= 64 {
            assert(varint_groups(data@, (start + 10) as nat, 0) is None);
            return None;
        }
        proof {
            lemma_pow2_adds(7 * n, 7);
            let rest = varint_groups(data@, (start + n + 1) as nat, (9 - n) as nat);
            if let Some((high, k)) = rest {
                assert(before + place * (low + 128 * high) == before + low * place + (place * 128)
                    * high) by (nonlinear_arith);
            }
            n = n + 1;
        }
    }
    Some(result)
}

/// The length-prefixed bytes at `pos` and the position behind them.
pub open spec fn bytes_at(data: Seq<u8>, pos: nat) -> Option<(Seq<u8>, nat)> {
    match varint_at(data, pos) {
        Some((len, next)) => {
            let end = next + len as nat;
            if end > data.len() {
                None
            } else {
                Some((data.subrange(next as int, end as int), end))
            }
        },
        None => None,
    }
}

/// A variable-length integer ends within the data.
pub proof fn lemma_varint_end(data: Seq<u8>, pos: nat)
    ensures
        varint_at(data, pos) matches Some((_, next)) ==> pos < next <= data.len(),
{
    lemma_groups_end(data, pos, MAX_VARINT_BYTES as nat);
}

/// The groups of a variable-length integer end within the data.
proof fn lemma_groups_end(data: Seq<u8>, pos: nat, limit: nat)
    ensures
        varint_groups(data, pos, limit) matches Some((_, n)) ==> 0 < n && pos + n <= data.len(),
    decreases limit,
{
    if limit > 0 && pos < data.len() {
        lemma_groups_end(data, pos + 1, (limit - 1) as nat);
    }
}

/// Reads length-prefixed bytes at `*pos` and moves `*pos` behind them.
///
/// Fails if there is no length at `*pos` or if the data ends before the bytes do.
pub fn read_var_bytes<'a>(data: &'a [u8], pos: &mut usize) -> (result: Option<&'a [u8]>)
    ensures
        match bytes_at(data@, *old(pos) as nat) {
            Some((bytes, next)) => result is Some && result->0@ == bytes && *final(pos) == next,
            None => result is None && *final(pos) == (match varint_at(data@, *old(pos) as nat) {
                Some((_, next)) => next,
                None => varint_failure_pos(data@, *old(pos) as nat),
            }),
        },
{
    proof {
        lemma_varint_end(data@, *pos as nat);
    }
    let declared: u64 = match read_varint(data, pos) {
        Some(len) => len,
        None => {
            return None;
        },
    };
    if declared > (data.len() - *pos) as u64 {
        return None;
    }
    let len: usize = declared as usize;
    let result = &data[*pos..*pos + len];
    *pos += len;
    Some(result)
}

/// A message of the sync protocol.
#[derive(Debug)]
pub enum SyncMessage {
    /// The sender's state vector.
    SyncStep1(Vec<u8>),
    /// What the receiver's state vector was missing.
    SyncStep2(Vec<u8>),
    /// An incremental update.
    Update(Vec<u8>),
}

impl View for SyncMessage {
    type V = (u64, Seq<u8>);

    /// The sync type and the payload.
    open spec fn view(&self) -> (u64, Seq<u8>) {
        match self {
            SyncMessage::SyncStep1(payload) => (SYNC_STEP1, payload@),
            SyncMessage::SyncStep2(payload) => (SYNC_STEP2, payload@),
            SyncMessage::Update(payload) => (SYNC_UPDATE, payload@),
        }
    }
}

/// The frame that carries `payload` as a sync message of the given type.
pub open spec fn frame(sync_type: u64, payload: Seq<u8>) -> Seq<u8> {
    varint(MSG_SYNC as nat) + varint(sync_type as nat) + varint(payload.len()) + payload
}

/// The sync message that `data` starts with: its type and its payload.
pub open spec fn message_of(data: Seq<u8>) -> Option<(u64, Seq<u8>)> {
    match varint_at(data, 0) {
        Some((msg_type, p)) => if msg_type != MSG_SYNC {
            None
        } else {
            match varint_at(data, p) {
                Some((sync_type, q)) => match bytes_at(data, q) {
                    Some((payload, _)) => if sync_type <= SYNC_UPDATE {
                        Some((sync_type, payload))
                    } else {
                        None
                    },
                    None => None,
                },
                None => None,
            }
        },
        None => None,
    }
}

/// Builds the frame of a sync message.
fn encode_frame(sync_type: u64, payload: &[u8]) -> (buf: Vec<u8>)
    ensures
        buf@ == frame(sync_type, payload@),
{
    let mut buf: Vec<u8> = Vec::new();
    write_varint(&mut buf, MSG_SYNC);
    write_varint(&mut buf, sync_type);
    write_var_bytes(&mut buf, payload);
    assert(buf@ =~= frame(sync_type, payload@));
    buf
}

/// Frames a state vector.
pub fn encode_sync_step1(state_vector: &[u8]) -> (buf: Vec<u8>)
    ensures
        buf@ == frame(SYNC_STEP1, state_vector@),
{
    encode_frame(SYNC_STEP1, state_vector)
}

/// Frames the reply to a state vector.
pub fn encode_sync_step2(update: &[u8]) -> (buf: Vec<u8>)
    ensures
        buf@ == frame(SYNC_STEP2, update@),
{
    encode_frame(SYNC_STEP2, update)
}

/// Frames an incremental update.
pub fn encode_update(update: &[u8]) -> (buf: Vec<u8>)
    ensures
        buf@ == frame(SYNC_UPDATE, update@),
{
    encode_frame(SYNC_UPDATE, update)
}

/// Reads the sync message that `data` starts with.
///
/// Returns `None` for a message that is not a sync message, for an unknown sync
/// type and for a truncated frame.
pub fn decode_message(data: &[u8]) -> (message: Option<SyncMessage>)
    ensures
        match message {
            Some(message) => message_of(data@) == Some(message@),
            None => message_of(data@) is None,
        },
{
    let mut pos: usize = 0;
    let msg_type: u64 = match read_varint(data, &mut pos) {
        Some(msg_type) => msg_type,
        None => {
            return None;
        },
    };
    if msg_type != MSG_SYNC {
        return None;
    }
    let sync_type: u64 = match read_varint(data, &mut pos) {
        Some(sync_type) => sync_type,
        None => {
            return None;
        },
    };
    let payload = match read_var_bytes(data, &mut pos) {
        Some(payload) => vstd::slice::slice_to_vec(payload),
        None => {
            return None;
        },
    };
    if sync_type == SYNC_STEP1 {
        Some(SyncMessage::SyncStep1(payload))
    } else if sync_type == SYNC_STEP2 {
        Some(SyncMessage::SyncStep2(payload))
    } else if sync_type == SYNC_UPDATE {
        Some(SyncMessage::Update(payload))
    } else {
        None
    }
}

/// Reading the groups of an encoded integer from the middle of some data.
proof fn lemma_groups_of_varint(head: Seq<u8>, n: nat, tail: Seq<u8>, limit: nat)
    requires
        limit > 0,
        n < pow2(7 * limit),
    ensures
        varint_groups(head + varint(n) + tail, head.len(), limit) == Some((n, varint(n).len())),
    decreases n,
{
    let data = head + varint(n) + tail;
    lemma2_to64();
    if n < 128 {
        assert(data[head.len() as int] == varint(n)[0]);
    } else {
        let byte = (n % 128 + 128) as u8;
        let longer = head.push(byte);
        assert(data =~= longer + varint(n / 128) + tail);
        assert(data[head.len() as int] == byte);
        assert(limit > 1);
        lemma_pow2_adds(7 * (limit - 1) as nat, 7);
        assert(7 * (limit - 1) + 7 == 7 * limit);
        lemma_groups_of_varint(longer, n / 128, tail, (limit - 1) as nat);
    }
}

/// An encoded integer that is cut short cannot be read.
proof fn lemma_groups_of_cut_varint(head: Seq<u8>, n: nat, kept: nat, limit: nat)
    requires
        kept < varint(n).len(),
    ensures
        varint_groups(head + varint(n).take(kept as int), head.len(), limit) is None,
    decreases n,
{
    let data = head + varint(n).take(kept as int);
    if kept > 0 && limit > 0 {
        let byte = (n % 128 + 128) as u8;
        assert(n >= 128);
        let longer = head.push(byte);
        assert(data =~= longer + varint(n / 128).take(kept - 1));
        assert(data[head.len() as int] == byte);
        lemma_groups_of_cut_varint(longer, n / 128, (kept - 1) as nat, (limit - 1) as nat);
    }
}

/// An integer that was written with [`write_varint`] is read back by
/// [`read_varint`], whatever stands before and behind it.
pub proof fn law_varint_round_trip(head: Seq<u8>, n: u64, tail: Seq<u8>)
    ensures
        varint_at(head + varint(n as nat) + tail, head.len()) == Some(
            (n, head.len() + varint(n as nat).len()),
        ),
        1 <= varint(n as nat).len() <= MAX_VARINT_BYTES,
{
    lemma2_to64();
    lemma2_to64_rest();
    lemma_pow2_adds(64, 6);
    lemma_groups_of_varint(head, n as nat, tail, 10);
    lemma_varint_len(n as nat, 10);
}

/// How many bytes an encoded integer takes.
pub proof fn lemma_varint_len(n: nat, limit: nat)
    requires
        limit > 0,
        n < pow2(7 * limit),
    ensures
        1 <= varint(n).len() <= limit,
    decreases n,
{
    lemma2_to64();
    if n >= 128 {
        assert(limit > 1);
        lemma_pow2_adds(7 * (limit - 1) as nat, 7);
        assert(7 * (limit - 1) + 7 == 7 * limit);
        lemma_varint_len(n / 128, (limit - 1) as nat);
    }
}

/// What was written with [`write_var_bytes`] is read back by
/// [`read_var_bytes`], whatever stands before and behind it.
pub proof fn law_var_bytes_round_trip(head: Seq<u8>, bytes: Seq<u8>, tail: Seq<u8>)
    requires
        bytes.len() <= u64::MAX,
    ensures
        bytes_at(head + varint(bytes.len()) + bytes + tail, head.len()) == Some(
            (bytes, head.len() + varint(bytes.len()).len() + bytes.len()),
        ),
{
    let data = head + varint(bytes.len()) + bytes + tail;
    assert(data =~= head + varint(bytes.len()) + (bytes + tail));
    law_varint_round_trip(head, bytes.len() as u64, bytes + tail);
    let next = head.len() + varint(bytes.len()).len();
    assert(data.subrange(next as int, (next + bytes.len()) as int) =~= bytes);
}

/// The parts of a frame in front of its payload are read back from any data
/// that holds them.
proof fn lemma_frame_header(sync_type: u64, len: u64, rest: Seq<u8>)
    ensures
        ({
            let data = varint(MSG_SYNC as nat) + varint(sync_type as nat) + varint(len as nat)
                + rest;
            let p = varint(MSG_SYNC as nat).len();
            let q = p + varint(sync_type as nat).len();
            &&& varint_at(data, 0) == Some((MSG_SYNC, p))
            &&& varint_at(data, p) == Some((sync_type, q))
            &&& varint_at(data, q) == Some((len, q + varint(len as nat).len()))
        }),
{
    let a = varint(MSG_SYNC as nat);
    let b = varint(sync_type as nat);
    let c = varint(len as nat);
    let data = a + b + c + rest;
    assert(data =~= Seq::<u8>::empty() + a + (b + c + rest));
    law_varint_round_trip(Seq::empty(), MSG_SYNC, b + c + rest);
    assert(data =~= a + b + (c + rest));
    law_varint_round_trip(a, sync_type, c + rest);
    assert(data =~= (a + b) + c + rest);
    law_varint_round_trip(a + b, len, rest);
}

/// Decoding undoes encoding: a frame of any of the three sync types decodes to
/// that type and payload, also when more bytes follow it.
pub proof fn law_frame_round_trip(sync_type: u64, payload: Seq<u8>, tail: Seq<u8>)
    requires
        sync_type <= SYNC_UPDATE,
        payload.len() <= u64::MAX,
    ensures
        message_of(frame(sync_type, payload) + tail) == Some((sync_type, payload)),
        message_of(frame(sync_type, payload)) == Some((sync_type, payload)),
{
    let head = varint(MSG_SYNC as nat) + varint(sync_type as nat);
    let data = frame(sync_type, payload) + tail;
    let full = varint(MSG_SYNC as nat) + varint(sync_type as nat) + varint(payload.len()) + (payload
        + tail);
    assert(data =~= full);
    lemma_frame_header(sync_type, payload.len() as u64, payload + tail);
    assert(data =~= head + varint(payload.len()) + payload + tail);
    law_var_bytes_round_trip(head, payload, tail);
    lemma_frame_header(sync_type, payload.len() as u64, payload);
    assert(frame(sync_type, payload) =~= head + varint(payload.len()) + payload + Seq::<
        u8,
    >::empty());
    law_var_bytes_round_trip(head, payload, Seq::empty());
}

/// Two messages never share a frame.
pub proof fn law_frame_injective(type1: u64, payload1: Seq<u8>, type2: u64, payload2: Seq<u8>)
    requires
        type1 <= SYNC_UPDATE,
        type2 <= SYNC_UPDATE,
        payload1.len() <= u64::MAX,
        payload2.len() <= u64::MAX,
        frame(type1, payload1) == frame(type2, payload2),
    ensures
        type1 == type2,
        payload1 == payload2,
{
    law_frame_round_trip(type1, payload1, Seq::empty());
    law_frame_round_trip(type2, payload2, Seq::empty());
}

/// A frame that is cut short anywhere decodes to nothing.
pub proof fn law_truncated_frame_rejected(sync_type: u64, payload: Seq<u8>, kept: nat)
    requires
        payload.len() <= u64::MAX,
        kept < frame(sync_type, payload).len(),
    ensures
        message_of(frame(sync_type, payload).take(kept as int)) is None,
{
    let a = varint(MSG_SYNC as nat);
    let b = varint(sync_type as nat);
    let c = varint(payload.len());
    let data = frame(sync_type, payload).take(kept as int);
    if kept < a.len() {
        assert(data =~= Seq::<u8>::empty() + a.take(kept as int));
        lemma_groups_of_cut_varint(Seq::empty(), MSG_SYNC as nat, kept, 10);
    } else if kept < a.len() + b.len() {
        let k = (kept - a.len()) as nat;
        assert(data =~= Seq::<u8>::empty() + a + b.take(k as int));
        law_varint_round_trip(Seq::empty(), MSG_SYNC, b.take(k as int));
        assert(data =~= a + b.take(k as int));
        lemma_groups_of_cut_varint(a, sync_type as nat, k, 10);
    } else if kept < a.len() + b.len() + c.len() {
        let k = (kept - a.len() - b.len()) as nat;
        assert(data =~= Seq::<u8>::empty() + a + (b + c.take(k as int)));
        law_varint_round_trip(Seq::empty(), MSG_SYNC, b + c.take(k as int));
        assert(data =~= a + b + c.take(k as int));
        law_varint_round_trip(a, sync_type, c.take(k as int));
        lemma_groups_of_cut_varint(a + b, payload.len(), k, 10);
    } else {
        let k = kept - a.len() - b.len() - c.len();
        assert(data =~= a + b + c + payload.take(k));
        lemma_frame_header(sync_type, payload.len() as u64, payload.take(k));
    }
}

/// A frame that declares more payload than there is decodes to nothing, however
/// much it declares.
pub proof fn law_overlong_payload_rejected(sync_type: u64, declared: u64, rest: Seq<u8>)
    requires
        rest.len() < declared,
    ensures
        message_of(
            varint(MSG_SYNC as nat) + varint(sync_type as nat) + varint(declared as nat) + rest,
        ) is None,
{
    lemma_frame_header(sync_type, declared, rest);
}

/// Data of another message type, or of an unknown sync type, decodes to
/// nothing.
pub proof fn law_unknown_type_rejected(data: Seq<u8>)
    requires
        varint_at(data, 0) is Some,
        ({
            let (msg_type, p) = varint_at(data, 0)->0;
            msg_type != MSG_SYNC || (varint_at(data, p) is Some && (varint_at(data, p)->0).0
                > SYNC_UPDATE)
        }),
    ensures
        message_of(data) is None,
{
}

/// The number whose digits to the base 128 are the low seven bits of `bytes`, the
/// least significant first.
pub open spec fn base128(bytes: Seq<u8>) -> nat
    decreases bytes.len(),
{
    if bytes.len() == 0 {
        0
    } else {
        base128(bytes.drop_last()) + (bytes.last() as nat % 128) * pow2(
            7 * (bytes.len() - 1) as nat,
        )
    }
}

/// Whether the high bit is set on all of `bytes` but the last.
pub open spec fn is_delimited(bytes: Seq<u8>) -> bool {
    &&& bytes.len() > 0
    &&& bytes.last() < 128
    &&& forall|i: int| 0 <= i < bytes.len() - 1 ==> #[trigger] bytes[i] >= 128
}

/// The first digit is worth itself, and the others 128 times what they are worth
/// without it.
proof fn lemma_base128_first(bytes: Seq<u8>)
    requires
        bytes.len() > 0,
    ensures
        base128(bytes) == bytes[0] as nat % 128 + 128 * base128(bytes.drop_first()),
    decreases bytes.len(),
{
    lemma2_to64();
    let rest = bytes.drop_first();
    if bytes.len() == 1 {
        assert(base128(bytes.drop_last()) == 0);
        assert(base128(rest) == 0);
        assert((bytes.last() as nat % 128) * 1 == bytes.last() as nat % 128);
    } else {
        let init = bytes.drop_last();
        lemma_base128_first(init);
        assert(rest.drop_last() =~= init.drop_first());
        assert(rest.last() == bytes.last());
        let d = bytes.last() as nat % 128;
        let p = pow2(7 * (rest.len() - 1) as nat);
        lemma_pow2_adds(7 * (rest.len() - 1) as nat, 7);
        assert(7 * (rest.len() - 1) + 7 == 7 * (bytes.len() - 1));
        assert(d * (p * 128) == 128 * (d * p)) by (nonlinear_arith);
    }
}

/// An encoded integer has its high bits set on all bytes but the last, is worth the
/// integer to the base 128, and does not end in a zero unless it is zero.
pub proof fn law_varint_is_base_128(n: nat)
    ensures
        is_delimited(varint(n)),
        base128(varint(n)) == n,
        varint(n).len() > 1 ==> varint(n).last() > 0,
    decreases n,
{
    lemma_base128_first(varint(n));
    if n < 128 {
        assert(varint(n).drop_first() =~= Seq::empty());
        assert(base128(varint(n).drop_first()) == 0);
    } else {
        law_varint_is_base_128(n / 128);
        assert(varint(n).drop_first() =~= varint(n / 128));
        let bytes = varint(n);
        assert forall|i: int| 0 <= i < bytes.len() - 1 implies #[trigger] bytes[i] >= 128 by {
            if i > 0 {
                assert(bytes[i] == varint(n / 128)[i - 1]);
            }
        }
        assert(bytes.last() == varint(n / 128).last());
    }
}

proof fn lemma_groups_of_bytes(head: Seq<u8>, bytes: Seq<u8>, tail: Seq<u8>, limit: nat)
    requires
        is_delimited(bytes),
        bytes.len() <= limit,
    ensures
        varint_groups(head + bytes + tail, head.len(), limit) == Some(
            (base128(bytes), bytes.len()),
        ),
    decreases bytes.len(),
{
    let data = head + bytes + tail;
    assert(data[head.len() as int] == bytes[0]);
    lemma_base128_first(bytes);
    if bytes.len() == 1 {
        assert(base128(bytes.drop_first()) == 0);
    } else {
        let rest = bytes.drop_first();
        let longer = head.push(bytes[0]);
        assert(data =~= longer + rest + tail);
        assert forall|i: int| 0 <= i < rest.len() - 1 implies #[trigger] rest[i] >= 128 by {
            assert(rest[i] == bytes[i + 1]);
        }
        lemma_groups_of_bytes(longer, rest, tail, (limit - 1) as nat);
        assert(bytes[0] >= 128);
    }
}

/// An integer is read wherever at most ten bytes stand that end with the first one
/// whose high bit is not set, whoever wrote them and whatever stands around them:
/// the number to the base 128, of which 64 bits are kept.
pub proof fn law_varint_of_any_writer_is_read(head: Seq<u8>, bytes: Seq<u8>, tail: Seq<u8>)
    requires
        is_delimited(bytes),
        bytes.len() <= 10,
    ensures
        varint_at(head + bytes + tail, head.len()) == Some(
            ((base128(bytes) % 0x1_0000_0000_0000_0000) as u64, head.len() + bytes.len()),
        ),
{
    lemma_groups_of_bytes(head, bytes, tail, 10);
}

proof fn lemma_no_groups(data: Seq<u8>, pos: nat, limit: nat)
    requires
        forall|i: int| pos <= i < pos + limit && i < data.len() ==> #[trigger] data[i] >= 128,
    ensures
        varint_groups(data, pos, limit) is None,
    decreases limit,
{
    if limit > 0 && pos < data.len() {
        lemma_no_groups(data, pos + 1, (limit - 1) as nat);
    }
}

/// There is no integer where none of the next ten bytes, or of those that are left,
/// ends it.
pub proof fn law_endless_varint_is_rejected(data: Seq<u8>, pos: nat)
    requires
        forall|i: int| pos <= i < pos + 10 && i < data.len() ==> #[trigger] data[i] >= 128,
    ensures
        varint_at(data, pos) is None,
{
    lemma_no_groups(data, pos, 10);
}

/// Where there is no integer, reading goes on over bytes that do not end one: to the
/// tenth, or to the last that is there.
pub proof fn law_reading_stops_behind_what_was_read(data: Seq<u8>, pos: nat)
    requires
        varint_at(data, pos) is None,
        pos <= data.len(),
    ensures
        pos <= varint_failure_pos(data, pos) <= data.len(),
        varint_failure_pos(data, pos) == data.len() || varint_failure_pos(data, pos) == pos + 10,
        varint_failure_pos(data, pos) <= pos + 10,
        forall|i: int|
            pos <= i < varint_failure_pos(data, pos) ==> #[trigger] data[i] >= 128,
{
    lemma_groups_missing(data, pos, 10);
}

proof fn lemma_groups_missing(data: Seq<u8>, pos: nat, limit: nat)
    requires
        varint_groups(data, pos, limit) is None,
    ensures
        forall|i: int| pos <= i < pos + limit && i < data.len() ==> #[trigger] data[i] >= 128,
    decreases limit,
{
    if limit > 0 && pos < data.len() {
        lemma_groups_missing(data, pos + 1, (limit - 1) as nat);
    }
}

/// A frame is a zero, the sync type, the length of the payload to the base 128 and
/// the payload: a request has the sync type zero, a reply one, an update two.
pub proof fn law_layout_of_frames(payload: Seq<u8>)
    ensures
        frame(SYNC_STEP1, payload) == seq![0u8, 0] + varint(payload.len()) + payload,
        frame(SYNC_STEP2, payload) == seq![0u8, 1] + varint(payload.len()) + payload,
        frame(SYNC_UPDATE, payload) == seq![0u8, 2] + varint(payload.len()) + payload,
        is_delimited(varint(payload.len())),
        base128(varint(payload.len())) == payload.len(),
{
    law_varint_is_base_128(payload.len());
    assert(varint(0) == seq![0u8]);
    assert(varint(1) == seq![1u8]);
    assert(varint(2) == seq![2u8]);
    assert(frame(SYNC_STEP1, payload) =~= seq![0u8, 0] + varint(payload.len()) + payload);
    assert(frame(SYNC_STEP2, payload) =~= seq![0u8, 1] + varint(payload.len()) + payload);
    assert(frame(SYNC_UPDATE, payload) =~= seq![0u8, 2] + varint(payload.len()) + payload);
}

/// A message is decoded however its sender wrote the three integers in front of the
/// payload: it is a sync message exactly if the first is zero and the second at most
/// two, and then has that sync type and that payload.
pub proof fn law_message_of_any_writer_is_decoded(
    first: Seq<u8>,
    second: Seq<u8>,
    third: Seq<u8>,
    payload: Seq<u8>,
    tail: Seq<u8>,
)
    requires
        is_delimited(first) && first.len() <= 9,
        is_delimited(second) && second.len() <= 9,
        is_delimited(third) && third.len() <= 9,
        base128(third) == payload.len(),
    ensures
        message_of(first + second + third + payload + tail) == (if base128(first) == 0 && base128(
            second,
        ) <= 2 {
            Some((base128(second) as u64, payload))
        } else {
            None
        }),
{
    let data = first + second + third + payload + tail;
    lemma_base128_bound(first);
    lemma_base128_bound(second);
    lemma_base128_bound(third);
    assert(data =~= Seq::<u8>::empty() + first + (second + third + payload + tail));
    law_varint_of_any_writer_is_read(Seq::empty(), first, second + third + payload + tail);
    assert(data =~= first + second + (third + payload + tail));
    law_varint_of_any_writer_is_read(first, second, third + payload + tail);
    assert(data =~= (first + second) + third + (payload + tail));
    law_varint_of_any_writer_is_read(first + second, third, payload + tail);
    let from = first.len() + second.len() + third.len();
    assert(data.subrange(from as int, (from + payload.len()) as int) =~= payload);
}

/// Nine digits fit into 64 bits.
pub proof fn lemma_base128_bound(bytes: Seq<u8>)
    requires
        bytes.len() <= 9,
    ensures
        base128(bytes) < 0x1_0000_0000_0000_0000,
{
    lemma_base128_below(bytes);
    lemma2_to64();
    lemma2_to64_rest();
    if bytes.len() < 9 {
        vstd::arithmetic::power2::lemma_pow2_strictly_increases(7 * bytes.len(), 63);
    }
}

proof fn lemma_base128_below(bytes: Seq<u8>)
    ensures
        base128(bytes) < pow2(7 * bytes.len()),
    decreases bytes.len(),
{
    lemma2_to64();
    if bytes.len() > 0 {
        lemma_base128_below(bytes.drop_last());
        let d = bytes.last() as nat % 128;
        let p = pow2(7 * (bytes.len() - 1) as nat);
        lemma_pow2_adds(7 * (bytes.len() - 1) as nat, 7);
        assert(7 * (bytes.len() - 1) + 7 == 7 * bytes.len());
        assert(p + d * p <= p * 128) by (nonlinear_arith)
            requires
                d <= 127,
                p >= 0,
        ;
    }
}

/// What is decoded is one of the three sync types and a payload that is in the data.
pub proof fn law_decoded_payload_is_in_the_data(data: Seq<u8>)
    ensures
        message_of(data) matches Some((sync_type, payload)) ==> {
            &&& sync_type == SYNC_STEP1 || sync_type == SYNC_STEP2 || sync_type == SYNC_UPDATE
            &&& exists|from: int|
                3 <= from <= data.len() - payload.len() && #[trigger] data.subrange(
                    from,
                    from + payload.len(),
                ) == payload
        },
{
    if let Some((sync_type, payload)) = message_of(data) {
        let (_, p) = varint_at(data, 0)->0;
        let (_, q) = varint_at(data, p)->0;
        let (len, r) = varint_at(data, q)->0;
        lemma_varint_end(data, 0);
        lemma_varint_end(data, p);
        lemma_varint_end(data, q);
        assert(payload.len() == len);
        assert(data.subrange(r as int, r as int + payload.len()) == payload);
    }
}

} // verus!

//! The frame exchanged on the wire, its encoding and its integrity check.
//!
//! A frame is a 19-byte header followed by the body. Multi-byte fields are
//! little-endian.
//!
//! | offset | length | field                              |
//! |--------|--------|------------------------------------|
//! | 0      | 1      | checksum                           |
//! | 1      | 3      | reserved: zero when written, ignored when read |
//! | 4      | 1      | kind (1 request, 2 response)       |
//! | 5      | 4      | slice number                       |
//! | 9      | 4      | total slices                       |
//! | 13     | 4      | resource identifier                |
//! | 17     | 2      | body length                        |
//! | 19     | ...    | body                               |

use crate::bytes::push_bytes;
use crate::common::SLICE_SIZE;
use vstd::prelude::*;
use vstd::slice::slice_subrange;

verus! {

/// Length of the fixed frame header.
pub const HEADER_LEN: usize = 19;

/// Kind of a message that asks for a slice.
pub const REQUEST: u8 = 1;

/// Kind of a message that delivers a slice.
pub const RESPONSE: u8 = 2;

/// Largest body that the two-byte length field can declare.
pub const MAX_BODY_LEN: usize = 0xFFFF;

/// The unit exchanged on the wire.
///
/// `last_slice` is padding in a request; in a response it is the number of
/// slices that make up the whole resource, not the number of the slice
/// delivered.
#[derive(Debug, Clone, PartialEq, Eq)]
pub struct Message {
    pub mtype: u8,
    pub slice: u32,
    pub last_slice: u32,
    pub file: u32,
    pub body: Vec<u8>,
}

/// What a [`Message`] holds, as plain values.
pub struct MessageView {
    pub kind: u8,
    pub slice: u32,
    pub total: u32,
    pub file: u32,
    pub body: Seq<u8>,
}

impl View for Message {
    type V = MessageView;

    open spec fn view(&self) -> MessageView {
        MessageView {
            kind: self.mtype,
            slice: self.slice,
            total: self.last_slice,
            file: self.file,
            body: self.body@,
        }
    }
}

impl MessageView {
    /// Whether the message can be written as a frame: its body length fits
    /// the length field.
    pub open spec fn encodable(self) -> bool {
        self.body.len() <= MAX_BODY_LEN
    }

    /// Whether the message is one that the protocol exchanges: a request
    /// without a body or a response, for a slice numbered from 1, with a
    /// body of at most one slice.
    pub open spec fn valid(self) -> bool {
        &&& self.kind == REQUEST || self.kind == RESPONSE
        &&& self.kind == REQUEST ==> self.body.len() == 0
        &&& self.slice >= 1
        &&& self.body.len() <= SLICE_SIZE
    }

    /// The number of slices of the whole resource. Only a response tells
    /// it; in a request the field is padding.
    pub open spec fn total_slices(self) -> Option<u32> {
        if self.kind == RESPONSE {
            Some(self.total)
        } else {
            None
        }
    }
}

impl Message {
    /// The number of slices of the whole resource, if this is a response.
    pub fn total_slices(&self) -> (total: Option<u32>)
        ensures
            total == self@.total_slices(),
    {
        if self.mtype == RESPONSE {
            Some(self.last_slice)
        } else {
            None
        }
    }
}

/// The two bytes of `x`, least significant first.
pub open spec fn u16_le(x: u16) -> Seq<u8> {
    seq![(x % 256) as u8, (x / 256) as u8]
}

/// The four bytes of `x`, least significant first.
pub open spec fn u32_le(x: u32) -> Seq<u8> {
    seq![
        (x % 256) as u8,
        ((x / 0x100) % 256) as u8,
        ((x / 0x1_0000) % 256) as u8,
        (x / 0x100_0000) as u8,
    ]
}

/// The number whose little-endian bytes are the first two of `s`.
pub open spec fn u16_from_le(s: Seq<u8>) -> u16 {
    (s[0] + 0x100 * s[1]) as u16
}

/// The number whose little-endian bytes are the first four of `s`.
pub open spec fn u32_from_le(s: Seq<u8>) -> u32 {
    (s[0] + 0x100 * s[1] + 0x1_0000 * s[2] + 0x100_0000 * s[3]) as u32
}

/// Sum of the bytes of `s`.
pub open spec fn byte_sum(s: Seq<u8>) -> int
    decreases s.len(),
{
    if s.len() == 0 {
        0
    } else {
        byte_sum(s.drop_last()) + s.last()
    }
}

/// The longitudinal redundancy check of `s`: the byte that brings the sum of
/// `s` to zero modulo 256.
pub open spec fn checksum(s: Seq<u8>) -> u8 {
    ((256 - byte_sum(s) % 256) % 256) as u8
}

/// The part of a frame that the checksum covers: everything from offset 4.
pub open spec fn checked_part(m: MessageView) -> Seq<u8> {
    seq![m.kind] + u32_le(m.slice) + u32_le(m.total) + u32_le(m.file) + u16_le(
        m.body.len() as u16,
    ) + m.body
}

/// The frame of `m`.
pub open spec fn encode(m: MessageView) -> Seq<u8> {
    seq![checksum(checked_part(m)), 0u8, 0u8, 0u8] + checked_part(m)
}

/// The body length that the header of `data` declares.
pub open spec fn declared_len(data: Seq<u8>) -> int {
    u16_from_le(data.subrange(17, 19)) as int
}

/// The message that the start of `data` holds, if it holds one.
///
/// `data` may be longer than the frame: what follows the declared body is
/// not looked at.
pub open spec fn decode(data: Seq<u8>) -> Option<MessageView> {
    if data.len() < HEADER_LEN {
        None
    } else if data.len() < HEADER_LEN + declared_len(data) {
        None
    } else if checksum(data.subrange(4, HEADER_LEN + declared_len(data))) != data[0] {
        None
    } else {
        Some(
            MessageView {
                kind: data[4],
                slice: u32_from_le(data.subrange(5, 9)),
                total: u32_from_le(data.subrange(9, 13)),
                file: u32_from_le(data.subrange(13, 17)),
                body: data.subrange(HEADER_LEN as int, HEADER_LEN + declared_len(data)),
            },
        )
    }
}

/// Extending a sequence by one byte adds that byte to its sum.
proof fn lemma_byte_sum_push(s: Seq<u8>, b: u8)
    ensures
        byte_sum(s.push(b)) == byte_sum(s) + b,
{
    assert(s.push(b).drop_last() =~= s);
}

/// Computes the checksum of `data`.
pub fn lrc(data: &[u8]) -> (c: u8)
    ensures
        c == checksum(data@),
{
    let mut result: u8 = 0;
    let n = data.len();
    let mut i: usize = 0;
    while i < n
        invariant
            i <= n,
            n == data@.len(),
            result as int == byte_sum(data@.take(i as int)) % 256,
        decreases n - i,
    {
        proof {
            lemma_byte_sum_push(data@.take(i as int), data@[i as int]);
            assert(data@.take(i as int).push(data@[i as int]) =~= data@.take(i + 1));
        }
        result = result.wrapping_add(data[i]);
        i = i + 1;
    }
    proof {
        assert(data@.take(n as int) =~= data@);
    }
    let flipped = result ^ 0xFF;
    assert(flipped == 255 - result) by (bit_vector)
        requires
            flipped == result ^ 0xFF,
    ;
    flipped.wrapping_add(1)
}

/// Appends the two little-endian bytes of `x` to `buf`.
fn push_u16(buf: &mut Vec<u8>, x: u16)
    ensures
        final(buf)@ == old(buf)@ + u16_le(x),
{
    buf.push((x % 256) as u8);
    buf.push((x / 256) as u8);
    assert(buf@ =~= old(buf)@ + u16_le(x));
}

/// Appends the four little-endian bytes of `x` to `buf`.
fn push_u32(buf: &mut Vec<u8>, x: u32)
    ensures
        final(buf)@ == old(buf)@ + u32_le(x),
{
    buf.push((x % 256) as u8);
    buf.push(((x / 0x100) % 256) as u8);
    buf.push(((x / 0x1_0000) % 256) as u8);
    buf.push((x / 0x100_0000) as u8);
    assert(buf@ =~= old(buf)@ + u32_le(x));
}

/// Reads the little-endian number in `data[at..at + 2]`.
fn read_u16(data: &[u8], at: usize) -> (x: u16)
    requires
        at + 2 <= data@.len(),
    ensures
        x == u16_from_le(data@.subrange(at as int, at + 2)),
{
    let b0: u16 = data[at] as u16;
    let b1: u16 = data[at + 1] as u16;
    b0 + 0x100 * b1
}

/// Reads the little-endian number in `data[at..at + 4]`.
fn read_u32(data: &[u8], at: usize) -> (x: u32)
    requires
        at + 4 <= data@.len(),
    ensures
        x == u32_from_le(data@.subrange(at as int, at + 4)),
{
    let b0: u32 = data[at] as u32;
    let b1: u32 = data[at + 1] as u32;
    let b2: u32 = data[at + 2] as u32;
    let b3: u32 = data[at + 3] as u32;
    b0 + 0x100 * b1 + 0x1_0000 * b2 + 0x100_0000 * b3
}

/// Writes `data` as a frame.
pub fn encode_message(data: &Message) -> (frame: Vec<u8>)
    requires
        data@.encodable(),
    ensures
        frame@ == encode(data@),
        frame@.len() == HEADER_LEN + data.body@.len(),
{
    let mut buf: Vec<u8> = Vec::new();
    buf.push(0);
    buf.push(0);
    buf.push(0);
    buf.push(0);
    buf.push(data.mtype);
    push_u32(&mut buf, data.slice);
    push_u32(&mut buf, data.last_slice);
    push_u32(&mut buf, data.file);
    push_u16(&mut buf, data.body.len() as u16);
    push_bytes(&mut buf, data.body.as_slice());
    assert(buf@ =~= seq![0u8, 0u8, 0u8, 0u8] + checked_part(data@));
    let total_len = buf.len();
    let checksum = lrc(slice_subrange(buf.as_slice(), 4, total_len));
    assert(buf@.subrange(4, total_len as int) =~= checked_part(data@));
    buf[0] = checksum;
    assert(buf@ =~= encode(data@));
    buf
}

/// Reads the message at the start of `data`.
///
/// Returns `None` for a malformed frame: one shorter than a header, one
/// shorter than its header declares, or one whose checksum does not match.
pub fn parse_message(data: &[u8]) -> (parsed: Option<Message>)
    ensures
        parsed is Some ==> decode(data@) == Some(parsed.unwrap()@),
        parsed is None ==> decode(data@) is None,
{
    if data.len() < HEADER_LEN {
        return None;
    }
    let checksum = data[0];
    let body_len: usize = read_u16(data, 17) as usize;
    if data.len() - HEADER_LEN < body_len {
        return None;
    }
    let msg_len = HEADER_LEN + body_len;
    if lrc(slice_subrange(data, 4, msg_len)) != checksum {
        return None;
    }
    let mut body: Vec<u8> = Vec::new();
    push_bytes(&mut body, slice_subrange(data, HEADER_LEN, msg_len));
    Some(
        Message {
            mtype: data[4],
            slice: read_u32(data, 5),
            last_slice: read_u32(data, 9),
            file: read_u32(data, 13),
            body,
        },
    )
}

/// The request for slice `slice` of resource `file`.
pub open spec fn request_view(file: u32, slice: u32) -> MessageView {
    MessageView { kind: REQUEST, slice, total: 0, file, body: Seq::empty() }
}

/// The response to `req` that carries `body` and reports `total` slices.
pub open spec fn response_view(req: MessageView, body: Seq<u8>, total: u32) -> MessageView {
    MessageView { kind: RESPONSE, slice: req.slice, total, file: req.file, body }
}

/// Whether `res` answers `req`: a response to a request, for the same
/// resource and the same slice.
pub open spec fn answers(req: MessageView, res: MessageView) -> bool {
    &&& req.kind == REQUEST
    &&& res.kind == RESPONSE
    &&& req.file == res.file
    &&& req.slice == res.slice
}

/// Builds the request for slice `slice` of resource `file`.
pub fn request(file: u32, slice: u32) -> (req: Message)
    ensures
        req@ == request_view(file, slice),
{
    let req = Message { mtype: REQUEST, slice, last_slice: 0, file, body: Vec::new() };
    assert(req.body@ =~= Seq::<u8>::empty());
    req
}

/// Builds the response to `req` that carries `body` and reports that the
/// resource has `last_slice` slices.
pub fn response(req: Message, body: Vec<u8>, last_slice: u32) -> (res: Message)
    ensures
        res@ == response_view(req@, body@, last_slice),
{
    Message { mtype: RESPONSE, slice: req.slice, last_slice, file: req.file, body }
}

/// Tells whether `res` answers `req`.
pub fn matches(req: &Message, res: &Message) -> (b: bool)
    ensures
        b == answers(req@, res@),
{
    req.mtype == REQUEST && res.mtype == RESPONSE && req.file == res.file && req.slice == res.slice
}

/// Reading back the little-endian bytes of a number gives the number.
pub proof fn lemma_le_round_trip(x: u32, y: u16)
    ensures
        u32_from_le(u32_le(x)) == x,
        u16_from_le(u16_le(y)) == y,
{
}

/// The sum of a concatenation is the sum of the sums.
pub proof fn lemma_byte_sum_concat(a: Seq<u8>, b: Seq<u8>)
    ensures
        byte_sum(a + b) == byte_sum(a) + byte_sum(b),
    decreases b.len(),
{
    if b.len() == 0 {
        assert(a + b =~= a);
    } else {
        lemma_byte_sum_concat(a, b.drop_last());
        assert((a + b).drop_last() =~= a + b.drop_last());
    }
}

/// Replacing one byte changes the sum by the difference of the two bytes.
pub proof fn lemma_byte_sum_update(s: Seq<u8>, at: int, b: u8)
    requires
        0 <= at < s.len(),
    ensures
        byte_sum(s.update(at, b)) == byte_sum(s) - s[at] + b,
{
    let head = s.take(at);
    let tail = s.skip(at + 1);
    assert(s =~= head + seq![s[at]] + tail);
    assert(s.update(at, b) =~= head + seq![b] + tail);
    lemma_byte_sum_concat(head, seq![s[at]]);
    lemma_byte_sum_concat(head + seq![s[at]], tail);
    lemma_byte_sum_concat(head, seq![b]);
    lemma_byte_sum_concat(head + seq![b], tail);
    lemma_byte_sum_push(Seq::empty(), s[at]);
    lemma_byte_sum_push(Seq::empty(), b);
    assert(Seq::<u8>::empty().push(s[at]) =~= seq![s[at]]);
    assert(Seq::<u8>::empty().push(b) =~= seq![b]);
}

/// Every valid message can be written as a frame.
pub proof fn lemma_valid_is_encodable(m: MessageView)
    requires
        m.valid(),
    ensures
        m.encodable(),
{
}

/// Round trip: a frame decodes to the message it was written from, whatever
/// follows it in the buffer. This holds of every message that can be
/// written as a frame, so of every valid one.
pub proof fn lemma_decode_encode(m: MessageView, rest: Seq<u8>)
    requires
        m.encodable(),
    ensures
        decode(encode(m) + rest) == Some(m),
        decode(encode(m)) == Some(m),
{
    assert(encode(m) + Seq::<u8>::empty() =~= encode(m));
    lemma_decode_encode_in_buffer(m, rest);
    lemma_decode_encode_in_buffer(m, Seq::empty());
}

/// The round trip in a buffer that holds `rest` after the frame.
proof fn lemma_decode_encode_in_buffer(m: MessageView, rest: Seq<u8>)
    requires
        m.encodable(),
    ensures
        decode(encode(m) + rest) == Some(m),
{
    let n = m.body.len() as int;
    let data = encode(m) + rest;
    lemma_le_round_trip(m.slice, n as u16);
    lemma_le_round_trip(m.total, n as u16);
    lemma_le_round_trip(m.file, n as u16);
    assert(data.subrange(17, 19) =~= u16_le(n as u16));
    assert(declared_len(data) == n);
    assert(data.subrange(4, HEADER_LEN + n) =~= checked_part(m));
    assert(data.subrange(5, 9) =~= u32_le(m.slice));
    assert(data.subrange(9, 13) =~= u32_le(m.total));
    assert(data.subrange(13, 17) =~= u32_le(m.file));
    assert(data.subrange(HEADER_LEN as int, HEADER_LEN + n) =~= m.body);
}

/// `b` with bit number `bit` inverted.
pub open spec fn flip_bit(b: u8, bit: u8) -> u8 {
    b ^ (1u8 << bit)
}

/// What bit number `bit` of a byte is worth.
pub open spec fn bit_value(bit: u8) -> int {
    (1u8 << bit) as int
}

/// `data` with bit number `bit` of the byte at `at` inverted.
pub open spec fn flip_at(data: Seq<u8>, at: int, bit: u8) -> Seq<u8> {
    data.update(at, flip_bit(data[at], bit))
}

/// Inverting a bit raises or lowers a byte by what the bit is worth.
proof fn lemma_flip_bit(b: u8, bit: u8)
    requires
        bit < 8,
    ensures
        1 <= bit_value(bit) <= 128,
        flip_bit(b, bit) == b + bit_value(bit) || flip_bit(b, bit) == b - bit_value(bit),
{
    let v = 1u8 << bit;
    let f = b ^ v;
    assert(1 <= v && v <= 128 && (f == b + v || f + v == b)) by (bit_vector)
        requires
            bit < 8,
            v == 1u8 << bit,
            f == b ^ v,
    ;
}

/// Two sequences have the same checksum exactly when their sums agree
/// modulo 256.
proof fn lemma_checksum_eq(a: Seq<u8>, b: Seq<u8>)
    ensures
        checksum(a) == checksum(b) <==> (byte_sum(a) - byte_sum(b)) % 256 == 0,
{
}

/// Whether inverting bit `bit` of byte `at` in the frame of `m` escapes the
/// checksum: the bit lies in the length field, clearing it shortens the
/// declared body, and the bytes cut off sum with the cleared bit to a
/// multiple of 256.
pub open spec fn flip_unnoticed(m: MessageView, at: int, bit: u8) -> bool {
    let n = m.body.len() as int;
    let cut = declared_len(flip_at(encode(m), at, bit));
    &&& 17 <= at < 19
    &&& cut < n
    &&& (bit_value(bit) + byte_sum(m.body.subrange(cut, n))) % 256 == 0
}

/// Where the fields of a message stand in its frame.
proof fn lemma_frame_layout(m: MessageView)
    requires
        m.encodable(),
    ensures
        encode(m).len() == HEADER_LEN + m.body.len(),
        encode(m)[0] == checksum(checked_part(m)),
        encode(m).subrange(4, HEADER_LEN + m.body.len()) == checked_part(m),
        checked_part(m).take(15) + m.body == checked_part(m),
        encode(m)[17] == m.body.len() % 256,
        encode(m)[18] == m.body.len() / 256,
{
    let n = m.body.len() as int;
    assert(encode(m).subrange(4, HEADER_LEN + n) =~= checked_part(m));
    assert(checked_part(m).take(15) + m.body =~= checked_part(m));
}

/// The declared body length is read from bytes 17 and 18.
proof fn lemma_declared_len(data: Seq<u8>)
    requires
        data.len() >= HEADER_LEN,
    ensures
        declared_len(data) == data[17] + 256 * data[18],
{
}

/// A flipped bit outside the length field is always caught.
proof fn lemma_flip_outside_length(m: MessageView, at: int, bit: u8)
    requires
        m.encodable(),
        4 <= at < encode(m).len(),
        !(17 <= at < 19),
        bit < 8,
    ensures
        decode(flip_at(encode(m), at, bit)).is_none(),
{
    let n = m.body.len() as int;
    let e = encode(m);
    let f = flip_at(e, at, bit);
    let part = checked_part(m);
    lemma_frame_layout(m);
    lemma_flip_bit(e[at], bit);
    lemma_declared_len(e);
    lemma_declared_len(f);
    assert(declared_len(f) == n);
    let changed = f.subrange(4, HEADER_LEN + n);
    assert(changed =~= part.update(at - 4, f[at]));
    lemma_byte_sum_update(part, at - 4, f[at]);
    lemma_checksum_eq(changed, part);
    assert(checksum(changed) != f[0]);
}

/// What a flipped bit in the length field that shortens the declared body
/// takes out of the checked sum: the bit itself and the bytes cut off.
proof fn lemma_shortened_sum(m: MessageView, at: int, bit: u8)
    requires
        m.encodable(),
        17 <= at < 19,
        bit < 8,
        declared_len(flip_at(encode(m), at, bit)) < m.body.len(),
    ensures
        ({
            let f = flip_at(encode(m), at, bit);
            let cut = declared_len(f);
            byte_sum(checked_part(m)) - byte_sum(f.subrange(4, HEADER_LEN + cut)) == bit_value(
                bit,
            ) + byte_sum(m.body.subrange(cut, m.body.len() as int))
        }),
{
    let n = m.body.len() as int;
    let e = encode(m);
    let f = flip_at(e, at, bit);
    let part = checked_part(m);
    let v = bit_value(bit);
    let cut = declared_len(f);
    lemma_frame_layout(m);
    lemma_flip_bit(e[at], bit);
    lemma_declared_len(e);
    lemma_declared_len(f);
    assert(f[at] == e[at] - v);
    let fields = part.take(15);
    let kept = m.body.take(cut);
    let dropped = m.body.subrange(cut, n);
    let changed = f.subrange(4, HEADER_LEN + cut);
    assert(m.body =~= kept + dropped);
    assert(fields[at - 4] == e[at]);
    assert(changed =~= fields.update(at - 4, f[at]) + kept);
    lemma_byte_sum_concat(fields, m.body);
    lemma_byte_sum_concat(kept, dropped);
    lemma_byte_sum_concat(fields.update(at - 4, f[at]), kept);
    lemma_byte_sum_update(fields, at - 4, f[at]);
}

/// A flipped bit inside the length field is caught unless it shortens the
/// declared body by bytes that make up for it in the sum.
proof fn lemma_flip_inside_length(m: MessageView, at: int, bit: u8)
    requires
        m.encodable(),
        17 <= at < 19,
        bit < 8,
    ensures
        decode(flip_at(encode(m), at, bit)).is_none() <==> !flip_unnoticed(m, at, bit),
{
    let n = m.body.len() as int;
    let e = encode(m);
    let f = flip_at(e, at, bit);
    let cut = declared_len(f);
    assert(f.len() == HEADER_LEN + n && f[0] == checksum(checked_part(m))) by {
        lemma_frame_layout(m);
    }
    assert(cut != n) by {
        lemma_frame_layout(m);
        lemma_flip_bit(e[at], bit);
        lemma_declared_len(e);
        lemma_declared_len(f);
    }
    if cut < n {
        let changed = f.subrange(4, HEADER_LEN + cut);
        lemma_shortened_sum(m, at, bit);
        lemma_checksum_eq(changed, checked_part(m));
    }
}

/// Checksum sensitivity: a frame with one bit inverted at offset 4 or later
/// is malformed, unless the flip is one that [`flip_unnoticed`] describes.
/// Every flip outside the length field is caught.
pub proof fn lemma_bit_flip_detected(m: MessageView, at: int, bit: u8)
    requires
        m.encodable(),
        4 <= at < encode(m).len(),
        bit < 8,
    ensures
        decode(flip_at(encode(m), at, bit)).is_none() <==> !flip_unnoticed(m, at, bit),
        !(17 <= at < 19) ==> decode(flip_at(encode(m), at, bit)).is_none(),
{
    if 17 <= at < 19 {
        lemma_flip_inside_length(m, at, bit);
    } else {
        lemma_flip_outside_length(m, at, bit);
    }
}

} // verus!

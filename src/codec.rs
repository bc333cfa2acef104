//! Frame codec for the device link.
//!
//! Wire format: `AA 55 | LEN_LO LEN_HI | CMD | SEQ | PAYLOAD.. | CRC_LO CRC_HI | 55 AA`.
//! `LEN` counts `CMD + SEQ + PAYLOAD + CRC`, so a frame is `LEN + 6` bytes long.
//! The CRC is CRC-16/MODBUS over `CMD..PAYLOAD`.

use vstd::prelude::*;
use crate::buffer::{buffer_advance, buffer_byte, buffer_bytes, buffer_extend, buffer_len, buffer_new};

verus! {

pub const FRAME_HEAD_0: u8 = 0xAA;
pub const FRAME_HEAD_1: u8 = 0x55;
pub const FRAME_TAIL_0: u8 = 0x55;
pub const FRAME_TAIL_1: u8 = 0xAA;

/// Head, length, command, sequence, CRC and tail: the size of a frame without payload.
pub const MIN_FRAME_LEN: usize = 10;

/// The largest payload whose `LEN` still fits in 16 bits.
pub const MAX_PAYLOAD_LEN: usize = 65531;

// ---------------------------------------------------------------- CRC-16/MODBUS

/// One shift of the reflected CRC register with polynomial `0xA001`.
pub open spec fn crc_bit(c: u16) -> u16 {
    if c & 1 != 0 {
        (c >> 1u16) ^ 0xA001u16
    } else {
        c >> 1u16
    }
}

/// `n` shifts of the register.
pub open spec fn crc_bits(c: u16, n: nat) -> u16
    decreases n,
{
    if n == 0 {
        c
    } else {
        crc_bit(crc_bits(c, (n - 1) as nat))
    }
}

/// The register after taking in one byte.
pub open spec fn crc_byte(c: u16, b: u8) -> u16 {
    crc_bits(c ^ (b as u16), 8)
}

/// CRC-16/MODBUS of a byte sequence: init `0xFFFF`, no final XOR.
pub open spec fn crc16_spec(s: Seq<u8>) -> u16
    decreases s.len(),
{
    if s.len() == 0 {
        0xFFFFu16
    } else {
        crc_byte(crc16_spec(s.drop_last()), s.last())
    }
}

pub proof fn lemma_crc_push(s: Seq<u8>, b: u8)
    ensures
        crc16_spec(s.push(b)) == crc_byte(crc16_spec(s), b),
{
    assert(s.push(b).drop_last() =~= s);
}

/// Takes one byte into the CRC register.
pub fn crc_update(crc: u16, b: u8) -> (r: u16)
    ensures
        r == crc_byte(crc, b),
{
    let start: u16 = crc ^ (b as u16);
    let mut c: u16 = start;
    let mut k: u32 = 0;
    while k < 8
        invariant
            k <= 8,
            c == crc_bits(start, k as nat),
        decreases 8 - k,
    {
        if c & 1 != 0 {
            c = (c >> 1u16) ^ 0xA001u16;
        } else {
            c = c >> 1u16;
        }
        k = k + 1;
    }
    c
}

// ---------------------------------------------------------------- encoding

/// Little-endian bytes of a 16-bit value.
pub open spec fn le16(v: int) -> Seq<u8> {
    seq![(v % 256) as u8, (v / 256) as u8]
}

/// The bytes that the CRC covers: command, sequence, payload.
pub open spec fn frame_body(command: u8, seq: u8, payload: Seq<u8>) -> Seq<u8> {
    seq![command, seq] + payload
}

/// The full frame for `(command, seq, payload)`.
pub open spec fn encode_frame(command: u8, seq: u8, payload: Seq<u8>) -> Seq<u8> {
    seq![FRAME_HEAD_0, FRAME_HEAD_1] + le16(payload.len() + 4int) + frame_body(command, seq, payload)
        + le16(crc16_spec(frame_body(command, seq, payload)) as int) + seq![FRAME_TAIL_0, FRAME_TAIL_1]
}

// ---------------------------------------------------------------- decoding model

/// A decoded frame as a value.
pub struct FrameView {
    pub command_id: u8,
    pub sequence: u8,
    pub payload: Seq<u8>,
}

/// A validated frame taken off the link.
#[derive(Debug, Clone)]
pub struct RawFrame {
    pub command_id: u8,
    pub sequence: u8,
    pub payload: Vec<u8>,
}

impl View for RawFrame {
    type V = FrameView;

    open spec fn view(&self) -> FrameView {
        FrameView { command_id: self.command_id, sequence: self.sequence, payload: self.payload@ }
    }
}

/// What one parse attempt on a buffer does.
pub enum ParseStep {
    /// Too few bytes to decide: the buffer stays as it is.
    Wait,
    /// Drop `count` bytes from the front; `crc_mismatch` marks a frame whose CRC was wrong.
    Skip { count: nat, crc_mismatch: bool },
    /// A valid frame of `size` bytes stands at the front.
    Emit { frame: FrameView, size: nat },
}

pub open spec fn head_at(buf: Seq<u8>, i: int) -> bool {
    0 <= i && i + 1 < buf.len() && buf[i] == FRAME_HEAD_0 && buf[i + 1] == FRAME_HEAD_1
}

/// The first position at or after `i` where the head pattern starts, or -1.
pub open spec fn first_head_from(buf: Seq<u8>, i: int) -> int
    decreases buf.len() - i,
{
    if i < 0 || i + 1 >= buf.len() {
        -1
    } else if head_at(buf, i) {
        i
    } else {
        first_head_from(buf, i + 1)
    }
}

/// The `LEN` field of a buffer that starts with a head.
pub open spec fn declared_len(buf: Seq<u8>) -> int {
    buf[2] as int + buf[3] as int * 256
}

/// One parse attempt, with the resync rules applied in order.
///
/// A buffer that does not start with the head loses everything in front of
/// the first head; with no head at all it loses everything but a final
/// `0xAA`, which may begin one. Only a buffer that starts with the head (or
/// is a lone `0xAA`) and holds less than the whole frame waits.
pub open spec fn parse_step(buf: Seq<u8>) -> ParseStep {
    if buf.len() == 0 {
        ParseStep::Wait
    } else {
        let h = first_head_from(buf, 0);
        if h < 0 {
            if buf.last() != FRAME_HEAD_0 {
                ParseStep::Skip { count: buf.len(), crc_mismatch: false }
            } else if buf.len() > 1 {
                ParseStep::Skip { count: (buf.len() - 1) as nat, crc_mismatch: false }
            } else {
                ParseStep::Wait
            }
        } else if h > 0 {
            ParseStep::Skip { count: h as nat, crc_mismatch: false }
        } else if buf.len() < 4 {
            ParseStep::Wait
        } else {
            let len = declared_len(buf);
            if len < 4 {
                ParseStep::Skip { count: 1, crc_mismatch: false }
            } else if buf.len() < len + 6 {
                ParseStep::Wait
            } else if buf[len + 4] != FRAME_TAIL_0 || buf[len + 5] != FRAME_TAIL_1 {
                ParseStep::Skip { count: 1, crc_mismatch: false }
            } else if crc16_spec(buf.subrange(4, len + 2)) as int != buf[len + 2] as int + buf[len
                + 3] as int * 256 {
                ParseStep::Skip { count: 1, crc_mismatch: true }
            } else {
                ParseStep::Emit {
                    frame: FrameView {
                        command_id: buf[4],
                        sequence: buf[5],
                        payload: buf.subrange(6, len + 2),
                    },
                    size: (len + 6) as nat,
                }
            }
        }
    }
}

/// Everything that repeated parse attempts take out of a buffer.
pub struct DecodeView {
    pub frames: Seq<FrameView>,
    pub rest: Seq<u8>,
    pub crc_mismatches: nat,
}

/// Parse attempts repeated until one has to wait for more bytes.
pub open spec fn decode_all(buf: Seq<u8>) -> DecodeView
    decreases buf.len(),
{
    match parse_step(buf) {
        ParseStep::Wait => DecodeView { frames: Seq::empty(), rest: buf, crc_mismatches: 0 },
        ParseStep::Skip { count, crc_mismatch } => {
            if 0 < count <= buf.len() {
                let r = decode_all(buf.subrange(count as int, buf.len() as int));
                DecodeView {
                    frames: r.frames,
                    rest: r.rest,
                    crc_mismatches: r.crc_mismatches + if crc_mismatch {
                        1nat
                    } else {
                        0nat
                    },
                }
            } else {
                DecodeView { frames: Seq::empty(), rest: buf, crc_mismatches: 0 }
            }
        },
        ParseStep::Emit { frame, size } => {
            if 0 < size <= buf.len() {
                let r = decode_all(buf.subrange(size as int, buf.len() as int));
                DecodeView {
                    frames: seq![frame] + r.frames,
                    rest: r.rest,
                    crc_mismatches: r.crc_mismatches,
                }
            } else {
                DecodeView { frames: Seq::empty(), rest: buf, crc_mismatches: 0 }
            }
        },
    }
}

pub open spec fn frames_view(frames: Seq<RawFrame>) -> Seq<FrameView> {
    frames.map_values(|f: RawFrame| f@)
}

pub open spec fn add_capped(a: int, b: int) -> int {
    if a + b > u64::MAX {
        u64::MAX as int
    } else {
        a + b
    }
}

proof fn lemma_first_head_range(buf: Seq<u8>, i: int)
    requires
        0 <= i,
    ensures
        first_head_from(buf, i) == -1 || (i <= first_head_from(buf, i) && first_head_from(buf, i) + 1
            < buf.len() && head_at(buf, first_head_from(buf, i))),
    decreases buf.len() - i,
{
    if i + 1 < buf.len() && !head_at(buf, i) {
        lemma_first_head_range(buf, i + 1);
    }
}

/// A parse attempt waits with the buffer unchanged, or drops at least one
/// byte, or takes a whole frame off the front: it never stalls on a prefix.
pub proof fn lemma_step_progress(buf: Seq<u8>)
    ensures
        match parse_step(buf) {
            ParseStep::Wait => true,
            ParseStep::Skip { count, crc_mismatch } => 1 <= count <= buf.len(),
            ParseStep::Emit { frame, size } => MIN_FRAME_LEN <= size <= buf.len(),
        },
{
    lemma_first_head_range(buf, 0);
}

/// What a decoding call leaves pending is a suffix of what it was given:
/// bytes are only ever taken off the front, never re-examined in place.
pub proof fn lemma_decode_rest_suffix(buf: Seq<u8>)
    ensures
        decode_all(buf).rest.len() <= buf.len(),
        decode_all(buf).rest == buf.subrange(buf.len() - decode_all(buf).rest.len(), buf.len() as int),
    decreases buf.len(),
{
    lemma_step_progress(buf);
    match parse_step(buf) {
        ParseStep::Wait => {
            assert(buf.subrange(0, buf.len() as int) =~= buf);
        },
        ParseStep::Skip { count, crc_mismatch } => {
            let t = buf.subrange(count as int, buf.len() as int);
            lemma_decode_rest_suffix(t);
            let r = decode_all(t).rest;
            assert(t.subrange(t.len() - r.len(), t.len() as int) =~= buf.subrange(
                buf.len() - r.len(),
                buf.len() as int,
            ));
        },
        ParseStep::Emit { frame, size } => {
            let t = buf.subrange(size as int, buf.len() as int);
            lemma_decode_rest_suffix(t);
            let r = decode_all(t).rest;
            assert(t.subrange(t.len() - r.len(), t.len() as int) =~= buf.subrange(
                buf.len() - r.len(),
                buf.len() as int,
            ));
        },
    }
}

/// What a decoder may keep waiting: nothing, a lone `0xAA`, or the start of
/// a frame (head first) that is still short of its full length.
pub open spec fn awaiting_frame(q: Seq<u8>) -> bool {
    ||| q.len() == 0
    ||| q.len() == 1 && q[0] == FRAME_HEAD_0
    ||| q.len() >= 2 && q[0] == FRAME_HEAD_0 && q[1] == FRAME_HEAD_1 && (q.len() < 4 || q.len()
        < declared_len(q) + 6)
}

proof fn lemma_wait_shape(q: Seq<u8>)
    requires
        parse_step(q) is Wait,
    ensures
        awaiting_frame(q),
{
    lemma_first_head_range(q, 0);
}

/// After a decoding call only an incomplete frame is left pending: every
/// byte without a head in front of it has been thrown away.
pub proof fn lemma_decode_rest_awaits_frame(buf: Seq<u8>)
    ensures
        awaiting_frame(decode_all(buf).rest),
    decreases buf.len(),
{
    lemma_step_progress(buf);
    match parse_step(buf) {
        ParseStep::Wait => {
            lemma_wait_shape(buf);
        },
        ParseStep::Skip { count, crc_mismatch } => {
            lemma_decode_rest_awaits_frame(buf.subrange(count as int, buf.len() as int));
        },
        ParseStep::Emit { frame, size } => {
            lemma_decode_rest_awaits_frame(buf.subrange(size as int, buf.len() as int));
        },
    }
}

/// Decoding an encoded frame gives back exactly that frame and leaves nothing.
pub proof fn lemma_round_trip(command: u8, seq: u8, payload: Seq<u8>)
    requires
        payload.len() < 65000,
    ensures
        decode_all(encode_frame(command, seq, payload)) == (DecodeView {
            frames: seq![FrameView { command_id: command, sequence: seq, payload }],
            rest: Seq::empty(),
            crc_mismatches: 0,
        }),
{
    let e = encode_frame(command, seq, payload);
    let len: int = payload.len() + 4int;
    let body = frame_body(command, seq, payload);
    let crc = crc16_spec(body);
    assert(e.len() == len + 6);
    assert(e[0] == FRAME_HEAD_0 && e[1] == FRAME_HEAD_1);
    assert(head_at(e, 0));
    assert(first_head_from(e, 0) == 0);
    assert(e[2] == (len % 256) as u8);
    assert(e[3] == (len / 256) as u8);
    assert(declared_len(e) == len);
    assert(e[len + 4] == FRAME_TAIL_0);
    assert(e[len + 5] == FRAME_TAIL_1);
    assert(e.subrange(4, len + 2) =~= body);
    assert(e[len + 2] == (crc as int % 256) as u8);
    assert(e[len + 3] == (crc as int / 256) as u8);
    assert(e[4] == command);
    assert(e[5] == seq);
    assert(e.subrange(6, len + 2) =~= payload);
    let tail = e.subrange(len + 6, e.len() as int);
    assert(tail =~= Seq::<u8>::empty());
    assert(parse_step(tail) is Wait);
    assert(decode_all(tail) == DecodeView { frames: Seq::<FrameView>::empty(), rest: tail, crc_mismatches: 0 });
    assert(seq![FrameView { command_id: command, sequence: seq, payload }] + Seq::<FrameView>::empty()
        =~= seq![FrameView { command_id: command, sequence: seq, payload }]);
}

// ---------------------------------------------------------------- decoder

/// Outcome of one parse attempt.
enum Attempt {
    Wait,
    Skipped,
    Parsed(RawFrame),
}

/// Stateful frame decoder: accumulates bytes and hands out validated frames.
pub struct ProtocolParser {
    buf: bytes::BytesMut,
    crc_mismatches: u64,
}

impl ProtocolParser {
    /// The bytes waiting to be parsed.
    pub closed spec fn pending(&self) -> Seq<u8> {
        buffer_bytes(self.buf)
    }

    /// How many frames were dropped for a wrong CRC (saturating).
    pub closed spec fn mismatches(&self) -> int {
        self.crc_mismatches as int
    }

    pub fn new() -> (r: Self)
        ensures
            r.pending() == Seq::<u8>::empty(),
            r.mismatches() == 0,
    {
        ProtocolParser { buf: buffer_new(), crc_mismatches: 0 }
    }

    /// CRC-16/MODBUS of `data`.
    pub fn crc16(data: &[u8]) -> (r: u16)
        ensures
            r == crc16_spec(data@),
    {
        let mut crc: u16 = 0xFFFF;
        let mut i: usize = 0;
        while i < data.len()
            invariant
                i <= data@.len(),
                crc == crc16_spec(data@.subrange(0, i as int)),
            decreases data@.len() - i,
        {
            proof {
                lemma_crc_push(data@.subrange(0, i as int), data@[i as int]);
                assert(data@.subrange(0, i as int).push(data@[i as int]) =~= data@.subrange(0, i + 1));
            }
            crc = crc_update(crc, data[i]);
            i = i + 1;
        }
        assert(data@.subrange(0, data@.len() as int) =~= data@);
        crc
    }

    /// Builds the frame for `command`, `seq` and `payload`.
    pub fn build_frame(command: u8, seq: u8, payload: &[u8]) -> (r: Vec<u8>)
        requires
            payload@.len() <= MAX_PAYLOAD_LEN,
        ensures
            r@ == encode_frame(command, seq, payload@),
    {
        let len: usize = payload.len() + 4;
        let mut out: Vec<u8> = Vec::with_capacity(len + 6);
        out.push(FRAME_HEAD_0);
        out.push(FRAME_HEAD_1);
        out.push((len % 256) as u8);
        out.push((len / 256) as u8);
        out.push(command);
        out.push(seq);
        let mut crc: u16 = crc_update(crc_update(0xFFFF, command), seq);
        proof {
            lemma_crc_push(Seq::<u8>::empty(), command);
            lemma_crc_push(seq![command], seq);
            assert(Seq::<u8>::empty().push(command) =~= seq![command]);
            assert(seq![command].push(seq) =~= frame_body(command, seq, payload@.subrange(0, 0)));
        }
        let mut i: usize = 0;
        while i < payload.len()
            invariant
                i <= payload@.len(),
                payload@.len() <= MAX_PAYLOAD_LEN,
                len == payload@.len() + 4,
                crc == crc16_spec(frame_body(command, seq, payload@.subrange(0, i as int))),
                out@ == seq![FRAME_HEAD_0, FRAME_HEAD_1] + le16(len as int) + frame_body(
                    command,
                    seq,
                    payload@.subrange(0, i as int),
                ),
            decreases payload@.len() - i,
        {
            let b = payload[i];
            proof {
                lemma_crc_push(frame_body(command, seq, payload@.subrange(0, i as int)), b);
                assert(frame_body(command, seq, payload@.subrange(0, i as int)).push(b) =~= frame_body(
                    command,
                    seq,
                    payload@.subrange(0, i + 1),
                ));
            }
            crc = crc_update(crc, b);
            out.push(b);
            i = i + 1;
            assert(out@ =~= seq![FRAME_HEAD_0, FRAME_HEAD_1] + le16(len as int) + frame_body(
                command,
                seq,
                payload@.subrange(0, i as int),
            ));
        }
        assert(payload@.subrange(0, payload@.len() as int) =~= payload@);
        out.push((crc % 256) as u8);
        out.push((crc / 256) as u8);
        out.push(FRAME_TAIL_0);
        out.push(FRAME_TAIL_1);
        assert(out@ =~= encode_frame(command, seq, payload@));
        out
    }

    /// Number of frames dropped so far because their CRC did not match.
    pub fn crc_mismatch_count(&self) -> (r: u64)
        ensures
            r as int == self.mismatches(),
    {
        self.crc_mismatches
    }

    /// Number of bytes waiting for the rest of a frame.
    pub fn buffered_len(&self) -> (r: usize)
        ensures
            r as int == self.pending().len(),
    {
        buffer_len(&self.buf)
    }

    /// Appends `data` and returns every frame that can now be decoded.
    pub fn feed_data(&mut self, data: &[u8]) -> (frames: Vec<RawFrame>)
        requires
            old(self).pending().len() + data@.len() <= isize::MAX,
        ensures
            frames_view(frames@) == decode_all(old(self).pending() + data@).frames,
            final(self).pending() == decode_all(old(self).pending() + data@).rest,
            final(self).mismatches() == add_capped(
                old(self).mismatches(),
                decode_all(old(self).pending() + data@).crc_mismatches as int,
            ),
    {
        buffer_extend(&mut self.buf, data);
        self.parse_frames()
    }

    fn parse_frames(&mut self) -> (frames: Vec<RawFrame>)
        ensures
            frames_view(frames@) == decode_all(old(self).pending()).frames,
            final(self).pending() == decode_all(old(self).pending()).rest,
            final(self).mismatches() == add_capped(
                old(self).mismatches(),
                decode_all(old(self).pending()).crc_mismatches as int,
            ),
    {
        let mut frames: Vec<RawFrame> = Vec::new();
        let ghost whole = decode_all(self.pending());
        let ghost done: nat = 0;
        let ghost start_count = self.mismatches();
        loop
            invariant
                whole == decode_all(old(self).pending()),
                start_count == old(self).mismatches(),
                whole.frames == frames_view(frames@) + decode_all(self.pending()).frames,
                whole.rest == decode_all(self.pending()).rest,
                whole.crc_mismatches == done + decode_all(self.pending()).crc_mismatches,
                self.mismatches() == add_capped(start_count, done as int),
            ensures
                whole.frames == frames_view(frames@),
                whole.rest == self.pending(),
                self.mismatches() == add_capped(start_count, whole.crc_mismatches as int),
            decreases self.pending().len(),
        {
            let ghost before = self.pending();
            proof {
                lemma_step_progress(before);
            }
            match self.try_parse_one() {
                Attempt::Wait => {
                    assert(parse_step(self.pending()) is Wait);
                    assert(whole.frames =~= frames_view(frames@));
                    break;
                },
                Attempt::Skipped => {
                    proof {
                        if let ParseStep::Skip { count, crc_mismatch } = parse_step(before) {
                            if crc_mismatch {
                                done = done + 1;
                            }
                        }
                    }
                },
                Attempt::Parsed(f) => {
                    let ghost fv = f@;
                    frames.push(f);
                    proof {
                        assert(frames_view(frames@) =~= frames_view(frames@.drop_last()).push(fv));
                        assert(frames@.drop_last() =~= frames@.subrange(0, frames@.len() - 1));
                        let r = decode_all(self.pending());
                        assert(whole.frames =~= frames_view(frames@) + r.frames);
                    }
                },
            }
        }
        frames
    }

    /// One parse attempt on the front of the buffer.
    fn try_parse_one(&mut self) -> (r: Attempt)
        ensures
            match parse_step(old(self).pending()) {
                ParseStep::Wait => r is Wait && final(self).pending() == old(self).pending()
                    && final(self).mismatches() == old(self).mismatches(),
                ParseStep::Skip { count, crc_mismatch } => r is Skipped && count
                    <= old(self).pending().len() && final(self).pending() == old(
                    self,
                ).pending().subrange(count as int, old(self).pending().len() as int)
                    && final(self).mismatches() == add_capped(
                    old(self).mismatches(),
                    if crc_mismatch {
                        1int
                    } else {
                        0int
                    },
                ),
                ParseStep::Emit { frame, size } => r matches Attempt::Parsed(f) && f@ == frame
                    && size <= old(self).pending().len() && final(self).pending() == old(
                    self,
                ).pending().subrange(size as int, old(self).pending().len() as int)
                    && final(self).mismatches() == old(self).mismatches(),
            },
    {
        let ghost p = self.pending();
        proof {
            lemma_step_progress(p);
        }
        let n = buffer_len(&self.buf);
        if n == 0 {
            return Attempt::Wait;
        }
        let start = match self.find_frame_start() {
            Some(i) => i,
            None => {
                if buffer_byte(&self.buf, n - 1) != FRAME_HEAD_0 {
                    buffer_advance(&mut self.buf, n);
                    return Attempt::Skipped;
                } else if n > 1 {
                    buffer_advance(&mut self.buf, n - 1);
                    return Attempt::Skipped;
                } else {
                    return Attempt::Wait;
                }
            },
        };
        if start > 0 {
            buffer_advance(&mut self.buf, start);
            return Attempt::Skipped;
        }
        if n < 4 {
            return Attempt::Wait;
        }
        let len: usize = buffer_byte(&self.buf, 2) as usize + buffer_byte(&self.buf, 3) as usize * 256;
        if len < 4 {
            buffer_advance(&mut self.buf, 1);
            return Attempt::Skipped;
        }
        let total: usize = len + 6;
        if n < total {
            return Attempt::Wait;
        }
        if buffer_byte(&self.buf, len + 4) != FRAME_TAIL_0 || buffer_byte(&self.buf, len + 5)
            != FRAME_TAIL_1 {
            buffer_advance(&mut self.buf, 1);
            return Attempt::Skipped;
        }
        let command_id = buffer_byte(&self.buf, 4);
        let sequence = buffer_byte(&self.buf, 5);
        let mut crc: u16 = crc_update(crc_update(0xFFFF, command_id), sequence);
        proof {
            lemma_crc_push(Seq::<u8>::empty(), command_id);
            lemma_crc_push(seq![command_id], sequence);
            assert(Seq::<u8>::empty().push(command_id) =~= seq![command_id]);
            assert(seq![command_id].push(sequence) =~= p.subrange(4, 6));
        }
        let mut payload: Vec<u8> = Vec::new();
        let mut j: usize = 6;
        while j < len + 2
            invariant
                6 <= j <= len + 2,
                len < 65536,
                len + 6 <= p.len(),
                buffer_bytes(self.buf) == p,
                crc == crc16_spec(p.subrange(4, j as int)),
                payload@ == p.subrange(6, j as int),
            decreases len + 2 - j,
        {
            let b = buffer_byte(&self.buf, j);
            proof {
                lemma_crc_push(p.subrange(4, j as int), b);
                assert(p.subrange(4, j as int).push(b) =~= p.subrange(4, j + 1));
            }
            crc = crc_update(crc, b);
            payload.push(b);
            j = j + 1;
            assert(payload@ =~= p.subrange(6, j as int));
        }
        let rx: u16 = buffer_byte(&self.buf, len + 2) as u16 + buffer_byte(&self.buf, len + 3) as u16 * 256;
        if rx != crc {
            buffer_advance(&mut self.buf, 1);
            if self.crc_mismatches < u64::MAX {
                self.crc_mismatches = self.crc_mismatches + 1;
            }
            return Attempt::Skipped;
        }
        buffer_advance(&mut self.buf, total);
        Attempt::Parsed(RawFrame { command_id, sequence, payload })
    }

    /// Position of the first head pattern in the buffer.
    fn find_frame_start(&self) -> (r: Option<usize>)
        ensures
            match r {
                Some(i) => i as int == first_head_from(self.pending(), 0),
                None => first_head_from(self.pending(), 0) < 0,
            },
    {
        let n = buffer_len(&self.buf);
        let mut i: usize = 0;
        while n > 0 && i < n - 1
            invariant
                n as int == self.pending().len(),
                i <= n,
                first_head_from(self.pending(), 0) == first_head_from(self.pending(), i as int),
            decreases n - i,
        {
            if buffer_byte(&self.buf, i) == FRAME_HEAD_0 && buffer_byte(&self.buf, i + 1) == FRAME_HEAD_1 {
                return Some(i);
            }
            i = i + 1;
        }
        None
    }
}

} // verus!

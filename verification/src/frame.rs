//! Reading the server's frames off a stream that may break off anywhere.
//!
//! Bytes arrive in pieces of any length. The header of a frame is opened exactly once, when its
//! four bytes are there; everything read so far is kept, so that a read which times out in the
//! middle of a header or a body only pauses. A frame that would make its decoder allocate without
//! bound is refused before it is decoded.

use vstd::prelude::*;
use std::collections::VecDeque;
use crate::cipher;
use crate::cipher::HeaderDecrypter;
use crate::fill;
use crate::fill::{Delivery, DeliveryView, FillFault, FillFaultView};
use crate::number;

verus! {

/// The opcode of a batch of compressed movements, whose payload begins with the size that it
/// takes once decompressed.
pub const SMSG_COMPRESSED_MOVES_OPCODE: u16 = 0x02FB;

/// The largest decompressed size that a frame may declare: four mebibytes.
pub const MAX_DECOMPRESSED_FRAME_BYTES: u32 = 4194304;

/// How much of a body a diagnostic shows.
pub const FRAME_DIAGNOSTIC_BYTES: usize = 64;

/// How many decoded frames a diagnostic looks back on.
pub const CRASH_RING_CAPACITY: usize = 32;

// ------------------------------------------------------------------------------------------
// Bytes in diagnostics
// ------------------------------------------------------------------------------------------

/// One byte, as two capital hexadecimal digits.
pub open spec fn hex_byte(b: u8) -> Seq<char> {
    number::hex_fixed(b as nat, 2, true)
}

/// Bytes with a blank between them.
pub open spec fn spaced(bytes: Seq<u8>) -> Seq<char>
    decreases bytes.len(),
{
    if bytes.len() == 0 {
        Seq::empty()
    } else if bytes.len() == 1 {
        hex_byte(bytes[0])
    } else {
        spaced(bytes.drop_last()) + " "@ + hex_byte(bytes.last())
    }
}

/// Bytes as a diagnostic shows them.
pub open spec fn shown(bytes: Seq<u8>) -> Seq<char> {
    if bytes.len() == 0 {
        "<empty>"@
    } else {
        spaced(bytes)
    }
}

/// Bytes as a diagnostic shows them.
pub fn hex_bytes(bytes: &Vec<u8>) -> (s: String)
    ensures
        s@ == shown(bytes@),
{
    if bytes.len() == 0 {
        return "<empty>".to_owned();
    }
    let mut s: String = String::new();
    number::push_hex_fixed(&mut s, bytes[0] as u64, 2, true);
    assert(s@ =~= spaced(bytes@.take(1)));
    for i in 1..bytes.len()
        invariant
            bytes.len() >= 1,
            s@ == spaced(bytes@.take(i as int)),
    {
        s.append(" ");
        number::push_hex_fixed(&mut s, bytes[i] as u64, 2, true);
        assert(bytes@.take(i + 1).drop_last() =~= bytes@.take(i as int));
        assert(s@ =~= spaced(bytes@.take(i as int)) + " "@ + hex_byte(bytes@[i as int]));
    }
    assert(bytes@.take(bytes@.len() as int) =~= bytes@);
    s
}

/// A character that a file name keeps.
pub open spec fn kept(c: char) -> bool {
    'a' <= c <= 'z' || 'A' <= c <= 'Z' || '0' <= c <= '9' || c == '_' || c == '-'
}

/// A character as a file name holds it.
pub open spec fn sanitized_char(c: char) -> char {
    if kept(c) {
        c
    } else {
        '_'
    }
}

/// A label as a file name holds it.
pub open spec fn sanitized(label: Seq<char>) -> Seq<char> {
    label.map_values(|c: char| sanitized_char(c))
}

/// A label as a file name holds it: letters, digits, `_` and `-` stay, anything else becomes `_`.
pub fn sanitize_label(label: &str) -> (s: String)
    ensures
        s@ == sanitized(label@),
{
    let mut s: String = String::new();
    for c in it: label.chars()
        invariant
            it.seq() == label@,
            s@ == sanitized(label@).take(it.index() as int),
    {
        if ('a' <= c && c <= 'z') || ('A' <= c && c <= 'Z') || ('0' <= c && c <= '9') || c == '_'
            || c == '-' {
            s.push(c);
        } else {
            s.push('_');
        }
        assert(sanitized(label@).take(it.index() + 1) =~= sanitized(label@).take(
            it.index() as int,
        ).push(sanitized(label@)[it.index() as int]));
    }
    assert(sanitized(label@).take(label@.len() as int) =~= sanitized(label@));
    s
}

/// A sanitized label holds nothing that leads out of a directory, and one that is clean already
/// stays as it is.
pub proof fn sanitized_labels_stay_inside(label: Seq<char>)
    ensures
        !sanitized(label).contains('/'),
        !sanitized(label).contains('.'),
        sanitized(label).len() == label.len(),
        (forall|i: int| 0 <= i < label.len() ==> kept(#[trigger] label[i])) ==> sanitized(label)
            == label,
{
    if forall|i: int| 0 <= i < label.len() ==> kept(#[trigger] label[i]) {
        assert(sanitized(label) =~= label);
    }
}

// ------------------------------------------------------------------------------------------
// A frame that is refused
// ------------------------------------------------------------------------------------------

/// A frame that must not reach the decoder, or that the decoder broke on.
pub struct UnsafeServerFrame {
    pub opcode: u16,
    pub payload_prefix: Vec<u8>,
    pub reason: String,
}

/// What is said of a refused frame.
pub struct FaultView {
    pub opcode: u16,
    pub prefix: Seq<u8>,
    pub reason: Seq<char>,
}

impl View for UnsafeServerFrame {
    type V = FaultView;

    open spec fn view(&self) -> FaultView {
        FaultView {
            opcode: self.opcode,
            prefix: self.payload_prefix@,
            reason: self.reason@,
        }
    }
}

impl FaultView {
    /// The fault in words.
    pub open spec fn words(self) -> Seq<char> {
        "unsafe inbound server frame: opcode=0x"@ + number::hex_fixed(self.opcode as nat, 4, true)
            + " payload[0.."@ + number::decimal(self.prefix.len()) + "]="@ + shown(self.prefix)
            + ": "@ + self.reason
    }
}

impl UnsafeServerFrame {
    /// The fault in words.
    pub fn message(&self) -> (s: String)
        ensures
            s@ == self@.words(),
    {
        let mut s: String = "unsafe inbound server frame: opcode=0x".to_owned();
        number::push_hex_fixed(&mut s, self.opcode as u64, 4, true);
        s.append(" payload[0..");
        number::push_decimal(&mut s, self.payload_prefix.len() as u64);
        s.append("]=");
        let bytes: String = hex_bytes(&self.payload_prefix);
        s.append(bytes.as_str());
        s.append(": ");
        s.append(self.reason.as_str());
        s
    }
}

/// Said of a size that leaves no room for the opcode.
pub open spec fn size_reason(size: u16) -> Seq<char> {
    "invalid server-frame size "@ + number::decimal(size as nat)
        + " (the size must include the 2-byte opcode)"@
}

/// Said of compressed movements without their size.
pub open spec fn short_reason(len: nat) -> Seq<char> {
    "compressed-moves payload is "@ + number::decimal(len)
        + " bytes; the decompressed-size prefix needs 4"@
}

/// Said of compressed movements that would take too much room.
pub open spec fn declared_reason(n: nat) -> Seq<char> {
    "declares "@ + number::decimal(n) + " decompressed bytes; limit is 4194304"@
}

/// Said of a decoder that panicked.
pub open spec fn panic_reason(said: Seq<char>) -> Seq<char> {
    "decoder panicked: "@ + said
}

// ------------------------------------------------------------------------------------------
// The reading of a stream, byte by byte
// ------------------------------------------------------------------------------------------

/// A frame whose header is there and whose body is not yet.
pub struct PendingView {
    pub opcode: u16,
    pub payload_len: nat,
    pub header: Seq<u8>,
    pub parser: cipher::Keystream,
    pub body: Seq<u8>,
}

/// What was last read: the header on the wire, the opcode, the beginning of the body.
pub struct AttemptView {
    pub header: Seq<u8>,
    pub opcode: Option<u16>,
    pub body: Seq<u8>,
}

/// Where the reading of a stream stands.
pub struct ReadView {
    pub dec: cipher::Keystream,
    pub header: Seq<u8>,
    pub pending: Option<PendingView>,
    pub attempt: AttemptView,
}

/// A frame that is there in full, with the cipher as it stood before the frame's header.
pub struct WholeView {
    pub opcode: u16,
    pub header: Seq<u8>,
    pub parser: cipher::Keystream,
    pub body: Seq<u8>,
}

/// What comes of a frame once it is there.
pub enum OutcomeView {
    Refused(FaultView),
    Whole(WholeView),
}

/// A frame that is handed out as it came, whatever it holds.
pub struct RawView {
    pub opcode: u16,
    pub body: Seq<u8>,
}

/// The first bytes of a body, as a diagnostic shows them.
pub open spec fn preview(body: Seq<u8>) -> Seq<u8> {
    if body.len() <= FRAME_DIAGNOSTIC_BYTES {
        body
    } else {
        body.take(FRAME_DIAGNOSTIC_BYTES as int)
    }
}

/// Four bytes as a little-endian number.
pub open spec fn le_word(b: Seq<u8>) -> nat {
    (b[0] + b[1] * 256 + b[2] * 65536 + b[3] * 16777216) as nat
}

/// Why a frame must not be decoded.
pub open spec fn body_fault(opcode: u16, body: Seq<u8>) -> Option<Seq<char>> {
    if opcode != SMSG_COMPRESSED_MOVES_OPCODE {
        None
    } else if body.len() < 4 {
        Some(short_reason(body.len()))
    } else if le_word(body) > MAX_DECOMPRESSED_FRAME_BYTES {
        Some(declared_reason(le_word(body)))
    } else {
        None
    }
}

/// What comes of a frame with that header and body.
pub open spec fn judged(
    opcode: u16,
    header: Seq<u8>,
    parser: cipher::Keystream,
    body: Seq<u8>,
) -> OutcomeView {
    match body_fault(opcode, body) {
        Some(reason) => OutcomeView::Refused(FaultView { opcode, prefix: preview(body), reason }),
        None => OutcomeView::Whole(WholeView { opcode, header, parser, body }),
    }
}

impl ReadView {
    /// What a frame leaves behind when it is there in full.
    pub open spec fn completed(self, p: PendingView) -> (ReadView, Option<OutcomeView>) {
        (
            ReadView {
                dec: self.dec,
                header: Seq::empty(),
                pending: None,
                attempt: AttemptView {
                    header: p.header,
                    opcode: Some(p.opcode),
                    body: preview(p.body),
                },
            },
            Some(judged(p.opcode, p.header, p.parser, p.body)),
        )
    }

    /// After the last byte of a header.
    pub open spec fn headed(self, raw: Seq<u8>) -> (ReadView, Option<OutcomeView>) {
        let (size, opcode) = cipher::server_header(self.dec.opened(raw));
        let moved = ReadView { dec: self.dec.after(raw), header: Seq::empty(), ..self };
        if size < 2 {
            (
                ReadView {
                    attempt: AttemptView {
                        header: raw,
                        opcode: Some(opcode),
                        body: Seq::empty(),
                    },
                    ..moved
                },
                Some(
                    OutcomeView::Refused(
                        FaultView { opcode, prefix: Seq::empty(), reason: size_reason(size) },
                    ),
                ),
            )
        } else {
            let p = PendingView {
                opcode,
                payload_len: (size - 2) as nat,
                header: raw,
                parser: self.dec,
                body: Seq::empty(),
            };
            if size == 2 {
                moved.completed(p)
            } else {
                (ReadView { pending: Some(p), ..moved }, None)
            }
        }
    }

    /// After one more byte: the new state, and what came of the frame that it completed.
    pub open spec fn step(self, b: u8) -> (ReadView, Option<OutcomeView>) {
        match self.pending {
            None => {
                let raw = self.header.push(b);
                if raw.len() < 4 {
                    (ReadView { header: raw, ..self }, None)
                } else {
                    self.headed(raw)
                }
            },
            Some(p) => {
                let p = PendingView { body: p.body.push(b), ..p };
                if p.body.len() < p.payload_len {
                    (ReadView { pending: Some(p), ..self }, None)
                } else {
                    self.completed(p)
                }
            },
        }
    }

    /// After several more bytes: the new state, and what came of each frame that they completed.
    pub open spec fn feed(self, bytes: Seq<u8>) -> (ReadView, Seq<OutcomeView>)
        decreases bytes.len(),
    {
        if bytes.len() == 0 {
            (self, Seq::empty())
        } else {
            let (before, done) = self.feed(bytes.drop_last());
            let (after, outcome) = before.step(bytes.last());
            (after, done + listed(outcome))
        }
    }

    /// After the last byte of a header, where frames are handed out as they come: neither judged
    /// nor remembered as an attempt. A size without room for the opcode stands for an empty body.
    pub open spec fn raw_headed(self, raw: Seq<u8>) -> (ReadView, Option<RawView>) {
        let (size, opcode) = cipher::server_header(self.dec.opened(raw));
        let moved = ReadView { dec: self.dec.after(raw), header: Seq::empty(), ..self };
        if size <= 2 {
            (moved, Some(RawView { opcode, body: Seq::empty() }))
        } else {
            let p = PendingView {
                opcode,
                payload_len: (size - 2) as nat,
                header: raw,
                parser: self.dec,
                body: Seq::empty(),
            };
            (ReadView { pending: Some(p), ..moved }, None)
        }
    }

    /// After one more byte, where frames are handed out as they come.
    pub open spec fn raw_step(self, b: u8) -> (ReadView, Option<RawView>) {
        match self.pending {
            None => {
                let raw = self.header.push(b);
                if raw.len() < 4 {
                    (ReadView { header: raw, ..self }, None)
                } else {
                    self.raw_headed(raw)
                }
            },
            Some(p) => {
                let body = p.body.push(b);
                if body.len() < p.payload_len {
                    (ReadView { pending: Some(PendingView { body, ..p }), ..self }, None)
                } else {
                    (
                        ReadView { pending: None, ..self },
                        Some(RawView { opcode: p.opcode, body }),
                    )
                }
            },
        }
    }

    /// After several more bytes, where frames are handed out as they come.
    pub open spec fn raw_feed(self, bytes: Seq<u8>) -> (ReadView, Seq<RawView>)
        decreases bytes.len(),
    {
        if bytes.len() == 0 {
            (self, Seq::empty())
        } else {
            let (before, done) = self.raw_feed(bytes.drop_last());
            let (after, frame) = before.raw_step(bytes.last());
            (after, done + handed_out(frame))
        }
    }

    /// How many bytes the header or the body in progress still lacks.
    pub open spec fn wanted(self) -> int {
        match self.pending {
            None => 4 - self.header.len(),
            Some(p) => p.payload_len - p.body.len(),
        }
    }

    /// A state that reading can be in.
    pub open spec fn valid(self) -> bool {
        match self.pending {
            None => self.header.len() < 4,
            Some(p) => self.header.len() == 0 && p.body.len() < p.payload_len,
        }
    }

    /// Between two frames.
    pub open spec fn idle(self) -> bool {
        self.header.len() == 0 && self.pending is None
    }
}

/// A frame that is handed out, if there is one.
pub open spec fn handed_out(frame: Option<RawView>) -> Seq<RawView> {
    match frame {
        Some(f) => seq![f],
        None => Seq::empty(),
    }
}

/// An outcome, if there is one.
pub open spec fn listed(outcome: Option<OutcomeView>) -> Seq<OutcomeView> {
    match outcome {
        Some(o) => seq![o],
        None => Seq::empty(),
    }
}

// ------------------------------------------------------------------------------------------
// A session's reader
// ------------------------------------------------------------------------------------------

/// A frame that was decoded: how long its header says that its body is, and how much of it the
/// decoder took.
#[derive(Clone, Copy, Debug, PartialEq, Eq, Structural)]
pub struct DecodedFrame {
    pub opcode: u16,
    pub declared_body_len: usize,
    pub actual_body_len: usize,
}

/// A frame whose header is there and whose body is not yet.
pub struct PendingFrame {
    pub opcode: u16,
    pub payload_len: usize,
    pub header_raw: [u8; 4],
    pub parser: HeaderDecrypter,
    pub body: Vec<u8>,
}

impl View for PendingFrame {
    type V = PendingView;

    open spec fn view(&self) -> PendingView {
        PendingView {
            opcode: self.opcode,
            payload_len: self.payload_len as nat,
            header: self.header_raw@,
            parser: self.parser@,
            body: self.body@,
        }
    }
}

/// A frame that is there in full, ready for the decoder. `parser` is the cipher as it stood
/// before the frame's header, which the decoder opens on its own.
pub struct WholeFrame {
    pub opcode: u16,
    pub header_raw: [u8; 4],
    pub parser: HeaderDecrypter,
    pub body: Vec<u8>,
}

impl View for WholeFrame {
    type V = WholeView;

    open spec fn view(&self) -> WholeView {
        WholeView {
            opcode: self.opcode,
            header: self.header_raw@,
            parser: self.parser@,
            body: self.body@,
        }
    }
}

/// What came of the bytes that were read.
pub enum Progress {
    /// The frame is not complete.
    More,
    /// The frame must not be decoded.
    Refused(UnsafeServerFrame),
    /// The frame is complete.
    Whole(WholeFrame),
}

impl Progress {
    /// The outcomes that it stands for: one at most.
    pub open spec fn outcomes(self) -> Seq<OutcomeView> {
        match self {
            Progress::More => Seq::empty(),
            Progress::Refused(fault) => seq![OutcomeView::Refused(fault@)],
            Progress::Whole(frame) => seq![OutcomeView::Whole(frame@)],
        }
    }
}

/// A frame as it came.
pub struct RawFrame {
    pub opcode: u16,
    pub body: Vec<u8>,
}

impl View for RawFrame {
    type V = RawView;

    open spec fn view(&self) -> RawView {
        RawView { opcode: self.opcode, body: self.body@ }
    }
}

/// A frame as it came, if there is one.
pub open spec fn raw_of(frame: Option<RawFrame>) -> Option<RawView> {
    match frame {
        Some(f) => Some(f@),
        None => None,
    }
}

/// What a session keeps of the frames that it reads: the last ones that were decoded, the one
/// that was attempted last, and what has arrived of the one in progress.
pub struct FrameLog {
    pub label: String,
    pub ring: VecDeque<DecodedFrame>,
    pub last_header_raw: Vec<u8>,
    pub last_opcode: Option<u16>,
    pub last_body_preview: Vec<u8>,
    pub pending_header: Vec<u8>,
    pub pending_frame: Option<PendingFrame>,
}

/// The decoded frames that are kept after one more: the last ones, oldest first.
pub open spec fn recorded(ring: Seq<DecodedFrame>, frame: DecodedFrame) -> Seq<DecodedFrame> {
    if ring.len() == CRASH_RING_CAPACITY {
        ring.skip(1).push(frame)
    } else {
        ring.push(frame)
    }
}

/// The decoded frames that are kept of a history.
pub open spec fn ring_of(history: Seq<DecodedFrame>) -> Seq<DecodedFrame>
    decreases history.len(),
{
    if history.len() == 0 {
        Seq::empty()
    } else {
        recorded(ring_of(history.drop_last()), history.last())
    }
}

/// Whatever was decoded, exactly the last frames of the history are kept, oldest first.
pub proof fn the_ring_keeps_the_last_frames(history: Seq<DecodedFrame>)
    ensures
        history.len() <= CRASH_RING_CAPACITY ==> ring_of(history) == history,
        history.len() > CRASH_RING_CAPACITY ==> ring_of(history) == history.skip(
            history.len() - CRASH_RING_CAPACITY,
        ),
        ring_of(history).len() <= CRASH_RING_CAPACITY,
    decreases history.len(),
{
    if history.len() > 0 {
        let rest = history.drop_last();
        the_ring_keeps_the_last_frames(rest);
        if history.len() <= CRASH_RING_CAPACITY {
            assert(ring_of(history) =~= history);
        } else {
            assert(ring_of(history) =~= history.skip(history.len() - CRASH_RING_CAPACITY));
        }
    }
}

fn copy_of(bytes: &Vec<u8>, len: usize) -> (v: Vec<u8>)
    requires
        len <= bytes@.len(),
    ensures
        v@ == bytes@.take(len as int),
{
    let mut v: Vec<u8> = Vec::new();
    for i in 0..len
        invariant
            len <= bytes@.len(),
            v@ == bytes@.take(i as int),
    {
        v.push(bytes[i]);
        assert(bytes@.take(i + 1) =~= bytes@.take(i as int).push(bytes@[i as int]));
    }
    v
}

fn bytes_of(raw: [u8; 4]) -> (v: Vec<u8>)
    ensures
        v@ == raw@,
{
    let mut v: Vec<u8> = Vec::new();
    for i in 0..4usize
        invariant
            v@ == raw@.take(i as int),
    {
        v.push(raw[i]);
        assert(raw@.take(i + 1) =~= raw@.take(i as int).push(raw@[i as int]));
    }
    assert(raw@.take(4) =~= raw@);
    v
}

fn preview_of(body: &Vec<u8>) -> (v: Vec<u8>)
    ensures
        v@ == preview(body@),
{
    let len: usize = if body.len() <= FRAME_DIAGNOSTIC_BYTES {
        body.len()
    } else {
        FRAME_DIAGNOSTIC_BYTES
    };
    assert(body@.take(body@.len() as int) =~= body@);
    copy_of(body, len)
}

impl UnsafeServerFrame {
    /// A frame whose body made the decoder panic.
    pub fn panicked(opcode: u16, body: &Vec<u8>, said: &str) -> (f: UnsafeServerFrame)
        ensures
            f@ == (FaultView { opcode, prefix: preview(body@), reason: panic_reason(said@) }),
    {
        let mut reason: String = "decoder panicked: ".to_owned();
        reason.append(said);
        UnsafeServerFrame { opcode, payload_prefix: preview_of(body), reason }
    }
}

impl FrameLog {
    /// Where reading stands, with the cipher that goes along with it.
    pub open spec fn reading(&self, dec: cipher::Keystream) -> ReadView {
        ReadView {
            dec,
            header: self.pending_header@,
            pending: match self.pending_frame {
                Some(p) => Some(p@),
                None => None,
            },
            attempt: self.attempt(),
        }
    }

    /// What was last attempted.
    pub open spec fn attempt(&self) -> AttemptView {
        AttemptView {
            header: self.last_header_raw@,
            opcode: self.last_opcode,
            body: self.last_body_preview@,
        }
    }

    /// A state that reading can be in.
    pub open spec fn valid(&self) -> bool {
        match self.pending_frame {
            None => self.pending_header@.len() < 4,
            Some(p) => self.pending_header@.len() == 0 && p.body@.len() < p.payload_len,
        }
    }

    /// A log under that label, before the first byte.
    pub fn new(label: &str) -> (log: FrameLog)
        ensures
            log.valid(),
            log.label@ == label@,
            log.ring@ == Seq::<DecodedFrame>::empty(),
            log.attempt() == (AttemptView {
                header: seq![0u8, 0u8, 0u8, 0u8],
                opcode: None,
                body: Seq::empty(),
            }),
            forall|dec: cipher::Keystream| (#[trigger] log.reading(dec)).idle(),
    {
        let zeros: Vec<u8> = vec![0u8, 0u8, 0u8, 0u8];
        assert(zeros@ =~= seq![0u8, 0u8, 0u8, 0u8]);
        FrameLog {
            label: label.to_owned(),
            ring: VecDeque::new(),
            last_header_raw: zeros,
            last_opcode: None,
            last_body_preview: Vec::new(),
            pending_header: Vec::new(),
            pending_frame: None,
        }
    }

    /// How many bytes to read next at most: what the header or the body in progress lacks.
    pub fn wanted(&self) -> (n: usize)
        requires
            self.valid(),
        ensures
            n > 0,
            forall|dec: cipher::Keystream| n == (#[trigger] self.reading(dec)).wanted(),
    {
        match &self.pending_frame {
            None => 4 - self.pending_header.len(),
            Some(p) => p.payload_len - p.body.len(),
        }
    }

    /// What a failed read is called: by the part of the frame that it was to fill.
    pub fn phase(&self) -> (s: &'static str)
        ensures
            s@ == if self.pending_frame is None {
                "world frame header"@
            } else {
                "world frame payload"@
            },
    {
        match &self.pending_frame {
            None => "world frame header",
            Some(_) => "world frame payload",
        }
    }

    /// Remembers what was read of a frame, before it is known whether it can be decoded.
    fn record_attempt(&mut self, header_raw: [u8; 4], opcode: u16, body_preview: Vec<u8>)
        ensures
            final(self).attempt() == (AttemptView {
                header: header_raw@,
                opcode: Some(opcode),
                body: body_preview@,
            }),
            final(self).label == old(self).label,
            final(self).ring == old(self).ring,
            final(self).pending_header == old(self).pending_header,
            final(self).pending_frame == old(self).pending_frame,
    {
        self.last_header_raw = bytes_of(header_raw);
        self.last_opcode = Some(opcode);
        self.last_body_preview = body_preview;
    }

    /// Remembers that a frame was decoded.
    pub fn record_decoded(&mut self, opcode: u16, declared_body_len: usize, actual_body_len: usize)
        ensures
            final(self).ring@ == recorded(
                old(self).ring@,
                (DecodedFrame { opcode, declared_body_len, actual_body_len }),
            ),
            final(self).label == old(self).label,
            final(self).attempt() == old(self).attempt(),
            final(self).pending_header == old(self).pending_header,
            final(self).pending_frame == old(self).pending_frame,
    {
        if self.ring.len() == CRASH_RING_CAPACITY {
            let _ = self.ring.pop_front();
            assert(self.ring@ =~= old(self).ring@.skip(1));
        }
        self.ring.push_back(DecodedFrame { opcode, declared_body_len, actual_body_len });
    }

    /// Judges a frame that is there in full.
    fn complete(&mut self, p: PendingFrame, dec: Ghost<cipher::Keystream>) -> (r: Progress)
        requires
            old(self).pending_header@.len() == 0,
            old(self).pending_frame is None,
        ensures
            (final(self).reading(dec@), r.outcomes()) == ({
                let (after, outcome) = old(self).reading(dec@).completed(p@);
                (after, listed(outcome))
            }),
            final(self).valid(),
            final(self).label == old(self).label,
            final(self).ring == old(self).ring,
    {
        let PendingFrame { opcode, header_raw, parser, body, .. } = p;
        let prefix: Vec<u8> = preview_of(&body);
        let prefix_again: Vec<u8> = preview_of(&body);
        self.record_attempt(header_raw, opcode, prefix_again);
        assert(self.pending_header@ =~= Seq::<u8>::empty());
        if opcode == SMSG_COMPRESSED_MOVES_OPCODE {
            if body.len() < 4 {
                let reason: String = number::number_between(
                    "compressed-moves payload is ",
                    body.len() as u64,
                    " bytes; the decompressed-size prefix needs 4",
                );
                return Progress::Refused(
                    UnsafeServerFrame { opcode, payload_prefix: prefix, reason },
                );
            }
            let declared: u32 = body[0] as u32 + body[1] as u32 * 256 + body[2] as u32 * 65536
                + body[3] as u32 * 16777216;
            if declared > MAX_DECOMPRESSED_FRAME_BYTES {
                let reason: String = number::number_between(
                    "declares ",
                    declared as u64,
                    " decompressed bytes; limit is 4194304",
                );
                return Progress::Refused(
                    UnsafeServerFrame { opcode, payload_prefix: prefix, reason },
                );
            }
        }
        Progress::Whole(WholeFrame { opcode, header_raw, parser, body })
    }

    /// Opens the header that is there, once.
    fn head(&mut self, dec: &mut HeaderDecrypter) -> (r: Progress)
        requires
            old(self).pending_frame is None,
            old(self).pending_header@.len() == 4,
        ensures
            (final(self).reading(final(dec)@), r.outcomes()) == ({
                let (after, outcome) = old(self).reading(old(dec)@).headed(
                    old(self).pending_header@,
                );
                (after, listed(outcome))
            }),
            final(self).valid(),
            final(self).label == old(self).label,
            final(self).ring == old(self).ring,
    {
        let header_raw: [u8; 4] = self.take_header();
        let parser: HeaderDecrypter = dec.copy();
        let (size, opcode) = dec.decrypt_server_header(header_raw);
        if size < 2 {
            self.record_attempt(header_raw, opcode, Vec::new());
            let reason: String = number::number_between(
                "invalid server-frame size ",
                size as u64,
                " (the size must include the 2-byte opcode)",
            );
            let payload_prefix: Vec<u8> = Vec::new();
            assert(payload_prefix@ =~= Seq::<u8>::empty());
            return Progress::Refused(UnsafeServerFrame { opcode, payload_prefix, reason });
        }
        let payload_len: usize = size as usize - 2;
        let body: Vec<u8> = Vec::new();
        assert(body@ =~= Seq::<u8>::empty());
        let p = PendingFrame { opcode, payload_len, header_raw, parser, body };
        if payload_len == 0 {
            let ghost state = dec@;
            self.complete(p, Ghost(state))
        } else {
            self.pending_frame = Some(p);
            Progress::More
        }
    }

    fn take_header(&mut self) -> (header_raw: [u8; 4])
        requires
            old(self).pending_header@.len() == 4,
        ensures
            header_raw@ == old(self).pending_header@,
            final(self).pending_header@ == Seq::<u8>::empty(),
            *final(self) == (FrameLog {
                pending_header: final(self).pending_header,
                ..*old(self)
            }),
    {
        let header_raw: [u8; 4] = [
            self.pending_header[0],
            self.pending_header[1],
            self.pending_header[2],
            self.pending_header[3],
        ];
        assert(header_raw@ =~= self.pending_header@);
        self.pending_header.clear();
        assert(self.pending_header@ =~= Seq::<u8>::empty());
        header_raw
    }

    /// Takes in what one read brought, no more than was wanted. Nothing of it is lost: what does
    /// not complete a frame is kept for the next call, and a read that fails changes nothing.
    pub fn accept(&mut self, dec: &mut HeaderDecrypter, read: &Delivery) -> (r: Result<
        Progress,
        FillFault,
    >)
        requires
            old(self).valid(),
            read@.bytes().len() <= old(self).reading(old(dec)@).wanted(),
        ensures
            (final(self).reading(final(dec)@), progress(r)) == old(self).reading(old(dec)@).feed(
                read@.bytes(),
            ),
            fill::broken(read@) == match r {
                Ok(_) => None,
                Err(f) => Some(f@),
            },
            final(self).valid(),
            final(self).label == old(self).label,
            final(self).ring == old(self).ring,
    {
        let ghost start = self.reading(dec@);
        proof {
            a_read_appends_what_was_delivered(start, read@.bytes());
        }
        match self.pending_frame.take() {
            None => {
                if let Some(fault) = fill::fill(&mut self.pending_header, 4, read) {
                    return Err(fault);
                }
                if self.pending_header.len() < 4 {
                    return Ok(Progress::More);
                }
                Ok(self.head(dec))
            },
            Some(mut p) => {
                let payload_len: usize = p.payload_len;
                if let Some(fault) = fill::fill(&mut p.body, payload_len, read) {
                    self.pending_frame = Some(p);
                    return Err(fault);
                }
                if p.body.len() < payload_len {
                    self.pending_frame = Some(p);
                    return Ok(Progress::More);
                }
                let ghost state = dec@;
                Ok(self.complete(p, Ghost(state)))
            },
        }
    }

    /// Takes in what one read brought, no more than was wanted, and hands a complete frame out as
    /// it came. What is there of a frame in progress is taken up where either way of reading left
    /// it.
    pub fn accept_raw(&mut self, dec: &mut HeaderDecrypter, read: &Delivery) -> (r: Result<
        Option<RawFrame>,
        FillFault,
    >)
        requires
            old(self).valid(),
            read@.bytes().len() <= old(self).reading(old(dec)@).wanted(),
        ensures
            (final(self).reading(final(dec)@), raw_progress(r)) == old(self).reading(
                old(dec)@,
            ).raw_feed(read@.bytes()),
            fill::broken(read@) == match r {
                Ok(_) => None,
                Err(f) => Some(f@),
            },
            final(self).valid(),
            final(self).label == old(self).label,
            final(self).ring == old(self).ring,
    {
        let ghost start = self.reading(dec@);
        proof {
            a_raw_read_appends_what_was_delivered(start, read@.bytes());
        }
        match self.pending_frame.take() {
            None => {
                if let Some(fault) = fill::fill(&mut self.pending_header, 4, read) {
                    return Err(fault);
                }
                if self.pending_header.len() < 4 {
                    return Ok(None);
                }
                let header_raw: [u8; 4] = self.take_header();
                let parser: HeaderDecrypter = dec.copy();
                let (size, opcode) = dec.decrypt_server_header(header_raw);
                let body: Vec<u8> = Vec::new();
                assert(body@ =~= Seq::<u8>::empty());
                if size <= 2 {
                    return Ok(Some(RawFrame { opcode, body }));
                }
                let payload_len: usize = size as usize - 2;
                self.pending_frame =
                Some(PendingFrame { opcode, payload_len, header_raw, parser, body });
                Ok(None)
            },
            Some(mut p) => {
                let payload_len: usize = p.payload_len;
                if let Some(fault) = fill::fill(&mut p.body, payload_len, read) {
                    self.pending_frame = Some(p);
                    return Err(fault);
                }
                if p.body.len() < payload_len {
                    self.pending_frame = Some(p);
                    return Ok(None);
                }
                let PendingFrame { opcode, body, .. } = p;
                Ok(Some(RawFrame { opcode, body }))
            },
        }
    }
}

/// What a read that was taken in gave.
pub open spec fn progress(r: Result<Progress, FillFault>) -> Seq<OutcomeView> {
    match r {
        Ok(p) => p.outcomes(),
        Err(_) => Seq::empty(),
    }
}

/// The frames that a read that was taken in handed out.
pub open spec fn raw_progress(r: Result<Option<RawFrame>, FillFault>) -> Seq<RawView> {
    match r {
        Ok(frame) => handed_out(raw_of(frame)),
        Err(_) => Seq::empty(),
    }
}

/// The two ways of reading may take turns: a byte leaves the stream at the same place either way,
/// only that handing a frame out is no attempt to decode it; and a frame that is complete one way
/// is complete the other way, under the same opcode and with the same body.
pub proof fn both_readers_stay_in_step(s: ReadView, b: u8)
    requires
        s.valid(),
    ensures
        s.raw_step(b).0 == (ReadView { attempt: s.attempt, ..s.step(b).0 }),
        s.raw_step(b).1 is Some <==> s.step(b).1 is Some,
        s.step(b).1 matches Some(OutcomeView::Whole(f)) ==> s.raw_step(b).1 == Some(
            RawView { opcode: f.opcode, body: f.body },
        ),
        s.step(b).1 matches Some(OutcomeView::Refused(f)) ==> s.raw_step(b).1->0.opcode
            == f.opcode,
{
    if s.pending is Some {
        assert(s.header =~= Seq::<u8>::empty());
    }
}

/// What is read is appended to what is there, and no more is ever wanted than is missing: short of
/// that nothing comes of it, and with it the header or the body is complete.
pub proof fn a_read_appends_what_was_delivered(s: ReadView, bytes: Seq<u8>)
    requires
        s.valid(),
        bytes.len() <= s.wanted(),
    ensures
        bytes.len() < s.wanted() ==> s.feed(bytes).1 == Seq::<OutcomeView>::empty()
            && s.feed(bytes).0.wanted() == s.wanted() - bytes.len(),
        match s.pending {
            None => if bytes.len() < s.wanted() {
                s.feed(bytes).0 == (ReadView { header: s.header + bytes, ..s })
            } else {
                s.feed(bytes) == (
                    s.headed(s.header + bytes).0,
                    listed(s.headed(s.header + bytes).1),
                )
            },
            Some(p) => {
                let grown = PendingView { body: p.body + bytes, ..p };
                if bytes.len() < s.wanted() {
                    s.feed(bytes).0 == (ReadView { pending: Some(grown), ..s })
                } else {
                    s.feed(bytes) == (s.completed(grown).0, listed(s.completed(grown).1))
                }
            },
        },
    decreases bytes.len(),
{
    if bytes.len() == 0 {
        assert(s.header + bytes =~= s.header);
        if let Some(p) = s.pending {
            assert(p.body + bytes =~= p.body);
        }
    } else {
        let rest = bytes.drop_last();
        a_read_appends_what_was_delivered(s, rest);
        assert(s.header + bytes =~= (s.header + rest).push(bytes.last()));
        if let Some(p) = s.pending {
            assert(p.body + bytes =~= (p.body + rest).push(bytes.last()));
        }
        let outcome = s.feed(rest).0.step(bytes.last()).1;
        assert(Seq::<OutcomeView>::empty() + listed(outcome) =~= listed(outcome));
    }
}

/// Where frames are handed out as they come, what is read is appended just so.
pub proof fn a_raw_read_appends_what_was_delivered(s: ReadView, bytes: Seq<u8>)
    requires
        s.valid(),
        bytes.len() <= s.wanted(),
    ensures
        bytes.len() < s.wanted() ==> s.raw_feed(bytes).1 == Seq::<RawView>::empty()
            && s.raw_feed(bytes).0.wanted() == s.wanted() - bytes.len(),
        match s.pending {
            None => if bytes.len() < s.wanted() {
                s.raw_feed(bytes).0 == (ReadView { header: s.header + bytes, ..s })
            } else {
                s.raw_feed(bytes) == (
                    s.raw_headed(s.header + bytes).0,
                    handed_out(s.raw_headed(s.header + bytes).1),
                )
            },
            Some(p) => {
                let body = p.body + bytes;
                if bytes.len() < s.wanted() {
                    s.raw_feed(bytes).0 == (ReadView {
                        pending: Some(PendingView { body, ..p }),
                        ..s
                    })
                } else {
                    s.raw_feed(bytes) == (
                        ReadView { pending: None, ..s },
                        seq![RawView { opcode: p.opcode, body }],
                    )
                }
            },
        },
    decreases bytes.len(),
{
    if bytes.len() == 0 {
        assert(s.header + bytes =~= s.header);
        if let Some(p) = s.pending {
            assert(p.body + bytes =~= p.body);
        }
    } else {
        let rest = bytes.drop_last();
        a_raw_read_appends_what_was_delivered(s, rest);
        assert(s.header + bytes =~= (s.header + rest).push(bytes.last()));
        if let Some(p) = s.pending {
            assert(p.body + bytes =~= (p.body + rest).push(bytes.last()));
        }
        let frame = s.raw_feed(rest).0.raw_step(bytes.last()).1;
        assert(Seq::<RawView>::empty() + handed_out(frame) =~= handed_out(frame));
    }
}

/// The part of a frame that is being filled, and how long it is to be.
pub open spec fn part(s: ReadView) -> (Seq<u8>, nat) {
    match s.pending {
        None => (s.header, 4),
        Some(p) => (p.body, p.payload_len),
    }
}

/// A run of reads fills the header or the body in progress: what the reads delivered is appended
/// to it, whether they end well or not. Short of the whole nothing else changes, so that the next
/// read goes on where these stopped.
pub proof fn a_part_is_filled_read_by_read(s: ReadView, reads: Seq<DeliveryView>)
    requires
        s.valid(),
        fill::within(s.wanted(), reads),
    ensures
        ({
            let r = fill::filled(part(s).0, part(s).1, reads);
            let (after, done) = s.feed(fill::delivered(reads.take(r.made as int)));
            &&& r.acc == part(s).0 + fill::delivered(reads.take(r.made as int))
            &&& r.end != Some(Ok::<(), FillFaultView>(())) ==> {
                &&& done == Seq::<OutcomeView>::empty()
                &&& part(after) == (r.acc, part(s).1)
                &&& after.dec == s.dec && after.attempt == s.attempt
                &&& after.pending is Some <==> s.pending is Some
            }
            &&& r.end == Some(Ok::<(), FillFaultView>(())) ==> {
                &&& r.acc.len() == part(s).1
                &&& (after, done) == match s.pending {
                    None => (s.headed(r.acc).0, listed(s.headed(r.acc).1)),
                    Some(p) => {
                        let whole = PendingView { body: r.acc, ..p };
                        (s.completed(whole).0, listed(s.completed(whole).1))
                    },
                }
            }
        }),
{
    let r = fill::filled(part(s).0, part(s).1, reads);
    let bytes = fill::delivered(reads.take(r.made as int));
    fill::a_fill_keeps_what_was_delivered(part(s).0, part(s).1, reads);
    a_read_appends_what_was_delivered(s, bytes);
}

/// Fewer bytes than are wanted complete nothing.
proof fn lemma_wanted(s: ReadView, bytes: Seq<u8>)
    requires
        s.valid(),
        bytes.len() < s.wanted(),
    ensures
        s.feed(bytes).1 == Seq::<OutcomeView>::empty(),
        s.feed(bytes).0.valid(),
        s.feed(bytes).0.wanted() == s.wanted() - bytes.len(),
    decreases bytes.len(),
{
    if bytes.len() > 0 {
        lemma_wanted(s, bytes.drop_last());
    }
}

/// How a stream is cut into pieces makes no difference: the same frames come out of it, and
/// reading ends in the same state.
pub proof fn fragmentation_is_invisible(s: ReadView, a: Seq<u8>, b: Seq<u8>)
    ensures
        s.feed(a + b) == ({
            let (middle, first) = s.feed(a);
            let (end, second) = middle.feed(b);
            (end, first + second)
        }),
    decreases b.len(),
{
    let (middle, first) = s.feed(a);
    if b.len() == 0 {
        assert(a + b =~= a);
        assert(first + Seq::<OutcomeView>::empty() =~= first);
    } else {
        fragmentation_is_invisible(s, a, b.drop_last());
        assert((a + b).drop_last() =~= a + b.drop_last());
        let (before, done) = middle.feed(b.drop_last());
        let (after, outcome) = before.step(b.last());
        assert((first + done) + listed(outcome) =~= first + (done + listed(outcome)));
    }
}

// ------------------------------------------------------------------------------------------
// Both ends of a stream
// ------------------------------------------------------------------------------------------

/// A frame as a server means to send it.
pub struct SentFrame {
    pub opcode: u16,
    pub body: Seq<u8>,
}

/// The header of a sent frame on the wire.
pub open spec fn sent_header(k: cipher::Keystream, f: SentFrame) -> Seq<u8> {
    k.closed_up(cipher::server_header_bytes((f.body.len() + 2) as u16, f.opcode))
}

/// A server's stream: for each frame the sealed header and the body in the clear, and where the
/// server's cipher stands at the end.
pub open spec fn sent(k: cipher::Keystream, frames: Seq<SentFrame>) -> (Seq<u8>, cipher::Keystream)
    decreases frames.len(),
{
    if frames.len() == 0 {
        (Seq::empty(), k)
    } else {
        let (before, state) = sent(k, frames.drop_last());
        let header = sent_header(state, frames.last());
        (before + (header + frames.last().body), state.after(header))
    }
}

/// What a client makes of each frame of such a stream.
pub open spec fn received(k: cipher::Keystream, frames: Seq<SentFrame>) -> Seq<OutcomeView>
    decreases frames.len(),
{
    if frames.len() == 0 {
        Seq::empty()
    } else {
        let state = sent(k, frames.drop_last()).1;
        let f = frames.last();
        received(k, frames.drop_last()).push(
            judged(f.opcode, sent_header(state, f), state, f.body),
        )
    }
}

/// A header that was sealed here is opened there: after its four bytes the body is wanted, or the
/// frame is complete.
proof fn lemma_header(s: ReadView, f: SentFrame)
    requires
        s.idle(),
        s.dec.valid(),
        f.body.len() + 2 <= 65535,
    ensures
        ({
            let header = sent_header(s.dec, f);
            let p = PendingView {
                opcode: f.opcode,
                payload_len: f.body.len(),
                header,
                parser: s.dec,
                body: Seq::empty(),
            };
            let moved = ReadView { dec: s.dec.after(header), ..s };
            &&& header.len() == 4
            &&& moved.dec.valid()
            &&& s.feed(header) == if f.body.len() == 0 {
                (moved.completed(p).0, listed(moved.completed(p).1))
            } else {
                (ReadView { pending: Some(p), ..moved }, Seq::empty())
            }
        }),
{
    let plain = cipher::server_header_bytes((f.body.len() + 2) as u16, f.opcode);
    let header = sent_header(s.dec, f);
    cipher::opening_undoes_sealing(s.dec, plain);
    cipher::server_header_reads_back((f.body.len() + 2) as u16, f.opcode);
    let three = header.drop_last();
    lemma_wanted(s, three);
    lemma_header_bytes(s, three);
    assert(three.push(header.last()) =~= header);
    let (after, outcome) = s.feed(three).0.step(header.last());
    assert(Seq::<OutcomeView>::empty() + listed(outcome) =~= listed(outcome));
    assert(s.header =~= Seq::<u8>::empty());
}

/// The bytes of a header are kept as they come.
proof fn lemma_header_bytes(s: ReadView, bytes: Seq<u8>)
    requires
        s.idle(),
        bytes.len() < 4,
    ensures
        s.feed(bytes) == (ReadView { header: bytes, ..s }, Seq::<OutcomeView>::empty()),
    decreases bytes.len(),
{
    if bytes.len() == 0 {
        assert(s.header =~= bytes);
    } else {
        lemma_header_bytes(s, bytes.drop_last());
        assert(bytes.drop_last().push(bytes.last()) =~= bytes);
        let (after, outcome) = s.feed(bytes.drop_last()).0.step(bytes.last());
        assert(Seq::<OutcomeView>::empty() + listed(outcome) =~= listed(outcome));
    }
}

/// The bytes of a body are kept as they come.
proof fn lemma_body_bytes(s: ReadView, p: PendingView, bytes: Seq<u8>)
    requires
        s.pending == Some(p),
        p.body.len() == 0,
        s.header.len() == 0,
        bytes.len() < p.payload_len,
    ensures
        s.feed(bytes) == (
            ReadView { pending: Some(PendingView { body: bytes, ..p }), ..s },
            Seq::<OutcomeView>::empty(),
        ),
    decreases bytes.len(),
{
    if bytes.len() == 0 {
        assert(p.body =~= bytes);
    } else {
        lemma_body_bytes(s, p, bytes.drop_last());
        assert(bytes.drop_last().push(bytes.last()) =~= bytes);
        let (after, outcome) = s.feed(bytes.drop_last()).0.step(bytes.last());
        assert(Seq::<OutcomeView>::empty() + listed(outcome) =~= listed(outcome));
    }
}

/// One frame, sent by a cipher that stands where the reader's stands, is read and judged, and
/// both ciphers stand at the same place after it, whether it was refused or not.
pub proof fn one_frame_arrives(s: ReadView, f: SentFrame)
    requires
        s.idle(),
        s.dec.valid(),
        f.body.len() + 2 <= 65535,
    ensures
        ({
            let header = sent_header(s.dec, f);
            let (after, outcomes) = s.feed(header + f.body);
            &&& outcomes == seq![judged(f.opcode, header, s.dec, f.body)]
            &&& after.idle()
            &&& after.dec == s.dec.after(header)
            &&& after.dec.valid()
        }),
{
    let header = sent_header(s.dec, f);
    lemma_header(s, f);
    fragmentation_is_invisible(s, header, f.body);
    let (middle, first) = s.feed(header);
    if f.body.len() == 0 {
        assert(f.body =~= Seq::<u8>::empty());
        assert(first + Seq::<OutcomeView>::empty() =~= first);
    } else {
        let p = middle.pending->0;
        let most = f.body.drop_last();
        lemma_body_bytes(middle, p, most);
        assert(most.push(f.body.last()) =~= f.body);
        let (after, outcome) = middle.feed(most).0.step(f.body.last());
        assert(Seq::<OutcomeView>::empty() + listed(outcome) =~= listed(outcome));
        assert(first + middle.feed(f.body).1 =~= listed(outcome));
    }
}

/// Whatever frames a server sends, the client reads exactly those, one outcome for each, and the
/// two ciphers end in step: a refused frame costs nothing but itself.
pub proof fn every_sent_frame_arrives(s: ReadView, frames: Seq<SentFrame>)
    requires
        s.idle(),
        s.dec.valid(),
        forall|i: int| 0 <= i < frames.len() ==> (#[trigger] frames[i]).body.len() + 2 <= 65535,
    ensures
        ({
            let (wire, state) = sent(s.dec, frames);
            let (after, outcomes) = s.feed(wire);
            &&& outcomes == received(s.dec, frames)
            &&& after.idle()
            &&& after.dec == state
            &&& state.valid()
        }),
    decreases frames.len(),
{
    if frames.len() > 0 {
        let rest = frames.drop_last();
        let f = frames.last();
        assert forall|i: int| 0 <= i < rest.len() implies (#[trigger] rest[i]).body.len() + 2
            <= 65535 by {
            assert(rest[i] == frames[i]);
        }
        every_sent_frame_arrives(s, rest);
        let (before, state) = sent(s.dec, rest);
        let (middle, done) = s.feed(before);
        one_frame_arrives(middle, f);
        let header = sent_header(state, f);
        fragmentation_is_invisible(s, before, header + f.body);
        assert(done + seq![judged(f.opcode, header, state, f.body)] =~= received(s.dec, frames));
    }
}

// ------------------------------------------------------------------------------------------
// The diagnostic of a session that ended
// ------------------------------------------------------------------------------------------

/// One decoded frame in a diagnostic.
pub open spec fn frame_line(f: DecodedFrame) -> Seq<char> {
    "  opcode=0x"@ + number::hex_fixed(f.opcode as nat, 4, true) + " declared_body_len="@
        + number::decimal(f.declared_body_len as nat) + " actual_body_len="@ + number::decimal(
        f.actual_body_len as nat,
    ) + if f.declared_body_len != f.actual_body_len {
        "  <-- MISMATCH\n"@
    } else {
        "\n"@
    }
}

/// The decoded frames in a diagnostic.
pub open spec fn frame_lines(ring: Seq<DecodedFrame>) -> Seq<char>
    decreases ring.len(),
{
    if ring.len() == 0 {
        Seq::empty()
    } else {
        frame_lines(ring.drop_last()) + frame_line(ring.last())
    }
}

/// An opcode in a diagnostic.
pub open spec fn opcode_text(opcode: Option<u16>) -> Seq<char> {
    match opcode {
        Some(o) => "0x"@ + number::hex_fixed(o as nat, 4, true),
        None => "<unknown>"@,
    }
}

/// A diagnostic.
pub open spec fn diagnostic(
    label: Seq<char>,
    ring: Seq<DecodedFrame>,
    attempt: AttemptView,
    error: Seq<char>,
) -> Seq<char> {
    "session: "@ + label + "\n"@ + "error: "@ + error + "\n"@ + "last "@ + number::decimal(
        ring.len(),
    ) + " decoded frames (oldest first):\n"@ + frame_lines(ring) + "failing header raw bytes: "@
        + shown(attempt.header) + "\n"@ + "failing frame opcode: "@ + opcode_text(attempt.opcode)
        + "\n"@ + "failing body[0.."@ + number::decimal(attempt.body.len()) + "]: "@ + shown(
        attempt.body,
    ) + "\n"@
}

fn push_frame_line(out: &mut String, f: DecodedFrame)
    ensures
        final(out)@ == old(out)@ + frame_line(f),
{
    let ghost start = out@;
    out.append("  opcode=0x");
    number::push_hex_fixed(out, f.opcode as u64, 4, true);
    out.append(" declared_body_len=");
    number::push_decimal(out, f.declared_body_len as u64);
    out.append(" actual_body_len=");
    number::push_decimal(out, f.actual_body_len as u64);
    if f.declared_body_len != f.actual_body_len {
        out.append("  <-- MISMATCH\n");
    } else {
        out.append("\n");
    }
    assert(out@ =~= start + frame_line(f));
}

impl FrameLog {
    /// The diagnostic of a session that ended with that error.
    pub fn dump(&self, error: &str) -> (out: String)
        ensures
            out@ == diagnostic(self.label@, self.ring@, self.attempt(), error@),
    {
        let mut out: String = "session: ".to_owned();
        out.append(self.label.as_str());
        out.append("\n");
        out.append("error: ");
        out.append(error);
        out.append("\n");
        out.append("last ");
        number::push_decimal(&mut out, self.ring.len() as u64);
        out.append(" decoded frames (oldest first):\n");
        let ghost head = out@;
        assert(head + frame_lines(self.ring@.take(0)) =~= head);
        let mut i: usize = 0;
        while i < self.ring.len()
            invariant
                i <= self.ring@.len(),
                out@ == head + frame_lines(self.ring@.take(i as int)),
            decreases self.ring@.len() - i,
        {
            push_frame_line(&mut out, self.ring[i]);
            assert(self.ring@.take(i + 1).drop_last() =~= self.ring@.take(i as int));
            assert(out@ =~= head + frame_lines(self.ring@.take(i + 1)));
            i = i + 1;
        }
        assert(self.ring@.take(self.ring@.len() as int) =~= self.ring@);
        out.append("failing header raw bytes: ");
        let header: String = hex_bytes(&self.last_header_raw);
        out.append(header.as_str());
        out.append("\n");
        out.append("failing frame opcode: ");
        match self.last_opcode {
            Some(o) => {
                out.append("0x");
                number::push_hex_fixed(&mut out, o as u64, 4, true);
            },
            None => {
                out.append("<unknown>");
            },
        }
        out.append("\n");
        out.append("failing body[0..");
        number::push_decimal(&mut out, self.last_body_preview.len() as u64);
        out.append("]: ");
        let body: String = hex_bytes(&self.last_body_preview);
        out.append(body.as_str());
        out.append("\n");
        assert(out@ =~= diagnostic(self.label@, self.ring@, self.attempt(), error@));
        out
    }
}

// ------------------------------------------------------------------------------------------
// What is refused, and what is shown
// ------------------------------------------------------------------------------------------

/// Only compressed movements are refused for their body: without the four bytes of their size, or with
/// a size of more than four mebibytes, lowest byte first. Every other frame is handed on in full.
pub proof fn only_oversized_movements_are_refused(
    opcode: u16,
    header: Seq<u8>,
    parser: cipher::Keystream,
    n: u32,
    rest: Seq<u8>,
    body: Seq<u8>,
)
    ensures
        opcode != 0x02FB ==> judged(opcode, header, parser, body) == OutcomeView::Whole(
            WholeView { opcode, header, parser, body },
        ),
        body.len() < 4 ==> judged(0x02FB, header, parser, body) is Refused,
        ({
            let full = crate::wire::low_bytes(n as nat, 4) + rest;
            if n > 4 * 1024 * 1024 {
                judged(0x02FB, header, parser, full) matches OutcomeView::Refused(f) && f.opcode
                    == 0x02FB && f.prefix == if full.len() <= 64 {
                    full
                } else {
                    full.take(64)
                }
            } else {
                judged(0x02FB, header, parser, full) == OutcomeView::Whole(
                    WholeView { opcode: 0x02FB, header, parser, body: full },
                )
            }
        }),
{
    let b = crate::wire::low_bytes(n as nat, 4);
    reveal_with_fuel(crate::wire::low_bytes, 5);
    let v = n as nat;
    assert(b.len() == 4);
    assert(b[0] == v % 256);
    assert(b[1] == v / 256 % 256);
    assert(b[2] == v / 256 / 256 % 256);
    assert(b[3] == v / 256 / 256 / 256 % 256);
    let full = b + rest;
    assert(le_word(full) == v);
    assert(full.take(64).len() <= 64 || full.len() < 64);
}

/// A size that leaves no room for the opcode is refused, and one that leaves only that is a frame
/// without a body.
pub proof fn a_header_says_how_long_its_body_is(s: ReadView, raw: Seq<u8>)
    requires
        s.pending is None,
        raw.len() == 4,
    ensures
        ({
            let plain = s.dec.opened(raw);
            let size = 256 * plain[0] + plain[1];
            let opcode = plain[2] + 256 * plain[3];
            let (after, outcome) = s.headed(raw);
            &&& after.dec == s.dec.after(raw) && after.header.len() == 0
            &&& size < 2 ==> (outcome matches Some(OutcomeView::Refused(f)) && f.opcode == opcode
                && f.prefix.len() == 0)
            &&& size == 2 ==> after.pending is None && (outcome matches Some(o) && o == judged(
                opcode as u16,
                raw,
                s.dec,
                Seq::empty(),
            ))
            &&& size > 2 ==> outcome is None && (after.pending matches Some(p) && p.payload_len == size
                - 2 && p.opcode == opcode && p.body.len() == 0 && p.header == raw && p.parser == s.dec)
        }),
{
}

/// Bytes are shown with two capital hexadecimal digits each and a blank between them; where there are
/// none, that is said.
pub proof fn bytes_are_shown_in_order(bytes: Seq<u8>, i: int)
    requires
        0 <= i < bytes.len(),
    ensures
        shown(bytes).len() == 3 * bytes.len() - 1,
        number::hex_value(shown(bytes).subrange(3 * i, 3 * i + 2)) == bytes[i],
        i + 1 < bytes.len() ==> shown(bytes)[3 * i + 2] == ' ',
        shown(Seq::<u8>::empty()) == "<empty>"@,
    decreases bytes.len(),
{
    let rest = bytes.drop_last();
    let last = hex_byte(bytes.last());
    reveal_strlit(" ");
    lemma_hex_byte(bytes.last());
    lemma_hex_byte(bytes[i]);
    if rest.len() > 0 {
        bytes_are_shown_in_order(rest, if i < rest.len() {
            i
        } else {
            0
        });
        assert(shown(bytes) == shown(rest) + " "@ + last);
        if i < rest.len() {
            assert(shown(bytes).subrange(3 * i, 3 * i + 2) =~= shown(rest).subrange(3 * i, 3 * i + 2));
        } else {
            assert(shown(bytes).subrange(3 * i, 3 * i + 2) =~= last);
        }
    } else {
        assert(shown(bytes).subrange(0, 2) =~= last);
    }
}

proof fn lemma_hex_byte(b: u8)
    ensures
        hex_byte(b).len() == 2,
        number::hex_value(hex_byte(b)) == b,
{
    number::hexadecimal_digits_read_back(b as nat, 2, true);
    assert(vstd::arithmetic::power::pow(16, 2) == 256) by {
        reveal_with_fuel(vstd::arithmetic::power::pow, 3);
    }
    assert(b as nat % 256 == b as nat);
}

/// A file name keeps what it may hold, and nothing else: every other character is an underscore, and
/// none is lost.
pub proof fn a_label_keeps_its_length(label: Seq<char>, i: int)
    requires
        0 <= i < label.len(),
    ensures
        sanitized(label).len() == label.len(),
        ({
            let c = label[i] as int;
            if (97 <= c <= 122) || (65 <= c <= 90) || (48 <= c <= 57) || c == 95 || c == 45 {
                sanitized(label)[i] == label[i]
            } else {
                sanitized(label)[i] == '_'
            }
        }),
{
}

/// The thirty-two frames that were decoded last are kept.
pub proof fn thirty_two_frames_are_kept(history: Seq<DecodedFrame>)
    ensures
        history.len() <= 32 ==> ring_of(history) == history,
        history.len() > 32 ==> ring_of(history) == history.skip(history.len() - 32),
{
    the_ring_keeps_the_last_frames(history);
}

/// The lines of the kept frames follow one another, oldest first, and each tells whether its two
/// lengths differ.
pub proof fn frames_are_listed_in_order(a: Seq<DecodedFrame>, b: Seq<DecodedFrame>, f: DecodedFrame)
    ensures
        frame_lines(a + b) == frame_lines(a) + frame_lines(b),
        crate::text::ends_with(frame_line(f), "  <-- MISMATCH\n"@) <==> f.declared_body_len
            != f.actual_body_len,
        f.actual_body_len == f.declared_body_len ==> frame_line(f).last() == '\n',
    decreases b.len(),
{
    if b.len() == 0 {
        assert(a + b =~= a);
        assert(frame_lines(a) + frame_lines(b) =~= frame_lines(a));
    } else {
        frames_are_listed_in_order(a, b.drop_last(), f);
        assert((a + b).drop_last() =~= a + b.drop_last());
        assert(frame_lines(a + b) =~= frame_lines(a) + frame_lines(b));
    }
    reveal_strlit("  <-- MISMATCH\n");
    reveal_strlit("\n");
    let line = frame_line(f);
    let tail = "  <-- MISMATCH\n"@;
    let at = line.len() - tail.len();
    if f.declared_body_len != f.actual_body_len {
        assert(line.subrange(at, at + tail.len()) =~= tail);
    } else {
        number::decimal_reads_back(f.actual_body_len as nat);
        let digits = number::decimal(f.actual_body_len as nat);
        let before = line.len() - 2;
        assert(line[before] == digits[digits.len() - 1]);
        assert(number::is_digit(digits[digits.len() - 1]));
        if crate::text::ends_with(line, tail) {
            assert(line.subrange(at, at + tail.len())[tail.len() - 2] == tail[tail.len() - 2]);
            assert(line[before] == 'H');
        }
    }
}

} // verus!

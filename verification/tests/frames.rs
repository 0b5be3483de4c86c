use std::collections::VecDeque;
use std::io::Cursor;
use wire_client::cipher::HeaderDecrypter;
use wire_client::fill::{self, Delivery, FillFault};
use wire_client::frame::{
    sanitize_label, FrameLog, Progress, UnsafeServerFrame, WholeFrame,
    MAX_DECOMPRESSED_FRAME_BYTES, SMSG_COMPRESSED_MOVES_OPCODE,
};
use wire_client::receive::{
    is_read_timeout, is_unsafe_server_frame, Receiving, Recovery, WireError,
};
use wire_client::session::{self, open_session, Admission, AdmissionStep, AuthReply};
use wow_srp::normalized_string::NormalizedString;
use wow_srp::vanilla_header::{EncrypterHalf, ProofSeed};
use wow_world_messages::vanilla::opcodes::ServerOpcodeMessage as WorldSmsg;

/// The encrypter of a server that shares the key, and the client's decrypter.
fn ends() -> (EncrypterHalf, HeaderDecrypter) {
    let (_, crypto) = ProofSeed::new().into_client_header_crypto(
        &NormalizedString::new("TEST").unwrap(),
        [7; 40],
        0x1234_5678,
    );
    let (enc, _) = crypto.split();
    match open_session("TEST", [7; 40], 0x1234_5678) {
        Ok(opened) => (enc, opened.dec),
        Err(_) => panic!("refused"),
    }
}

fn wire_of(enc: &mut EncrypterHalf, frames: &[(u16, &[u8])]) -> Vec<u8> {
    let mut wire = Vec::new();
    for (opcode, payload) in frames {
        wire.extend_from_slice(&enc.encrypt_server_header((payload.len() + 2) as u16, *opcode));
        wire.extend_from_slice(payload);
    }
    wire
}

enum ReadStep {
    Bytes(usize),
    Timeout,
}

struct Scripted {
    data: Vec<u8>,
    pos: usize,
    script: VecDeque<ReadStep>,
}

impl Scripted {
    fn new(data: Vec<u8>, script: VecDeque<ReadStep>) -> Scripted {
        Scripted { data, pos: 0, script }
    }

    /// So many bytes at most; none where the read timed out.
    fn read(&mut self, most: usize) -> Option<Vec<u8>> {
        let n = match self.script.pop_front() {
            Some(ReadStep::Timeout) => return None,
            Some(ReadStep::Bytes(n)) => n,
            None => most,
        };
        let end = (self.pos + n.min(most)).min(self.data.len());
        let taken = self.data[self.pos..end].to_vec();
        self.pos = end;
        Some(taken)
    }
}

/// Reads on until a frame is whole or refused; a read that timed out is tried again.
fn next_frame(
    r: &mut Scripted,
    dec: &mut HeaderDecrypter,
    log: &mut FrameLog,
) -> Result<WholeFrame, UnsafeServerFrame> {
    for _ in 0..1000 {
        let read = match r.read(log.wanted()) {
            Some(chunk) => Delivery::Bytes(chunk),
            None => Delivery::Failed("timed out".to_string()),
        };
        match log.accept(dec, &read) {
            Ok(Progress::More) => continue,
            Ok(Progress::Refused(fault)) => return Err(fault),
            Ok(Progress::Whole(frame)) => return Ok(frame),
            Err(FillFault::Failed(said)) => assert_eq!(said, "timed out"),
            Err(FillFault::UnexpectedEof) => panic!("the stream has ended"),
        }
    }
    panic!("no frame")
}

fn decode(frame: WholeFrame, log: &mut FrameLog) -> WorldSmsg {
    let mut bytes = frame.header_raw.to_vec();
    bytes.extend_from_slice(&frame.body);
    let mut half = frame.parser.into_half();
    let mut cursor = Cursor::new(bytes);
    let message = WorldSmsg::read_encrypted(&mut cursor, &mut half).unwrap();
    let actual = (cursor.position() as usize).saturating_sub(4);
    log.record_decoded(frame.opcode, frame.body.len(), actual);
    message
}

fn drain(
    r: &mut Scripted,
    dec: &mut HeaderDecrypter,
    log: &mut FrameLog,
    count: usize,
) -> Vec<WorldSmsg> {
    let mut out = Vec::new();
    while out.len() < count {
        match next_frame(r, dec, log) {
            Ok(frame) => out.push(decode(frame, log)),
            Err(fault) => panic!("{}", fault.message()),
        }
    }
    out
}

#[test]
fn oversized_compressed_frame_is_rejected_before_the_declared_allocation() {
    let declared = MAX_DECOMPRESSED_FRAME_BYTES + 1;
    let mut payload = declared.to_le_bytes().to_vec();
    payload.push(0);
    let (mut enc, mut dec) = ends();
    let wire = wire_of(&mut enc, &[(SMSG_COMPRESSED_MOVES_OPCODE, &payload)]);
    let mut log = FrameLog::new("TEST");
    let fault =
        match next_frame(&mut Scripted::new(wire, VecDeque::new()), &mut dec, &mut log) {
            Ok(_) => panic!("an oversized decompressed frame must fail the session"),
            Err(fault) => fault,
        };
    let diagnostic = fault.message();
    assert!(diagnostic.contains("opcode=0x02FB"), "{diagnostic}");
    assert!(diagnostic.contains("payload[0..5]=01 00 40 00 00"), "{diagnostic}");
    assert!(
        diagnostic.contains("declares 4194305 decompressed bytes; limit is 4194304"),
        "{diagnostic}"
    );
}

/// What the session answers where the decoder gave up on a whole frame.
fn decoder_fault(frame: &WholeFrame) -> UnsafeServerFrame {
    UnsafeServerFrame::panicked(frame.opcode, &frame.body, "corrupt deflate stream")
}

fn corrupt() -> Vec<u8> {
    let mut payload = 32u32.to_le_bytes().to_vec();
    payload.extend_from_slice(&[0xDE, 0xAD, 0xBE, 0xEF]);
    payload
}

#[test]
fn corrupt_compressed_frame_becomes_a_diagnostic_instead_of_a_decoder_panic() {
    let (mut enc, mut dec) = ends();
    let wire = wire_of(&mut enc, &[(SMSG_COMPRESSED_MOVES_OPCODE, &corrupt())]);
    let mut log = FrameLog::new("TEST");
    let frame =
        match next_frame(&mut Scripted::new(wire, VecDeque::new()), &mut dec, &mut log) {
            Ok(frame) => frame,
            Err(fault) => panic!("{}", fault.message()),
        };
    let diagnostic = decoder_fault(&frame).message();
    assert!(diagnostic.contains("opcode=0x02FB"), "{diagnostic}");
    assert!(diagnostic.contains("payload[0..8]=20 00 00 00 DE AD BE EF"), "{diagnostic}");
    assert!(diagnostic.contains("decoder panicked"), "{diagnostic}");
}

#[test]
fn guarded_reader_preserves_header_cipher_state_across_valid_frames() {
    let (mut enc, mut dec) = ends();
    let wire = wire_of(&mut enc, &[(0x004D, &[]), (0x004F, &[])]);
    let mut log = FrameLog::new("TEST");
    let got = drain(&mut Scripted::new(wire, VecDeque::new()), &mut dec, &mut log, 2);
    assert!(matches!(got[0], WorldSmsg::SMSG_LOGOUT_COMPLETE));
    assert!(matches!(got[1], WorldSmsg::SMSG_LOGOUT_CANCEL_ACK));
}

fn played() -> Vec<u8> {
    let mut body = 1234u32.to_le_bytes().to_vec();
    body.extend_from_slice(&99u32.to_le_bytes());
    body
}

#[test]
fn resumable_read_survives_adversarial_fragmentation_and_matches_the_unfragmented_decode() {
    let (mut enc, dec) = ends();
    let wire = wire_of(&mut enc, &[(0x004D, &[]), (0x01CD, &played()), (0x004F, &[])]);
    let baseline = drain(
        &mut Scripted::new(wire.clone(), VecDeque::new()),
        &mut dec.copy(),
        &mut FrameLog::new("BASELINE"),
        3,
    );
    let script = VecDeque::from([
        ReadStep::Bytes(1),
        ReadStep::Timeout,
        ReadStep::Bytes(1),
        ReadStep::Bytes(2),
        ReadStep::Bytes(1),
        ReadStep::Bytes(1),
        ReadStep::Timeout,
        ReadStep::Bytes(2),
        ReadStep::Bytes(3),
        ReadStep::Timeout,
        ReadStep::Bytes(2),
        ReadStep::Timeout,
        ReadStep::Bytes(3),
    ]);
    let adversarial = drain(
        &mut Scripted::new(wire, script),
        &mut dec.copy(),
        &mut FrameLog::new("ADVERSARIAL"),
        3,
    );
    assert_eq!(baseline.len(), 3);
    assert_eq!(baseline, adversarial);
    assert!(matches!(baseline[0], WorldSmsg::SMSG_LOGOUT_COMPLETE));
    assert!(matches!(baseline[2], WorldSmsg::SMSG_LOGOUT_CANCEL_ACK));
    match &baseline[1] {
        WorldSmsg::SMSG_PLAYED_TIME(p) => {
            assert_eq!(p.total_played_time, 1234);
            assert_eq!(p.level_played_time, 99);
        }
        other => panic!("{other:?}"),
    }
}

#[test]
fn resumable_read_survives_single_byte_dribbles_with_no_timeouts() {
    let (mut enc, dec) = ends();
    let wire = wire_of(&mut enc, &[(0x004D, &[]), (0x01CD, &played()), (0x004F, &[])]);
    let baseline = drain(
        &mut Scripted::new(wire.clone(), VecDeque::new()),
        &mut dec.copy(),
        &mut FrameLog::new("BASELINE-DRIBBLE"),
        3,
    );
    let script: VecDeque<ReadStep> = (0..wire.len()).map(|_| ReadStep::Bytes(1)).collect();
    let dribbled = drain(
        &mut Scripted::new(wire, script),
        &mut dec.copy(),
        &mut FrameLog::new("DRIBBLE"),
        3,
    );
    assert_eq!(baseline, dribbled);
}

#[test]
fn a_dump_holds_the_preceding_frames_and_the_failing_one() {
    let label = "CRASHTEST-basic";
    let (mut enc, mut dec) = ends();
    let wire = wire_of(
        &mut enc,
        &[(0x004D, &[]), (0x004F, &[]), (SMSG_COMPRESSED_MOVES_OPCODE, &corrupt())],
    );
    let mut log = FrameLog::new(label);
    let mut r = Scripted::new(wire, VecDeque::new());
    drain(&mut r, &mut dec, &mut log, 2);
    let frame = next_frame(&mut r, &mut dec, &mut log).ok().unwrap();
    let fault = decoder_fault(&frame);
    let said = fault.message();
    let text = match Receiving::new().failed(WireError::Unsafe(fault)) {
        Recovery::Stop { error, dump, shutdown } => {
            assert!(is_unsafe_server_frame(&error));
            assert!(dump && shutdown);
            log.dump(&said)
        }
        Recovery::Skip => panic!("an unsafe frame ends the session"),
    };
    assert!(text.contains(&format!("session: {label}")), "{text}");
    assert!(text.contains("last 2 decoded frames"), "{text}");
    assert!(
        text.contains("opcode=0x004D declared_body_len=0 actual_body_len=0"),
        "{text}"
    );
    assert!(
        text.contains("opcode=0x004F declared_body_len=0 actual_body_len=0"),
        "{text}"
    );
    assert!(!text.contains("MISMATCH"), "{text}");
    assert!(text.contains("failing frame opcode: 0x02FB"), "{text}");
    assert!(text.contains("failing body[0..8]: 20 00 00 00 DE AD BE EF"), "{text}");
    assert!(text.contains("decoder panicked"), "{text}");
}

#[test]
fn the_ring_holds_the_last_frames_only() {
    let frames: Vec<(u16, &[u8])> = vec![(0x004D, &[]); 40];
    let (mut enc, mut dec) = ends();
    let wire = wire_of(&mut enc, &frames);
    let mut log = FrameLog::new("CRASHTEST-ring-cap");
    drain(&mut Scripted::new(wire, VecDeque::new()), &mut dec, &mut log, 40);
    let text = log.dump("x");
    assert!(text.contains("last 32 decoded frames"), "{text}");
    assert_eq!(text.matches("opcode=0x004D").count(), 32);
}

#[test]
fn a_header_that_is_too_short_is_refused() {
    let (mut enc, mut dec) = ends();
    let wire = enc.encrypt_server_header(1, 0x004D).to_vec();
    let mut log = FrameLog::new("TEST");
    match next_frame(&mut Scripted::new(wire, VecDeque::new()), &mut dec, &mut log) {
        Ok(_) => panic!("accepted"),
        Err(fault) => assert_eq!(fault.opcode, 0x004D),
    }
}

#[test]
fn a_closed_connection_stops_without_a_dump() {
    for _ in 0..10 {
        let e = WireError::Other("Connection Closed by the peer".into());
        match Receiving::new().failed(e) {
            Recovery::Stop { error, dump, .. } => {
                assert!(!is_unsafe_server_frame(&error));
                assert!(!dump);
            }
            Recovery::Skip => panic!("a closed connection must not be skipped"),
        }
    }
}

#[test]
fn undecodable_frames_are_skipped_until_there_are_too_many() {
    let mut r = Receiving::new();
    let mut skipped = 0;
    loop {
        match r.failed(WireError::Other("unexpected opcode".into())) {
            Recovery::Skip => skipped += 1,
            Recovery::Stop { dump, .. } => {
                assert!(dump);
                break;
            }
        }
    }
    assert_eq!(skipped, 64);
}

#[test]
fn a_timeout_is_told_by_its_words() {
    let stopped = Receiving::new().failed(WireError::Other("operation WOULD BLOCK".into()));
    match stopped {
        Recovery::Stop { error, dump, .. } => assert!(is_read_timeout(&error) && !dump),
        Recovery::Skip => panic!("a quiet socket is no frame to skip"),
    }
    assert!(is_read_timeout(&WireError::Other("socket read timeout".into())));
    assert!(!is_read_timeout(&WireError::Other("connection reset".into())));
}

#[test]
fn labels_name_no_path() {
    assert_eq!(sanitize_label("A/b c.d-9_"), "A_b_c_d-9_");
}

#[test]
fn a_session_greets_with_the_account_as_given() {
    let opened = open_session("tester", [3; 40], 9).ok().unwrap();
    assert_eq!(opened.greeting.build, 5875);
    assert_eq!(opened.greeting.server_id, 1);
    assert_eq!(opened.greeting.username, "tester");
    assert!(opened.greeting.client_proof.iter().any(|b| *b != 0));
    assert!(open_session("", [3; 40], 9).is_err());
    assert!(open_session("seventeen-letters", [3; 40], 9).is_err());
    assert!(open_session("ünicode", [3; 40], 9).is_err());
}

#[test]
fn raw_frames_are_sealed_in_step_with_the_server() {
    let mut opened = open_session("TEST", [7; 40], 1).ok().unwrap();
    let mut server = open_session("TEST", [7; 40], 2).ok().unwrap();
    for body in [vec![1u8, 2, 3], vec![], vec![9; 300]] {
        let frame = session::raw_frame(&mut opened.enc, 0x0095, &body);
        assert_eq!(frame.len(), 6 + body.len());
        assert_eq!(&frame[6..], &body[..]);
    }
    let sealed = session::raw_frame(&mut opened.enc, 0x0095, &vec![]);
    assert_ne!(&sealed[..6], &[0, 4, 0x95, 0, 0, 0]);
    let (mut enc, _) = ends();
    let raw = enc.encrypt_server_header(10, 0x01CD);
    assert_ne!(raw, [0, 10, 0xCD, 0x01]);
    let mut log = FrameLog::new("raw");
    assert!(log.accept_raw(&mut server.dec, &read(&raw)).ok().unwrap().is_none());
    assert_eq!(log.wanted(), 8);
    let frame = log.accept_raw(&mut server.dec, &read(&[7; 8])).ok().unwrap().unwrap();
    assert_eq!((frame.opcode, frame.body), (0x01CD, vec![7; 8]));
}

#[test]
fn both_readers_may_take_turns_in_the_middle_of_a_frame() {
    let (mut enc, mut dec) = ends();
    let wire = wire_of(&mut enc, &[(0x01CD, &[1, 2, 3, 4, 5, 6, 7, 8]), (0x004D, &[]), (0x0096, &[9])]);
    let mut log = FrameLog::new("turns");
    assert!(matches!(log.accept(&mut dec, &read(&wire[..2])), Ok(Progress::More)));
    assert_eq!(log.wanted(), 2);
    assert!(matches!(log.accept_raw(&mut dec, &read(&wire[2..4])), Ok(None)));
    assert!(matches!(log.accept(&mut dec, &read(&wire[4..7])), Ok(Progress::More)));
    assert_eq!(log.wanted(), 5);
    let raw = log.accept_raw(&mut dec, &read(&wire[7..12])).ok().unwrap().unwrap();
    assert_eq!((raw.opcode, raw.body), (0x01CD, vec![1, 2, 3, 4, 5, 6, 7, 8]));
    let empty = log.accept_raw(&mut dec, &read(&wire[12..16])).ok().unwrap().unwrap();
    assert_eq!((empty.opcode, empty.body), (0x004D, vec![]));
    assert!(matches!(log.accept_raw(&mut dec, &read(&wire[16..20])), Ok(None)));
    match log.accept(&mut dec, &read(&wire[20..])) {
        Ok(Progress::Whole(frame)) => assert_eq!((frame.opcode, frame.body), (0x0096, vec![9])),
        _ => panic!("the frame is complete"),
    }
}

fn read(bytes: &[u8]) -> Delivery {
    Delivery::Bytes(bytes.to_vec())
}

#[test]
fn a_read_that_fails_keeps_what_was_delivered() {
    let mut acc = vec![1u8];
    assert!(fill::fill(&mut acc, 4, &read(&[2, 3])).is_none());
    assert_eq!(acc, [1, 2, 3]);
    let failed = fill::fill(&mut acc, 4, &Delivery::Failed("timed out".to_string())).unwrap();
    assert_eq!(failed.message("world frame header"), "world frame header: timed out");
    let closed = fill::fill(&mut acc, 4, &read(&[])).unwrap();
    assert!(matches!(closed, FillFault::UnexpectedEof));
    assert_eq!(closed.message("world frame payload"), "world frame payload: connection closed mid-frame");
    assert_eq!(acc, [1, 2, 3]);
    assert!(fill::fill(&mut acc, 4, &read(&[4])).is_none());
    assert_eq!(acc, [1, 2, 3, 4]);
    let (mut enc, mut dec) = ends();
    let wire = wire_of(&mut enc, &[(0x01CD, &[1, 2, 3])]);
    let mut log = FrameLog::new("broken");
    assert_eq!((log.wanted(), log.phase()), (4, "world frame header"));
    assert!(matches!(log.accept(&mut dec, &read(&wire[..3])), Ok(Progress::More)));
    assert!(matches!(log.accept(&mut dec, &read(&[])), Err(FillFault::UnexpectedEof)));
    assert_eq!(log.wanted(), 1);
    assert!(matches!(log.accept(&mut dec, &read(&wire[3..4])), Ok(Progress::More)));
    assert!(log.accept_raw(&mut dec, &Delivery::Failed("gone".to_string())).is_err());
    assert_eq!((log.wanted(), log.phase()), (3, "world frame payload"));
    match log.accept(&mut dec, &read(&wire[4..])) {
        Ok(Progress::Whole(frame)) => assert_eq!(frame.body, vec![1, 2, 3]),
        _ => panic!("the frame is complete"),
    }
}

#[test]
fn the_queue_lifts_the_timeout_once() {
    let mut a = Admission::new();
    assert_eq!(a.answer(AuthReply::WaitQueue(5)), AdmissionStep::Wait { lift_timeout: true });
    assert_eq!(a.answer(AuthReply::WaitQueue(3)), AdmissionStep::Wait { lift_timeout: false });
    assert_eq!(a.answer(AuthReply::Accepted), AdmissionStep::Admitted { restore_timeout: true });
    assert_eq!(a.positions, vec![5, 3]);
    let mut b = Admission::new();
    assert_eq!(b.answer(AuthReply::Accepted), AdmissionStep::Admitted { restore_timeout: false });
    assert_eq!(Admission::new().answer(AuthReply::Rejected), AdmissionStep::Rejected);
    assert_eq!(Admission::new().answer(AuthReply::OtherMessage), AdmissionStep::Unexpected);
}

use cymru::adapters::{waypoint_check, WaypointCheck};
use cymru::broker::{Broker, Event, Request};
use cymru::cbor::canonical::encode_canonical;
use cymru::cbor::parse::decode;
use cymru::cbor::Cbor;
use cymru::crcp::{
    decode_wire, encode_wire, fragment_unit, preimage, MsgType, Reassembler, CRCP_VERSION,
    MAX_CRCP_FRAGMENT,
};
use cymru::fec::{self, FecError, FecProfile};
use cymru::frame::{Frame, BROADCAST};
use cymru::kiss::{self, KissError, FEND, FESC};
use cymru::queue::{Priority, TxQueue};
use cymru::robot::{RobotBroker, RobotVerdict};

fn map(pairs: Vec<(Cbor, Cbor)>) -> Cbor {
    Cbor::Mapping(pairs)
}

#[test]
fn escaped_frame_holds_fend_only_at_its_ends() {
    let p = [FEND, FEND, 0x10, FESC, FEND];
    let enc = kiss::encode(&p);
    assert_eq!(enc.len(), 2 + 2 * 4 + 1);
    assert!(enc[1..enc.len() - 1].iter().all(|&b| b != FEND));
}

#[test]
fn frame_after_noise_and_fend_run_reports_resume_index() {
    let mut stream = vec![0x01, 0x02, 0x03];
    stream.extend_from_slice(&[FEND, FEND]);
    let frame = kiss::encode(&[0xAA, FESC]);
    stream.extend_from_slice(&frame);
    stream.extend_from_slice(&[0x77, 0x78]);
    let (p, next) = kiss::decode_first(&stream).unwrap();
    assert_eq!(p, vec![0xAA, FESC]);
    assert_eq!(next, 3 + 2 + frame.len());
}

#[test]
fn unterminated_escape_is_incomplete() {
    assert_eq!(kiss::decode(&[FEND, 0x05, FESC]), Err(KissError::Incomplete));
}

#[test]
fn map_encoding_ignores_pair_order() {
    let a = map(vec![
        (Cbor::text("bb"), Cbor::U(2)),
        (Cbor::U(1), Cbor::Null),
        (Cbor::text("a"), Cbor::Bool(true)),
    ]);
    let b = map(vec![
        (Cbor::text("a"), Cbor::Bool(true)),
        (Cbor::text("bb"), Cbor::U(2)),
        (Cbor::U(1), Cbor::Null),
    ]);
    let enc = encode_canonical(&a);
    assert_eq!(enc, encode_canonical(&b));
    // Keys by their encoded bytes: 0x01 < 0x61 'a' < 0x62 'b' 'b'.
    assert_eq!(enc, vec![0xa3, 0x01, 0xf6, 0x61, 0x61, 0xf5, 0x62, 0x62, 0x62, 0x02]);
}

#[test]
fn duplicate_keys_keep_their_order() {
    let a = map(vec![(Cbor::text("k"), Cbor::U(1)), (Cbor::text("k"), Cbor::U(2))]);
    let b = map(vec![(Cbor::text("k"), Cbor::U(2)), (Cbor::text("k"), Cbor::U(1))]);
    assert_ne!(encode_canonical(&a), encode_canonical(&b));
}

#[test]
fn decoding_normalizes_non_negative_signed_integers() {
    let bytes = encode_canonical(&Cbor::I(5));
    assert_eq!(bytes, vec![0x05]);
    assert_eq!(decode(&bytes).unwrap(), (Cbor::U(5), 1));
    assert_eq!(encode_canonical(&Cbor::I(-1)), vec![0x20]);
    assert_eq!(decode(&[0x20]).unwrap(), (Cbor::I(-1), 1));
}

#[test]
fn decode_errors_name_their_cause() {
    assert_eq!(decode(&[]), Err("eof head".to_string()));
    assert_eq!(decode(&[0x18]), Err("eof u8".to_string()));
    assert_eq!(decode(&[0x43, 1, 2]), Err("eof bytes".to_string()));
    assert_eq!(decode(&[0xf7]), Err("unsupported simple".to_string()));
    assert_eq!(decode(&[0x1c]), Err("bad additional info".to_string()));
    assert_eq!(decode(&[0x61, 0xff]), Err("utf8".to_string()));
}

#[test]
fn signature_anywhere_is_left_out_of_the_preimage() {
    let with = map(vec![
        (Cbor::text("a"), Cbor::U(1)),
        (Cbor::text("signature"), Cbor::Bytes(vec![5u8; 64])),
        (Cbor::text("b"), Cbor::U(2)),
    ]);
    let without = map(vec![(Cbor::text("a"), Cbor::U(1)), (Cbor::text("b"), Cbor::U(2))]);
    assert_eq!(preimage(MsgType::EStop, &with), preimage(MsgType::EStop, &without));
}

#[test]
fn preimage_differs_by_kind_and_by_added_field() {
    let body = map(vec![(Cbor::text("a"), Cbor::U(1))]);
    let m = preimage(MsgType::Manifest, &body);
    let e = preimage(MsgType::EStop, &body);
    assert_eq!(m[5], 0);
    assert_eq!(e[5], 3);
    assert_ne!(m, e);
    let tampered = map(vec![(Cbor::text("a"), Cbor::U(1)), (Cbor::text("x"), Cbor::Null)]);
    assert_ne!(preimage(MsgType::Task, &body), preimage(MsgType::Task, &tampered));
}

#[test]
fn wire_unit_decodes_to_canonical_body() {
    let body = map(vec![(Cbor::text("n"), Cbor::I(7))]);
    let unit = encode_wire(MsgType::EStop, &body);
    assert_eq!(unit[0], 0x13);
    let (hdr, decoded) = decode_wire(&unit).unwrap();
    assert_eq!(hdr.version, CRCP_VERSION);
    assert!(!hdr.frag);
    assert_eq!(hdr.msg_type, MsgType::EStop);
    assert_eq!(decoded, map(vec![(Cbor::text("n"), Cbor::U(7))]));
}

#[test]
fn wire_errors() {
    assert_eq!(decode_wire(&[]), Err("empty".to_string()));
    assert_eq!(decode_wire(&[0x19, 0x00]), Err("fragmented unit: use Reassembler".to_string()));
    assert_eq!(decode_wire(&[0x11]), Err("eof head".to_string()));
}

#[test]
fn fragments_in_shuffled_order_reassemble() {
    let big = map(vec![(Cbor::text("blob"), Cbor::Bytes((0..250u8).collect()))]);
    let frags = fragment_unit(MsgType::Telemetry, &big, 70, 9);
    assert_eq!(frags.len(), 4);
    assert_eq!(frags[0][0], 0x1a);
    assert_eq!(&frags[2][1..4], &[9, 2, 4]);
    let mut re = Reassembler::new();
    for &i in &[2usize, 0, 3] {
        assert_eq!(re.push(&frags[i]), Ok(None));
    }
    let (mt, body) = re.push(&frags[1]).unwrap().unwrap();
    assert_eq!(mt, MsgType::Telemetry);
    assert_eq!(body, big);
}

#[test]
fn plain_unit_passes_straight_through_reassembler() {
    let small = map(vec![(Cbor::text("ok"), Cbor::Bool(true))]);
    let units = fragment_unit(MsgType::Task, &small, MAX_CRCP_FRAGMENT, 3);
    assert_eq!(units.len(), 1);
    assert_eq!(units[0], encode_wire(MsgType::Task, &small));
    let mut re = Reassembler::new();
    assert_eq!(re.push(&units[0]), Ok(Some((MsgType::Task, small))));
}

#[test]
fn reassembler_errors() {
    let mut re = Reassembler::new();
    assert_eq!(re.push(&[]), Err("empty frag".to_string()));
    assert_eq!(re.push(&[0x19]), Err("eof frag_id".to_string()));
    assert_eq!(re.push(&[0x19, 1]), Err("eof index".to_string()));
    assert_eq!(re.push(&[0x19, 1, 0]), Err("eof total".to_string()));
}

#[test]
fn repeated_fragment_is_kept_once() {
    let big = map(vec![(Cbor::text("blob"), Cbor::Bytes(vec![1u8; 30]))]);
    let frags = fragment_unit(MsgType::Task, &big, 20, 5);
    assert_eq!(frags.len(), 2);
    let mut re = Reassembler::new();
    assert_eq!(re.push(&frags[0]), Ok(None));
    assert_eq!(re.push(&frags[0]), Ok(None));
    assert_eq!(re.push(&frags[1]), Ok(Some((MsgType::Task, big))));
}

fn unit_with_signature(t: MsgType, sig: Cbor) -> Vec<u8> {
    encode_wire(t, &map(vec![(Cbor::text("k"), Cbor::U(1)), (Cbor::text("signature"), sig)]))
}

#[test]
fn informational_units_never_actuate() {
    let b = RobotBroker::new(cymru::ed25519::SigningKey::from_bytes(&[3u8; 32]).verifying_key().to_bytes()).unwrap();
    let bogus = Cbor::Bytes(vec![0u8; 64]);
    assert_eq!(
        b.handle_unit(&unit_with_signature(MsgType::Manifest, bogus.clone())),
        RobotVerdict::Rejected { reason: "manifest bad signature".into() }
    );
    assert_eq!(
        b.handle_unit(&unit_with_signature(MsgType::Telemetry, bogus)),
        RobotVerdict::Rejected { reason: "telemetry bad signature".into() }
    );
    let unsigned = encode_wire(MsgType::Telemetry, &map(vec![(Cbor::text("k"), Cbor::U(1))]));
    assert_eq!(b.handle_unit(&unsigned), RobotVerdict::Info { msg_type: "telemetry".into() });
    let sk = cymru::ed25519::SigningKey::from_bytes(&[3u8; 32]);
    let mut body = map(vec![(Cbor::text("k"), Cbor::U(1))]);
    let s = cymru::crcp::sign(&sk, MsgType::Manifest, &body);
    if let Cbor::Mapping(p) = &mut body {
        p.push((Cbor::text("signature"), Cbor::Bytes(s.to_vec())));
    }
    assert_eq!(
        b.handle_unit(&encode_wire(MsgType::Manifest, &body)),
        RobotVerdict::Info { msg_type: "manifest".into() }
    );
    assert_eq!(
        b.handle_unit(&unit_with_signature(MsgType::Manifest, Cbor::Bytes(vec![0u8; 3]))),
        RobotVerdict::Rejected { reason: "signature must be 64-byte bstr".into() }
    );
}

#[test]
fn robot_broker_rejects_undecodable_units_and_bad_keys() {
    let b = RobotBroker::new(cymru::ed25519::SigningKey::from_bytes(&[3u8; 32]).verifying_key().to_bytes()).unwrap();
    assert_eq!(b.handle_unit(&[]), RobotVerdict::Rejected { reason: "decode: empty".into() });
    assert_eq!(
        b.handle_unit(&unit_with_signature(MsgType::EStop, Cbor::Bytes(vec![1u8; 64]))),
        RobotVerdict::Rejected { reason: "estop bad signature".into() }
    );
    // y = 2 is not the y-coordinate of any curve point.
    let mut bad = [0u8; 32];
    bad[0] = 2;
    match RobotBroker::new(bad) {
        Err(e) => assert!(e.starts_with("bad master key: ")),
        Ok(_) => panic!("accepted an invalid key"),
    }
}

#[test]
fn subscription_ids_are_fresh_and_unsubscribe_stops_delivery() {
    let mut b = Broker::new(true);
    assert_eq!(b.handle(Request::Subscribe { channel: "mesh".into() }), vec![Event::Subscribed { sub_id: 1 }]);
    assert_eq!(b.handle(Request::Subscribe { channel: "".into() }), vec![Event::Subscribed { sub_id: 2 }]);
    assert_eq!(b.handle(Request::Subscribe { channel: "other".into() }), vec![Event::Subscribed { sub_id: 3 }]);
    let send = || Request::Send { recipient: "broadcast".into(), channel: "mesh".into(), payload: vec![4] };
    let delivered = |sub_id: u64| Event::MessageReceived {
        sub_id,
        sender: "dev-loopback".into(),
        channel: "mesh".into(),
        payload: vec![4],
    };
    assert_eq!(b.handle(send()), vec![delivered(1), delivered(2)]);
    assert_eq!(b.handle(Request::Unsubscribe { sub_id: 1 }), vec![Event::Unsubscribed { sub_id: 1 }]);
    assert_eq!(b.handle(send()), vec![delivered(2)]);
    assert_eq!(b.handle(Request::Subscribe { channel: "mesh".into() }), vec![Event::Subscribed { sub_id: 4 }]);
    assert_eq!(
        b.handle(Request::GetCarriers),
        vec![Event::Carriers { lora_868: true, lora_915: false, hf_codec2: false }]
    );
}

fn tagged(tag: u8) -> Frame {
    Frame::new(0x01, [tag; 16], BROADCAST, [0; 4], vec![tag])
}

#[test]
fn every_estop_leaves_before_any_other_class() {
    let mut q = TxQueue::new();
    q.push(Priority::Background, tagged(1));
    q.push(Priority::EStop, tagged(2));
    q.push(Priority::Control, tagged(3));
    q.push(Priority::EStop, tagged(4));
    q.push(Priority::Control, tagged(5));
    assert_eq!(q.len(), 5);
    let order: Vec<u8> = (0..5).map(|_| q.pop().unwrap().sender[0]).collect();
    assert_eq!(order, vec![2, 4, 3, 5, 1]);
    assert!(q.is_empty());
}

#[test]
fn fec_rejects_oversized_payload_and_bad_length() {
    let too_big = vec![0u8; 65536];
    assert_eq!(fec::encode(FecProfile::Data, &too_big), Err(FecError::TooLarge));
    // Two blocks carry 300 bytes; the first block alone announces more than it holds.
    let enc = fec::encode(FecProfile::Data, &vec![7u8; 300]).unwrap();
    assert_eq!(enc.len(), 2 * 255);
    assert_eq!(fec::decode(FecProfile::Data, &enc[..255]), Err(FecError::BadLength));
    assert_eq!(fec::decode(FecProfile::Data, &enc).unwrap(), vec![7u8; 300]);
}

#[test]
fn fec_frame_round_trip_and_errors() {
    let f = Frame::new(0x02, [1; 16], [2; 16], [0x10, 0, 0, 1], vec![5u8; 300]);
    let bytes = f.encode_fec();
    assert_eq!((bytes.len() - 4) % 255, 0);
    assert_eq!(Frame::decode_fec(&bytes).unwrap(), f);
    let voice = Frame::new(0x03, [1; 16], [2; 16], [0; 4], vec![6u8; 40]);
    assert_eq!(Frame::decode_fec(&voice.encode_fec()).unwrap(), voice);
    assert_eq!(Frame::decode_fec(&[0xC9, 0xB0, 0x01]), Err("frame too short".to_string()));
    assert_eq!(Frame::decode_fec(&[0xC9, 0xB0, 0x00, 0x10, 1]), Err("truncated fec stream".to_string()));
    assert_eq!(Frame::decode(&[0xC9, 0xB0, 0x00, 0x10, 1]), Err("truncated body".to_string()));
    assert_eq!(Frame::decode(&[0xC9, 0xB0, 0x00, 0x01, 1]), Err("body too short for header".to_string()));
    assert_eq!(Frame::decode(&[0xC9, 0x00, 0x00, 0x00]), Err("bad magic".to_string()));
}

#[test]
fn non_array_flags_do_not_prove_a_task_non_physical() {
    let sk = cymru::ed25519::SigningKey::from_bytes(&[4u8; 32]);
    let b = RobotBroker::new(sk.verifying_key().to_bytes()).unwrap();
    let mut body = map(vec![
        (Cbor::text("agent_id"), Cbor::text("a1")),
        (Cbor::text("capability_flags"), Cbor::text("light")),
    ]);
    let s = cymru::crcp::sign(&sk, MsgType::Task, &body);
    if let Cbor::Mapping(p) = &mut body {
        p.push((Cbor::text("signature"), Cbor::Bytes(s.to_vec())));
    }
    assert_eq!(
        b.handle_unit(&encode_wire(MsgType::Task, &body)),
        RobotVerdict::Rejected { reason: "deadman_ms required for physical agent (safety)".into() }
    );
}

#[test]
fn negative_integers_beyond_i64_are_refused() {
    let mut b = vec![0x3b];
    b.extend_from_slice(&[0xff; 8]);
    assert_eq!(decode(&b), Err("negative integer out of range".to_string()));
    let mut c = vec![0x3b, 0x80];
    c.extend_from_slice(&[0; 7]);
    assert_eq!(decode(&c), Err("negative integer out of range".to_string()));
    let mut d = vec![0x3b, 0x7f];
    d.extend_from_slice(&[0xff; 7]);
    assert_eq!(decode(&d), Ok((Cbor::I(i64::MIN), 9)));
}

#[test]
fn interleaved_units_reassemble_by_fragment_id() {
    let a = map(vec![(Cbor::text("a"), Cbor::Bytes(vec![1u8; 90]))]);
    let b = map(vec![(Cbor::text("b"), Cbor::Bytes(vec![2u8; 130]))]);
    let fa = fragment_unit(MsgType::Task, &a, 40, 1);
    let fb = fragment_unit(MsgType::Telemetry, &b, 40, 2);
    assert_eq!(fa.len(), 3);
    assert_eq!(fb.len(), 4);
    let mut re = Reassembler::new();
    assert_eq!(re.push(&fb[3]), Ok(None));
    assert_eq!(re.push(&fa[1]), Ok(None));
    assert_eq!(re.push(&fb[0]), Ok(None));
    assert_eq!(re.push(&fa[0]), Ok(None));
    assert_eq!(re.push(&fb[2]), Ok(None));
    assert_eq!(re.push(&fa[2]), Ok(Some((MsgType::Task, a.clone()))));
    assert_eq!(re.push(&fb[1]), Ok(Some((MsgType::Telemetry, b))));
    // Delivered parts are dropped: the same unit can be reassembled again.
    for f in &fa[..2] {
        assert_eq!(re.push(f), Ok(None));
    }
    assert_eq!(re.push(&fa[2]), Ok(Some((MsgType::Task, a))));
}

#[test]
fn waypoint_ranges_in_micro_degrees() {
    assert_eq!(waypoint_check(90_000_000, -180_000_000), WaypointCheck::InRange);
    assert_eq!(waypoint_check(90_000_001, 0), WaypointCheck::LatOutOfRange);
    assert_eq!(waypoint_check(-90_000_001, 999_999_999), WaypointCheck::LatOutOfRange);
    assert_eq!(waypoint_check(0, 180_000_001), WaypointCheck::LonOutOfRange);
}

#[test]
fn fec_stream_length_is_whole_blocks_of_the_framed_payload() {
    assert_eq!(fec::encode(FecProfile::Data, &[0u8; 100]).unwrap().len(), 255);
    assert_eq!(fec::encode(FecProfile::Data, &[0u8; 221]).unwrap().len(), 255);
    assert_eq!(fec::encode(FecProfile::Data, &[0u8; 222]).unwrap().len(), 2 * 255);
    assert_eq!(fec::encode(FecProfile::Voice, &[0u8; 500]).unwrap().len(), 3 * 255);
}

#[test]
fn voice_frame_with_several_blocks_round_trips_with_errors() {
    let f = Frame::new(0x03, [7; 16], [8; 16], [0x30, 0, 0, 0], (0..400).map(|i| (i % 251) as u8).collect());
    let mut bytes = f.encode_fec();
    assert_eq!(bytes.len(), 4 + 3 * 255);
    for blk in 0..3 {
        for i in 0..20 {
            bytes[4 + blk * 255 + i * 12] ^= 0x55;
        }
    }
    assert_eq!(Frame::decode_fec(&bytes).unwrap(), f);
}

#[test]
fn unsubscribed_id_stays_silent_through_later_requests() {
    let mut b = Broker::new(true);
    assert_eq!(b.handle(Request::Subscribe { channel: "".into() }), vec![Event::Subscribed { sub_id: 1 }]);
    assert_eq!(b.handle(Request::Unsubscribe { sub_id: 1 }), vec![Event::Unsubscribed { sub_id: 1 }]);
    assert_eq!(b.handle(Request::Unsubscribe { sub_id: 1 }), vec![Event::Unsubscribed { sub_id: 1 }]);
    assert_eq!(b.handle(Request::Subscribe { channel: "".into() }), vec![Event::Subscribed { sub_id: 2 }]);
    let ev = b.handle(Request::Send { recipient: "x".into(), channel: "c".into(), payload: vec![1] });
    assert_eq!(
        ev,
        vec![Event::MessageReceived { sub_id: 2, sender: "dev-loopback".into(), channel: "c".into(), payload: vec![1] }]
    );
}

#[test]
fn single_block_voice_frame_round_trips() {
    let f = Frame::new(0x03, [1; 16], BROADCAST, [0x30, 0, 0, 0], vec![0xC0; 100]);
    let bytes = f.encode_fec();
    assert_eq!(bytes.len(), 4 + 255);
    assert_eq!(Frame::decode_fec(&bytes).unwrap(), f);
}

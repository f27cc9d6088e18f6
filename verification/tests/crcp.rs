use cymru::cbor::Cbor;
use cymru::cbor::canonical::encode_canonical;
use cymru::cbor::parse::decode;
use cymru::crcp::{
    decode_wire, encode_wire, estop_fits_single_packet, fragment_unit, preimage, sign, verify,
    MsgType, Reassembler, CRCP_VERSION, DOMAIN_TAG, MAX_CRCP_FRAGMENT,
};
use cymru::ed25519::SigningKey;

fn sample_task(sig: Option<Vec<u8>>) -> Cbor {
    let mut pairs = vec![
        (Cbor::text("protocol"), Cbor::text("crcp/1")),
        (Cbor::text("task_id"), Cbor::Bytes(vec![1u8; 16])),
        (Cbor::text("agent_id"), Cbor::Bytes(vec![2u8; 16])),
        (Cbor::text("intent"), Cbor::text("physical.kitchen.fetch")),
        (Cbor::text("deadman_ms"), Cbor::U(3000)),
        (Cbor::text("idempotency_key"), Cbor::text("abc12345")),
        (Cbor::text("issued_at"), Cbor::Tag(1, Box::new(Cbor::U(1_900_000_000)))),
    ];
    if let Some(s) = sig {
        pairs.push((Cbor::text("signature"), Cbor::Bytes(s)));
    }
    Cbor::Mapping(pairs)
}

#[test]
fn canonical_is_order_independent() {
    let a = Cbor::Mapping(vec![
        (Cbor::text("b"), Cbor::U(2)),
        (Cbor::text("a"), Cbor::U(1)),
    ]);
    let b = Cbor::Mapping(vec![
        (Cbor::text("a"), Cbor::U(1)),
        (Cbor::text("b"), Cbor::U(2)),
    ]);
    assert_eq!(encode_canonical(&a), encode_canonical(&b));
}

#[test]
fn shortest_int_form() {
    assert_eq!(encode_canonical(&Cbor::U(10)), vec![0x0a]);
    assert_eq!(encode_canonical(&Cbor::U(200)), vec![0x18, 0xc8]);
    assert_eq!(encode_canonical(&Cbor::U(300)), vec![0x19, 0x01, 0x2c]);
}

#[test]
fn roundtrip_decode() {
    let v = sample_task(Some(vec![9u8; 64]));
    let bytes = encode_canonical(&v);
    let (dec, used) = decode(&bytes).unwrap();
    assert_eq!(used, bytes.len());
    // Re-encoding the decoded value is canonical and stable.
    assert_eq!(encode_canonical(&dec), bytes);
}

#[test]
fn preimage_excludes_signature() {
    let with = sample_task(Some(vec![7u8; 64]));
    let without = sample_task(None);
    assert_eq!(preimage(MsgType::Task, &with), preimage(MsgType::Task, &without));
}

#[test]
fn preimage_has_domain_and_selector() {
    let body = sample_task(None);
    let pi = preimage(MsgType::Task, &body);
    assert_eq!(&pi[..5], &DOMAIN_TAG[..]);
    assert_eq!(pi[5], MsgType::Task.selector());
}

#[test]
fn sign_and_verify_roundtrip() {
    let sk = SigningKey::from_bytes(&[42u8; 32]);
    let vk = sk.verifying_key();
    let body = sample_task(None);
    let sig = sign(&sk, MsgType::Task, &body);
    assert!(verify(&vk, MsgType::Task, &body, &sig));
    // The same signature verifies on a body that also carries the signature field.
    let mut on_wire = sample_task(Some(sig.to_vec()));
    assert!(verify(&vk, MsgType::Task, &on_wire, &sig));
    // Tampering with the body breaks verification.
    if let Cbor::Mapping(p) = &mut on_wire {
        p.push((Cbor::text("intent_tampered"), Cbor::Bool(true)));
    }
    assert!(!verify(&vk, MsgType::Task, &on_wire, &sig));
}

#[test]
fn wrong_type_selector_breaks_signature() {
    let sk = SigningKey::from_bytes(&[1u8; 32]);
    let vk = sk.verifying_key();
    let body = sample_task(None);
    let sig = sign(&sk, MsgType::Task, &body);
    assert!(!verify(&vk, MsgType::Manifest, &body, &sig));
}

#[test]
fn wire_header_roundtrip() {
    let body = sample_task(Some(vec![3u8; 64]));
    let unit = encode_wire(MsgType::Telemetry, &body);
    let (hdr, decoded) = decode_wire(&unit).unwrap();
    assert_eq!(hdr.version, CRCP_VERSION);
    assert!(!hdr.frag);
    assert_eq!(hdr.msg_type, MsgType::Telemetry);
    assert_eq!(encode_canonical(&decoded), encode_canonical(&body));
}

#[test]
fn fragmentation_roundtrip() {
    let big = Cbor::Mapping(vec![
        (Cbor::text("protocol"), Cbor::text("crcp/1")),
        (Cbor::text("blob"), Cbor::Bytes(vec![0xABu8; 600])),
    ]);
    let frags = fragment_unit(MsgType::Task, &big, MAX_CRCP_FRAGMENT, 77);
    assert!(frags.len() > 1, "expected multiple fragments");
    let mut re = Reassembler::new();
    let mut done = None;
    // Fed out of order to show that reordering works.
    for f in frags.iter().rev() {
        if let Some(x) = re.push(f).unwrap() {
            done = Some(x);
        }
    }
    let (mt, body) = done.expect("reassembled");
    assert_eq!(mt, MsgType::Task);
    assert_eq!(encode_canonical(&body), encode_canonical(&big));
}

#[test]
fn small_unit_not_fragmented() {
    let small = Cbor::Mapping(vec![
        (Cbor::text("protocol"), Cbor::text("crcp/1")),
        (Cbor::text("status"), Cbor::text("ok")),
    ]);
    let frags = fragment_unit(MsgType::Task, &small, MAX_CRCP_FRAGMENT, 1);
    assert_eq!(frags.len(), 1);
}

#[test]
fn estop_fits_one_packet() {
    let estop = Cbor::Mapping(vec![
        (Cbor::text("protocol"), Cbor::text("crcp/1")),
        (Cbor::text("kind"), Cbor::text("estop")),
        (Cbor::text("agent_id"), Cbor::Bytes(vec![1u8; 16])),
        (Cbor::text("reason"), Cbor::text("operator")),
        (Cbor::text("nonce"), Cbor::Bytes(vec![9u8; 16])),
        (Cbor::text("signature"), Cbor::Bytes(vec![0u8; 64])),
        (Cbor::text("ts"), Cbor::Tag(1, Box::new(Cbor::U(1_900_000_000)))),
    ]);
    assert!(estop_fits_single_packet(&estop));
}

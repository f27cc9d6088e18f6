use cymru::cbor::Cbor;
use cymru::crcp::{encode_wire, sign, MsgType};
use cymru::ed25519::SigningKey;
use cymru::robot::{RobotBroker, RobotVerdict};

fn keypair() -> (SigningKey, [u8; 32]) {
    let sk = SigningKey::from_bytes(&[7u8; 32]);
    let pk = sk.verifying_key().to_bytes();
    (sk, pk)
}

fn task(physical: bool, deadman: Option<u64>, sk: Option<&SigningKey>) -> Vec<u8> {
    let mut pairs = vec![
        (Cbor::text("protocol"), Cbor::text("crcp/1")),
        (Cbor::text("agent_id"), Cbor::text("agent-123")),
        (Cbor::text("intent"), Cbor::text("fetch")),
    ];
    if physical {
        pairs.push((
            Cbor::text("capability_flags"),
            Cbor::Array(vec![Cbor::text("physical.mobility.walk")]),
        ));
    }
    if let Some(ms) = deadman {
        pairs.push((Cbor::text("deadman_ms"), Cbor::U(ms)));
    }
    let mut body = Cbor::Mapping(pairs);
    if let Some(sk) = sk {
        let s = sign(sk, MsgType::Task, &body);
        if let Cbor::Mapping(p) = &mut body {
            p.push((Cbor::text("signature"), Cbor::Bytes(s.to_vec())));
        }
    }
    encode_wire(MsgType::Task, &body)
}

fn estop(sk: Option<&SigningKey>) -> Vec<u8> {
    let mut body = Cbor::Mapping(vec![
        (Cbor::text("protocol"), Cbor::text("crcp/1")),
        (Cbor::text("kind"), Cbor::text("estop")),
        (Cbor::text("agent_id"), Cbor::text("agent-123")),
        (Cbor::text("nonce"), Cbor::Bytes(vec![1u8; 16])),
    ]);
    if let Some(sk) = sk {
        let s = sign(sk, MsgType::EStop, &body);
        if let Cbor::Mapping(p) = &mut body {
            p.push((Cbor::text("signature"), Cbor::Bytes(s.to_vec())));
        }
    }
    encode_wire(MsgType::EStop, &body)
}

#[test]
fn signed_physical_task_with_deadman_accepted() {
    let (sk, pk) = keypair();
    let b = RobotBroker::new(pk).unwrap();
    let v = b.handle_unit(&task(true, Some(3000), Some(&sk)));
    assert_eq!(
        v,
        RobotVerdict::TaskAccepted { agent_id: "agent-123".into(), deadman_ms: 3000 }
    );
}

#[test]
fn physical_task_without_deadman_rejected() {
    let (sk, pk) = keypair();
    let b = RobotBroker::new(pk).unwrap();
    let v = b.handle_unit(&task(true, None, Some(&sk)));
    assert!(matches!(v, RobotVerdict::Rejected { .. }), "got {v:?}");
}

#[test]
fn zero_deadman_rejected() {
    let (sk, pk) = keypair();
    let b = RobotBroker::new(pk).unwrap();
    let v = b.handle_unit(&task(true, Some(0), Some(&sk)));
    assert!(matches!(v, RobotVerdict::Rejected { .. }));
}

#[test]
fn unsigned_task_rejected() {
    let (_, pk) = keypair();
    let b = RobotBroker::new(pk).unwrap();
    let v = b.handle_unit(&task(true, Some(3000), None));
    assert_eq!(v, RobotVerdict::Rejected { reason: "task unsigned".into() });
}

#[test]
fn task_signed_by_wrong_key_rejected() {
    let (_, pk) = keypair();
    let attacker = SigningKey::from_bytes(&[9u8; 32]);
    let b = RobotBroker::new(pk).unwrap();
    let v = b.handle_unit(&task(true, Some(3000), Some(&attacker)));
    assert_eq!(v, RobotVerdict::Rejected { reason: "task bad signature".into() });
}

#[test]
fn signed_estop_honored() {
    let (sk, pk) = keypair();
    let b = RobotBroker::new(pk).unwrap();
    let v = b.handle_unit(&estop(Some(&sk)));
    assert_eq!(v, RobotVerdict::EStop { agent_id: Some("agent-123".into()) });
}

#[test]
fn unsigned_estop_rejected() {
    let (_, pk) = keypair();
    let b = RobotBroker::new(pk).unwrap();
    assert!(matches!(b.handle_unit(&estop(None)), RobotVerdict::Rejected { .. }));
}

#[test]
fn unknown_agent_task_without_deadman_failsafe_rejected() {
    let (sk, pk) = keypair();
    let b = RobotBroker::new(pk).unwrap();
    let v = b.handle_unit(&task(false, None, Some(&sk)));
    assert!(matches!(v, RobotVerdict::Rejected { .. }));
}

#[test]
fn logical_only_task_without_deadman_accepted() {
    let (sk, pk) = keypair();
    let b = RobotBroker::new(pk).unwrap();
    let mut body = Cbor::Mapping(vec![
        (Cbor::text("protocol"), Cbor::text("crcp/1")),
        (Cbor::text("agent_id"), Cbor::text("agent-logic")),
        (Cbor::text("intent"), Cbor::text("summarize")),
        (
            Cbor::text("capability_flags"),
            Cbor::Array(vec![Cbor::text("light"), Cbor::text("tool")]),
        ),
    ]);
    let s = sign(&sk, MsgType::Task, &body);
    if let Cbor::Mapping(p) = &mut body {
        p.push((Cbor::text("signature"), Cbor::Bytes(s.to_vec())));
    }
    let unit = encode_wire(MsgType::Task, &body);
    assert_eq!(
        b.handle_unit(&unit),
        RobotVerdict::TaskAccepted { agent_id: "agent-logic".into(), deadman_ms: 0 }
    );
}

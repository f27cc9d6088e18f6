//! The `org.cymru.Robot` broker: accepts a CRCP payload unit only when it is
//! signed by the paired master key and, for tasks to physical agents, carries
//! a dead-man timeout.

use vstd::prelude::*;
use vstd::slice::slice_subrange;
use vstd::string::StringExecFns;
use vstd::utf8::encode_utf8;
use crate::bytes::bytes_equal;
use crate::cbor::{Cbor, CborValue, lookup};
use crate::crcp::{MsgType, decode_wire, decode_wire_spec, preimage_spec, verify};
use crate::ed25519::{VerifyingKey, ed25519_accepts, ed25519_valid_public};

verus! {

/// Outcome of feeding one CRCP payload unit to the robot broker.
#[derive(Debug, Clone, PartialEq)]
pub enum RobotVerdict {
    /// Task accepted for execution (signature valid, dead-man present when required).
    TaskAccepted { agent_id: String, deadman_ms: u64 },
    /// E-stop honoured: highest priority, must reach the actuators at once.
    EStop { agent_id: Option<String> },
    /// Manifest or telemetry accepted (informational, never actuating).
    Info { msg_type: String },
    /// Rejected, with a machine-readable reason. Never actuate on a rejection.
    Rejected { reason: String },
}

/// Mathematical value of a [`RobotVerdict`].
pub enum VerdictValue {
    TaskAccepted { agent_id: Seq<char>, deadman_ms: u64 },
    EStop { agent_id: Option<Seq<char>> },
    Info { msg_type: Seq<char> },
    Rejected { reason: Seq<char> },
}

impl View for RobotVerdict {
    type V = VerdictValue;

    open spec fn view(&self) -> VerdictValue {
        match self {
            RobotVerdict::TaskAccepted { agent_id, deadman_ms } => VerdictValue::TaskAccepted {
                agent_id: agent_id@,
                deadman_ms: *deadman_ms,
            },
            RobotVerdict::EStop { agent_id } => VerdictValue::EStop {
                agent_id: match agent_id {
                    Some(s) => Some(s@),
                    None => None,
                },
            },
            RobotVerdict::Info { msg_type } => VerdictValue::Info { msg_type: msg_type@ },
            RobotVerdict::Rejected { reason } => VerdictValue::Rejected { reason: reason@ },
        }
    }
}

/// The text of a looked-up value, if it is text.
pub open spec fn text_value(v: Option<CborValue>) -> Option<Seq<char>> {
    match v {
        Some(CborValue::Text(s)) => Some(s),
        _ => None,
    }
}

/// The number of a looked-up value, if it is an unsigned integer.
pub open spec fn u64_value(v: Option<CborValue>) -> Option<u64> {
    match v {
        Some(CborValue::U(n)) => Some(n),
        _ => None,
    }
}

/// Whether the UTF-8 bytes of `s` begin with those of `prefix` (what
/// `str::starts_with` checks).
pub open spec fn has_prefix(s: Seq<char>, prefix: Seq<char>) -> bool {
    encode_utf8(prefix).len() <= encode_utf8(s).len()
        && encode_utf8(s).take(encode_utf8(prefix).len() as int) == encode_utf8(prefix)
}

/// Whether capability flags mark a physical (actuating) agent: an array
/// holding some text flag that starts with `physical.`.
pub open spec fn is_physical(flags: CborValue) -> bool {
    match flags {
        CborValue::Array(items) => exists|i: int|
            0 <= i < items.len() && #[trigger] items[i] is Text && has_prefix(items[i]->Text_0, "physical."@),
        _ => false,
    }
}

/// The signature field of a body: absent, a 64-byte string, or malformed.
pub enum SignatureField {
    Missing,
    Present(Seq<u8>),
    Malformed,
}

/// Classification of the `signature` field of a body.
pub open spec fn signature_field(body: CborValue) -> SignatureField {
    match lookup(body, "signature"@) {
        None => SignatureField::Missing,
        Some(CborValue::Bytes(b)) => if b.len() == 64 {
            SignatureField::Present(b)
        } else {
            SignatureField::Malformed
        },
        Some(_) => SignatureField::Malformed,
    }
}

/// Whether a task must carry a dead-man timeout: unless its flags are an
/// array that proves it non-physical, it must (fail-safe); a task with no
/// flags follows the broker's default.
pub open spec fn requires_deadman(body: CborValue, physical_hint: bool) -> bool {
    match lookup(body, "capability_flags"@) {
        Some(CborValue::Array(items)) => is_physical(CborValue::Array(items)),
        Some(_) => true,
        None => physical_hint,
    }
}

/// The verdict on a task body whose signature has been checked.
pub open spec fn task_verdict(body: CborValue, physical_hint: bool) -> VerdictValue {
    let deadman = u64_value(lookup(body, "deadman_ms"@));
    if requires_deadman(body, physical_hint) && deadman is None {
        VerdictValue::Rejected { reason: "deadman_ms required for physical agent (safety)"@ }
    } else if deadman == Some(0u64) {
        VerdictValue::Rejected { reason: "deadman_ms must be > 0"@ }
    } else {
        VerdictValue::TaskAccepted {
            agent_id: match text_value(lookup(body, "agent_id"@)) {
                Some(s) => s,
                None => ""@,
            },
            deadman_ms: match deadman {
                Some(n) => n,
                None => 0,
            },
        }
    }
}

/// The verdict on a payload unit for a broker paired with `master`.
pub open spec fn verdict_spec(master: Seq<u8>, physical_hint: bool, unit: Seq<u8>) -> VerdictValue {
    match decode_wire_spec(unit) {
        Err(e) => VerdictValue::Rejected { reason: "decode: "@ + e },
        Ok((hdr, body)) => match signature_field(body) {
            SignatureField::Malformed => VerdictValue::Rejected { reason: "signature must be 64-byte bstr"@ },
            sig => match hdr.msg_type {
                MsgType::EStop => match sig {
                    SignatureField::Present(s) => if ed25519_accepts(master, preimage_spec(MsgType::EStop, body), s) {
                        VerdictValue::EStop { agent_id: text_value(lookup(body, "agent_id"@)) }
                    } else {
                        VerdictValue::Rejected { reason: "estop bad signature"@ }
                    },
                    _ => VerdictValue::Rejected { reason: "estop unsigned"@ },
                },
                MsgType::Task => match sig {
                    SignatureField::Present(s) => if ed25519_accepts(master, preimage_spec(MsgType::Task, body), s) {
                        task_verdict(body, physical_hint)
                    } else {
                        VerdictValue::Rejected { reason: "task bad signature"@ }
                    },
                    _ => VerdictValue::Rejected { reason: "task unsigned"@ },
                },
                MsgType::Manifest => match sig {
                    SignatureField::Present(s) => if ed25519_accepts(master, preimage_spec(MsgType::Manifest, body), s) {
                        VerdictValue::Info { msg_type: "manifest"@ }
                    } else {
                        VerdictValue::Rejected { reason: "manifest bad signature"@ }
                    },
                    _ => VerdictValue::Info { msg_type: "manifest"@ },
                },
                MsgType::Telemetry => match sig {
                    SignatureField::Present(s) => if ed25519_accepts(master, preimage_spec(MsgType::Telemetry, body), s) {
                        VerdictValue::Info { msg_type: "telemetry"@ }
                    } else {
                        VerdictValue::Rejected { reason: "telemetry bad signature"@ }
                    },
                    _ => VerdictValue::Info { msg_type: "telemetry"@ },
                },
            },
        },
    }
}

/// Whether `s` starts with `prefix`, comparing UTF-8 bytes.
fn starts_with(s: &str, prefix: &str) -> (b: bool)
    ensures
        b == has_prefix(s@, prefix@),
{
    let sb = s.as_bytes();
    let pb = prefix.as_bytes();
    if pb.len() > sb.len() {
        return false;
    }
    let head = slice_subrange(sb, 0, pb.len());
    bytes_equal(head, pb)
}

/// Whether capability flags mark a physical agent.
fn physical_flags(flags: &Cbor) -> (b: bool)
    ensures
        b == is_physical(flags@),
{
    if let Cbor::Array(items) = flags {
        let ghost vals = flags@->Array_0;
        let mut i: usize = 0;
        while i < items.len()
            invariant
                *flags == Cbor::Array(*items),
                vals == flags@->Array_0,
                i <= items@.len(),
                forall|k: int| 0 <= k < i ==> !(#[trigger] vals[k] is Text && has_prefix(vals[k]->Text_0, "physical."@)),
            decreases items@.len() - i,
        {
            assert(vals[i as int] == items@[i as int]@);
            if let Cbor::Text(s) = &items[i] {
                if starts_with(s.as_str(), "physical.") {
                    return true;
                }
            }
            i += 1;
        }
        false
    } else {
        false
    }
}

fn text_field<'a>(body: &'a Cbor, key: &str) -> (res: Option<&'a String>)
    ensures
        match res {
            Some(s) => text_value(lookup(body@, key@)) == Some(s@),
            None => text_value(lookup(body@, key@)) is None,
        },
{
    match body.get(key) {
        Some(Cbor::Text(s)) => Some(s),
        _ => None,
    }
}

fn u64_field(body: &Cbor, key: &str) -> (res: Option<u64>)
    ensures
        res == u64_value(lookup(body@, key@)),
{
    match body.get(key) {
        Some(Cbor::U(n)) => Some(*n),
        _ => None,
    }
}

fn reject(reason: &str) -> (v: RobotVerdict)
    ensures
        v@ == (VerdictValue::Rejected { reason: reason@ }),
{
    RobotVerdict::Rejected { reason: String::from_str(reason) }
}

/// Robot dispatch broker bound to the paired master key; refuses anything it
/// cannot attribute to that key.
pub struct RobotBroker {
    master: VerifyingKey,
    /// Whether a task with no capability flags is treated as physical (and so
    /// must carry a dead-man timeout). Always set: the fail-safe default.
    physical_hint: bool,
}

impl RobotBroker {
    /// The master public key bytes.
    pub closed spec fn master(&self) -> Seq<u8> {
        self.master.key()
    }

    /// Whether a task without capability flags must carry a dead-man timeout.
    pub closed spec fn physical_hint(&self) -> bool {
        self.physical_hint
    }

    /// Creates a broker bound to a 32-byte ed25519 master public key; fails
    /// when the bytes are not a valid public key.
    pub fn new(master_pubkey: [u8; 32]) -> (res: Result<RobotBroker, String>)
        ensures
            res is Ok <==> ed25519_valid_public(master_pubkey@),
            res matches Ok(b) ==> b.master() == master_pubkey@ && b.physical_hint(),
            res matches Err(e) ==> "bad master key: "@.is_prefix_of(e@),
    {
        match VerifyingKey::from_bytes(&master_pubkey) {
            Ok(master) => Ok(RobotBroker { master, physical_hint: true }),
            Err(e) => {
                let mut msg = String::from_str("bad master key: ");
                msg.append(e.as_str());
                assert("bad master key: "@.is_prefix_of(msg@)) by {
                    assert(msg@.take("bad master key: "@.len() as int) =~= "bad master key: "@);
                }
                Err(msg)
            },
        }
    }

    /// Judges one CRCP payload unit (header byte + canonical CBOR).
    pub fn handle_unit(&self, unit: &[u8]) -> (v: RobotVerdict)
        ensures
            v@ == verdict_spec(self.master(), self.physical_hint(), unit@),
    {
        let (hdr, body) = match decode_wire(unit) {
            Ok(v) => v,
            Err(e) => {
                let mut reason = String::from_str("decode: ");
                reason.append(e.as_str());
                return RobotVerdict::Rejected { reason };
            },
        };
        let ghost bv = body@;
        let mut sig_bytes = [0u8; 64];
        let has_sig = match body.get("signature") {
            Some(Cbor::Bytes(b)) => {
                if b.len() == 64 {
                    let mut i: usize = 0;
                    while i < 64
                        invariant
                            b@.len() == 64,
                            i <= 64,
                            forall|k: int| 0 <= k < i ==> sig_bytes@[k] == b@[k],
                        decreases 64 - i,
                    {
                        sig_bytes[i] = b[i];
                        i += 1;
                    }
                    assert(sig_bytes@ =~= b@);
                    true
                } else {
                    return reject("signature must be 64-byte bstr");
                }
            },
            Some(_) => return reject("signature must be 64-byte bstr"),
            None => false,
        };
        assert(has_sig ==> signature_field(bv) == SignatureField::Present(sig_bytes@));
        assert(!has_sig ==> signature_field(bv) == SignatureField::Missing);
        match hdr.msg_type {
            MsgType::EStop => {
                if !has_sig {
                    return reject("estop unsigned");
                }
                if !verify(&self.master, MsgType::EStop, &body, &sig_bytes) {
                    return reject("estop bad signature");
                }
                let agent_id = match text_field(&body, "agent_id") {
                    Some(s) => Some(s.clone()),
                    None => None,
                };
                RobotVerdict::EStop { agent_id }
            },
            MsgType::Task => {
                if !has_sig {
                    return reject("task unsigned");
                }
                if !verify(&self.master, MsgType::Task, &body, &sig_bytes) {
                    return reject("task bad signature");
                }
                let physical = match body.get("capability_flags") {
                    Some(flags) => match flags {
                        Cbor::Array(_) => physical_flags(flags),
                        _ => true,
                    },
                    None => self.physical_hint,
                };
                let deadman = u64_field(&body, "deadman_ms");
                if physical && deadman.is_none() {
                    return reject("deadman_ms required for physical agent (safety)");
                }
                if deadman == Some(0u64) {
                    return reject("deadman_ms must be > 0");
                }
                let agent_id = match text_field(&body, "agent_id") {
                    Some(s) => s.clone(),
                    None => String::from_str(""),
                };
                let deadman_ms = match deadman {
                    Some(n) => n,
                    None => 0,
                };
                RobotVerdict::TaskAccepted { agent_id, deadman_ms }
            },
            MsgType::Manifest => {
                if has_sig && !verify(&self.master, MsgType::Manifest, &body, &sig_bytes) {
                    return reject("manifest bad signature");
                }
                RobotVerdict::Info { msg_type: String::from_str("manifest") }
            },
            MsgType::Telemetry => {
                if has_sig && !verify(&self.master, MsgType::Telemetry, &body, &sig_bytes) {
                    return reject("telemetry bad signature");
                }
                RobotVerdict::Info { msg_type: String::from_str("telemetry") }
            },
        }
    }
}

/// Whether `unit` decodes to a message of kind `t` whose `signature` field
/// holds a signature that `master` accepts over the body's pre-image.
pub open spec fn signed_by(master: Seq<u8>, unit: Seq<u8>, t: MsgType) -> bool {
    match decode_wire_spec(unit) {
        Ok((hdr, body)) => hdr.msg_type == t && match signature_field(body) {
            SignatureField::Present(s) => ed25519_accepts(master, preimage_spec(t, body), s),
            _ => false,
        },
        Err(_) => false,
    }
}

/// Nothing actuates without the master's signature: an accepted task is a
/// task unit signed by the master key, an honoured e-stop an e-stop unit
/// signed by it.
pub proof fn law_actuation_needs_master_signature(master: Seq<u8>, physical_hint: bool, unit: Seq<u8>)
    ensures
        verdict_spec(master, physical_hint, unit) is TaskAccepted ==> signed_by(master, unit, MsgType::Task),
        verdict_spec(master, physical_hint, unit) is EStop ==> signed_by(master, unit, MsgType::EStop),
{
}

/// An accepted task never carries a zero dead-man timeout, and when the
/// task must carry one (its flags mark it physical, or it has no flags and
/// the broker defaults to physical) the accepted timeout is the body's.
pub proof fn law_accepted_task_deadman(master: Seq<u8>, physical_hint: bool, unit: Seq<u8>)
    ensures
        verdict_spec(master, physical_hint, unit) matches VerdictValue::TaskAccepted { deadman_ms, .. } ==> (
        decode_wire_spec(unit) matches Ok((_, body)) && ({
            let field = u64_value(lookup(body, "deadman_ms"@));
            &&& field != Some(0u64)
            &&& requires_deadman(body, physical_hint) ==> deadman_ms > 0 && field == Some(deadman_ms)
        })),
{
}

/// Manifests and telemetry are informational: they are never turned into an
/// accepted task or an e-stop. Unsigned or signed by the master key they are
/// answered with `Info`; a signature present that the master key does not
/// accept gets them rejected.
pub proof fn law_info_never_actuates(master: Seq<u8>, physical_hint: bool, unit: Seq<u8>)
    ensures
        decode_wire_spec(unit) matches Ok((hdr, body)) && (hdr.msg_type == MsgType::Manifest
            || hdr.msg_type == MsgType::Telemetry) && (signature_field(body) is Missing || signed_by(
            master,
            unit,
            hdr.msg_type,
        )) ==> verdict_spec(master, physical_hint, unit) is Info,
        decode_wire_spec(unit) matches Ok((hdr, body)) && (hdr.msg_type == MsgType::Manifest
            || hdr.msg_type == MsgType::Telemetry) && signature_field(body) is Present && !signed_by(
            master,
            unit,
            hdr.msg_type,
        ) ==> verdict_spec(master, physical_hint, unit) is Rejected,
        decode_wire_spec(unit) matches Ok((hdr, _)) && (hdr.msg_type == MsgType::Manifest
            || hdr.msg_type == MsgType::Telemetry)
            ==> !(verdict_spec(master, physical_hint, unit) is TaskAccepted)
            && !(verdict_spec(master, physical_hint, unit) is EStop),
{
}

/// An e-stop signed by the master key is always honoured: nothing else in
/// the body (no dead-man timeout, no replay state) can hold it back. A task
/// signed by the master key with a positive dead-man timeout is always
/// accepted.
pub proof fn law_signed_units_go_through(master: Seq<u8>, physical_hint: bool, unit: Seq<u8>)
    ensures
        signed_by(master, unit, MsgType::EStop) ==> verdict_spec(master, physical_hint, unit) is EStop,
        signed_by(master, unit, MsgType::Task) && (decode_wire_spec(unit) matches Ok((_, body))
            && u64_value(lookup(body, "deadman_ms"@)) matches Some(n) && n > 0)
            ==> verdict_spec(master, physical_hint, unit) is TaskAccepted,
{
}

/// A task whose capability flags hold, at any position, a text flag that
/// starts with `physical.` is refused unless it carries a dead-man timeout,
/// whoever signed it; a signed task whose flags array holds no such flag is
/// accepted without one, with a zero timeout.
pub proof fn law_physical_flag_anywhere_needs_deadman(
    master: Seq<u8>,
    physical_hint: bool,
    unit: Seq<u8>,
    items: Seq<CborValue>,
    i: int,
)
    requires
        decode_wire_spec(unit) matches Ok((hdr, body)) && hdr.msg_type == MsgType::Task
            && lookup(body, "capability_flags"@) == Some(CborValue::Array(items))
            && u64_value(lookup(body, "deadman_ms"@)) is None,
    ensures
        0 <= i < items.len() && items[i] is Text && has_prefix(items[i]->Text_0, "physical."@)
            ==> verdict_spec(master, physical_hint, unit) is Rejected,
        signed_by(master, unit, MsgType::Task) && (forall|k: int|
            0 <= k < items.len() ==> !(#[trigger] items[k] is Text && has_prefix(items[k]->Text_0, "physical."@)))
            ==> (verdict_spec(master, physical_hint, unit) matches VerdictValue::TaskAccepted { deadman_ms, .. }
            && deadman_ms == 0),
{
    if 0 <= i < items.len() && items[i] is Text && has_prefix(items[i]->Text_0, "physical."@) {
        assert(is_physical(CborValue::Array(items)));
    }
}

} // verus!

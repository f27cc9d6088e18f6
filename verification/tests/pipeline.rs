use cymru::cbor::Cbor;
use cymru::crcp::{decode_wire, encode_wire, MsgType, CRCP_PAYLOAD_TYPE};
use cymru::frame::{Frame, BROADCAST};
use std::cell::RefCell;
use std::collections::VecDeque;
use std::rc::Rc;

/// In-memory loopback ether shared by two endpoints (stands in for the air).
#[derive(Clone, Default)]
struct MockEther {
    buf: Rc<RefCell<VecDeque<Vec<u8>>>>,
}

struct MockRadio {
    ether: MockEther,
}

impl MockRadio {
    fn new(ether: MockEther) -> Self {
        MockRadio { ether }
    }
    fn send(&mut self, bytes: &[u8]) -> Result<(), String> {
        self.ether.buf.borrow_mut().push_back(bytes.to_vec());
        Ok(())
    }
    fn recv(&mut self) -> Option<Vec<u8>> {
        self.ether.buf.borrow_mut().pop_front()
    }
}

#[test]
fn crcp_unit_over_frame_over_mock_radio() {
    let body = Cbor::Mapping(vec![
        (Cbor::text("protocol"), Cbor::text("crcp/1")),
        (Cbor::text("status"), Cbor::text("completed")),
    ]);
    let unit = encode_wire(MsgType::Telemetry, &body);
    let frame = Frame::new(CRCP_PAYLOAD_TYPE, [1; 16], BROADCAST, [0; 4], unit);
    let on_air = frame.encode();

    let ether = MockEther::default();
    let mut tx = MockRadio::new(ether.clone());
    let mut rx = MockRadio::new(ether);

    tx.send(&on_air).unwrap();
    let got = rx.recv().expect("delivered");
    let decoded_frame = Frame::decode(&got).unwrap();
    assert_eq!(decoded_frame.type_byte, CRCP_PAYLOAD_TYPE);
    let (hdr, decoded_body) = decode_wire(&decoded_frame.payload).unwrap();
    assert_eq!(hdr.msg_type, MsgType::Telemetry);
    assert_eq!(decoded_body.get("status").unwrap(), &Cbor::text("completed"));
}

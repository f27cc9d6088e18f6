use cymru::fec::{decode, encode, FecError, FecProfile};
use cymru::frame::{Frame, BROADCAST, MAGIC};
use cymru::queue::{Priority, TxQueue};

#[test]
fn profile_params_match_rfc0001() {
    assert_eq!(FecProfile::Data.ecc_len(), 32);
    assert_eq!(FecProfile::Data.block_data_len(), 223);
    assert_eq!(FecProfile::Data.correctable(), 16);
    assert_eq!(FecProfile::Voice.ecc_len(), 64);
    assert_eq!(FecProfile::Voice.block_data_len(), 191);
    assert_eq!(FecProfile::Voice.correctable(), 32);
}

#[test]
fn clean_roundtrip_data() {
    let payload = b"hello mesh, this is a CRCP-ish payload over a lossy LoRa link";
    let enc = encode(FecProfile::Data, payload).unwrap();
    assert_eq!(enc.len() % 255, 0);
    assert_eq!(decode(FecProfile::Data, &enc).unwrap(), payload);
}

#[test]
fn corrects_up_to_16_errors_per_block_data() {
    let payload = vec![0x5Au8; 100];
    let mut enc = encode(FecProfile::Data, &payload).unwrap();
    assert_eq!(enc.len(), 255);
    for i in 0..16 {
        enc[i * 15] ^= 0xFF;
    }
    assert_eq!(decode(FecProfile::Data, &enc).unwrap(), payload);
}

#[test]
fn fails_beyond_correction_capacity_data() {
    let payload = vec![0x5Au8; 100];
    let mut enc = encode(FecProfile::Data, &payload).unwrap();
    for i in 0..17 {
        enc[i * 14] ^= 0xFF;
    }
    assert_eq!(decode(FecProfile::Data, &enc), Err(FecError::Uncorrectable));
}

#[test]
fn voice_corrects_up_to_32_errors_per_block() {
    let payload = vec![0xA5u8; 120];
    let mut enc = encode(FecProfile::Voice, &payload).unwrap();
    assert_eq!(enc.len(), 255);
    for i in 0..32 {
        enc[i * 7] ^= 0xFF;
    }
    assert_eq!(decode(FecProfile::Voice, &enc).unwrap(), payload);
}

#[test]
fn multi_block_payload_with_errors_in_each_block() {
    let payload: Vec<u8> = (0..500).map(|i| (i % 256) as u8).collect();
    let mut enc = encode(FecProfile::Data, &payload).unwrap();
    assert_eq!(enc.len(), 3 * 255);
    for blk in 0..3 {
        for i in 0..10 {
            enc[blk * 255 + i * 20] ^= 0xFF;
        }
    }
    assert_eq!(decode(FecProfile::Data, &enc).unwrap(), payload);
}

#[test]
fn empty_payload_roundtrips() {
    let enc = encode(FecProfile::Data, b"").unwrap();
    assert_eq!(decode(FecProfile::Data, &enc).unwrap(), b"");
}

#[test]
fn misaligned_stream_rejected() {
    assert_eq!(decode(FecProfile::Data, &[0u8; 100]), Err(FecError::BadBlockAlignment));
    assert_eq!(decode(FecProfile::Data, &[]), Err(FecError::BadBlockAlignment));
}

#[test]
fn frame_roundtrip() {
    let f = Frame::new(cymru::crcp::CRCP_PAYLOAD_TYPE, [1; 16], [2; 16], [0, 0, 0, 0], vec![9, 8, 7]);
    let bytes = f.encode();
    assert_eq!(&bytes[0..2], &MAGIC);
    let g = Frame::decode(&bytes).unwrap();
    assert_eq!(f, g);
    assert_eq!(g.type_byte, 0x04);
}

#[test]
fn rejects_bad_magic() {
    assert!(Frame::decode(&[0x00, 0x00, 0, 0]).is_err());
}

#[test]
fn broadcast_detect() {
    let f = Frame::new(0x04, [1; 16], BROADCAST, [0; 4], vec![]);
    assert!(f.is_broadcast());
}

fn f(tag: u8) -> Frame {
    Frame::new(0x04, [tag; 16], BROADCAST, [0; 4], vec![tag])
}

#[test]
fn estop_preempts() {
    let mut q = TxQueue::new();
    q.push(Priority::Data, f(1));
    q.push(Priority::Background, f(2));
    q.push(Priority::EStop, f(3)); // arrives last, must leave first
    assert_eq!(q.pop().unwrap().sender[0], 3);
    assert_eq!(q.pop().unwrap().sender[0], 1);
    assert_eq!(q.pop().unwrap().sender[0], 2);
    assert!(q.pop().is_none());
}

#[test]
fn fifo_within_priority() {
    let mut q = TxQueue::new();
    q.push(Priority::Data, f(10));
    q.push(Priority::Data, f(11));
    assert_eq!(q.pop().unwrap().sender[0], 10);
    assert_eq!(q.pop().unwrap().sender[0], 11);
}

use cymru::kiss::{decode, decode_first, encode, KissError, FEND, FESC, TFEND, TFESC};

#[test]
fn plain_roundtrip() {
    let p = b"hello radio";
    let enc = encode(p);
    assert_eq!(enc.first(), Some(&FEND));
    assert_eq!(enc.last(), Some(&FEND));
    assert_eq!(decode(&enc).unwrap(), p);
}

#[test]
fn escapes_fend_and_fesc() {
    let p = [0x01, FEND, 0x02, FESC, 0x03];
    let enc = encode(&p);
    assert_eq!(enc.iter().filter(|&&b| b == FEND).count(), 2);
    assert!(enc.windows(2).any(|w| w == [FESC, TFEND]));
    assert!(enc.windows(2).any(|w| w == [FESC, TFESC]));
    assert_eq!(decode(&enc).unwrap(), p);
}

#[test]
fn all_special_bytes_roundtrip() {
    let p = [FEND, FESC, TFEND, TFESC, FEND, FESC];
    assert_eq!(decode(&encode(&p)).unwrap(), p);
}

#[test]
fn tolerates_leading_noise_and_fend_runs() {
    let p = b"payload";
    let mut stream = vec![0x55, 0xAA];
    stream.extend_from_slice(&[FEND, FEND, FEND]);
    stream.extend_from_slice(&encode(p)[1..]);
    assert_eq!(decode(&stream).unwrap(), p);
}

#[test]
fn empty_frames_are_skipped() {
    assert_eq!(encode(b""), vec![FEND, FEND]);
    assert_eq!(decode(&encode(b"")), Err(KissError::Incomplete));
    let mut stream = encode(b"");
    stream.extend_from_slice(&encode(b"real"));
    assert_eq!(decode(&stream).unwrap(), b"real");
}

#[test]
fn incomplete_frame_errs() {
    assert_eq!(decode(&[FEND, 0x01, 0x02]), Err(KissError::Incomplete));
    assert_eq!(decode(&[0x01, 0x02]), Err(KissError::Incomplete));
}

#[test]
fn bad_escape_errs() {
    assert_eq!(decode(&[FEND, FESC, 0x00, FEND]), Err(KissError::BadEscape));
}

#[test]
fn decode_first_reports_resume_index_for_back_to_back_frames() {
    let mut stream = encode(b"one");
    let second = encode(b"two");
    stream.extend_from_slice(&second);
    let (p1, consumed) = decode_first(&stream).unwrap();
    assert_eq!(p1, b"one");
    let (p2, _) = decode_first(&stream[consumed..]).unwrap();
    assert_eq!(p2, b"two");
}

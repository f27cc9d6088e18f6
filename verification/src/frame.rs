//! The RFC 0001 radio frame: `magic(2) | length(u16 BE) | body`, where
//! `body = type(1) | sender(16) | recipient(16) | channel(4) | app_payload`.

use vstd::prelude::*;
use vstd::slice::slice_subrange;
use vstd::string::StringExecFns;
use crate::bytes::{be16, be16_value, push_be16, append_bytes, copy_range, lemma_be16_roundtrip};
use crate::fec::{FecProfile, fec_encode_spec, fec_decode_spec, MAX_PAYLOAD};

verus! {

/// CYMRU magic bytes: 'C' = 0xC9, 'B'(óg) = 0xB0.
pub const MAGIC: [u8; 2] = [0xC9, 0xB0];

/// Broadcast recipient id (all ones).
pub const BROADCAST: [u8; 16] = [
    0xFF, 0xFF, 0xFF, 0xFF, 0xFF, 0xFF, 0xFF, 0xFF, 0xFF, 0xFF, 0xFF, 0xFF, 0xFF, 0xFF, 0xFF, 0xFF,
];

/// Number of header bytes at the front of a frame body.
pub const BODY_HEADER_LEN: usize = 37;

/// A radio frame.
#[derive(Debug, Clone, PartialEq, Eq)]
pub struct Frame {
    /// RFC 0001 Type byte (0x01 data, 0x02 control, 0x03 voice, 0x04 robot dispatch).
    pub type_byte: u8,
    pub sender: [u8; 16],
    pub recipient: [u8; 16],
    pub channel: [u8; 4],
    pub payload: Vec<u8>,
}

/// Mathematical value of a [`Frame`].
pub struct FrameValue {
    pub type_byte: u8,
    pub sender: Seq<u8>,
    pub recipient: Seq<u8>,
    pub channel: Seq<u8>,
    pub payload: Seq<u8>,
}

impl View for Frame {
    type V = FrameValue;

    open spec fn view(&self) -> FrameValue {
        FrameValue {
            type_byte: self.type_byte,
            sender: self.sender@,
            recipient: self.recipient@,
            channel: self.channel@,
            payload: self.payload@,
        }
    }
}

/// The magic bytes as a sequence.
pub open spec fn magic() -> Seq<u8> {
    seq![0xC9u8, 0xB0u8]
}

/// The broadcast recipient id as a sequence.
pub open spec fn broadcast_id() -> Seq<u8> {
    Seq::new(16, |i: int| 0xFFu8)
}

/// `type | sender | recipient | channel | payload`.
pub open spec fn body_of(f: FrameValue) -> Seq<u8> {
    seq![f.type_byte] + f.sender + f.recipient + f.channel + f.payload
}

/// The frame a body of at least 37 bytes describes.
pub open spec fn parse_body(body: Seq<u8>) -> FrameValue {
    FrameValue {
        type_byte: body[0],
        sender: body.subrange(1, 17),
        recipient: body.subrange(17, 33),
        channel: body.subrange(33, 37),
        payload: body.subrange(37, body.len() as int),
    }
}

/// The on-air bytes of a frame (the length field is the body length as a u16).
pub open spec fn encode_spec(f: FrameValue) -> Seq<u8> {
    magic() + be16(body_of(f).len() as u16) + body_of(f)
}

/// The FEC profile a Type byte selects: voice (0x03) gets RS(255,191),
/// everything else RS(255,223).
pub open spec fn profile_of(type_byte: u8) -> FecProfile {
    if type_byte == 0x03 {
        FecProfile::Voice
    } else {
        FecProfile::Data
    }
}

/// The on-air bytes of a frame with its body FEC-protected.
pub open spec fn encode_fec_spec(f: FrameValue) -> Seq<u8> {
    let rs = fec_encode_spec(profile_of(f.type_byte), body_of(f))->Ok_0;
    magic() + be16(rs.len() as u16) + rs
}

/// The length field and the bytes it announces, or why they are not there.
pub open spec fn framed_bytes(b: Seq<u8>, truncated: Seq<char>) -> Result<Seq<u8>, Seq<char>> {
    if b.len() < 4 {
        Err("frame too short"@)
    } else if b[0] != 0xC9u8 || b[1] != 0xB0u8 {
        Err("bad magic"@)
    } else {
        let n = be16_value(b[2], b[3]);
        if 4 + n > b.len() {
            Err(truncated)
        } else {
            Ok(b.subrange(4, 4 + n))
        }
    }
}

/// Parse of the on-air layout.
pub open spec fn decode_spec(b: Seq<u8>) -> Result<FrameValue, Seq<char>> {
    match framed_bytes(b, "truncated body"@) {
        Err(e) => Err(e),
        Ok(body) => if body.len() < 37 {
            Err("body too short for header"@)
        } else {
            Ok(parse_body(body))
        },
    }
}

/// Whether a recovered body is consistent with the profile that recovered
/// it: its Type byte selects that profile (an empty body has no Type byte to
/// contradict it).
pub open spec fn consistent(p: FecProfile, body: Seq<u8>) -> bool {
    body.len() == 0 || profile_of(body[0]) == p
}

/// The body recovered from an FEC stream: the RS(255,223) reading if it is
/// consistent with that profile, else the RS(255,191) reading if it is
/// consistent with that one.
pub open spec fn recover_body(rs: Seq<u8>) -> Result<Seq<u8>, Seq<char>> {
    match fec_decode_spec(FecProfile::Data, rs) {
        Ok(body) if consistent(FecProfile::Data, body) => Ok(body),
        _ => match fec_decode_spec(FecProfile::Voice, rs) {
            Ok(body) if consistent(FecProfile::Voice, body) => Ok(body),
            _ => Err("fec uncorrectable"@),
        },
    }
}

/// Parse and error correction of an FEC-protected on-air frame.
pub open spec fn decode_fec_spec(b: Seq<u8>) -> Result<FrameValue, Seq<char>> {
    match framed_bytes(b, "truncated fec stream"@) {
        Err(e) => Err(e),
        Ok(rs) => match recover_body(rs) {
            Err(e) => Err(e),
            Ok(body) => if body.len() < 37 {
                Err("body too short for header"@)
            } else {
                Ok(parse_body(body))
            },
        },
    }
}

/// The body of a frame parses back to the frame.
proof fn lemma_parse_body(f: FrameValue)
    requires
        f.sender.len() == 16,
        f.recipient.len() == 16,
        f.channel.len() == 4,
    ensures
        body_of(f).len() == 37 + f.payload.len(),
        parse_body(body_of(f)) == f,
{
    let b = body_of(f);
    assert(b.subrange(1, 17) =~= f.sender);
    assert(b.subrange(17, 33) =~= f.recipient);
    assert(b.subrange(33, 37) =~= f.channel);
    assert(b.subrange(37, b.len() as int) =~= f.payload);
}

/// Parsing the on-air bytes of a frame gives the frame back, as long as its
/// body length fits the 16-bit length field.
pub proof fn law_frame_round_trip(f: FrameValue)
    requires
        f.sender.len() == 16,
        f.recipient.len() == 16,
        f.channel.len() == 4,
        f.payload.len() + 37 <= 0xFFFF,
    ensures
        decode_spec(encode_spec(f)) == Ok::<FrameValue, Seq<char>>(f),
{
    let b = encode_spec(f);
    let body = body_of(f);
    lemma_parse_body(f);
    lemma_be16_roundtrip(body.len() as u16);
    assert(b[2] == be16(body.len() as u16)[0]);
    assert(b[3] == be16(body.len() as u16)[1]);
    assert(b.subrange(4, 4 + body.len() as int) =~= body);
}

fn array16(src: &[u8], start: usize) -> (a: [u8; 16])
    requires
        start + 16 <= src@.len(),
    ensures
        a@ == src@.subrange(start as int, start + 16),
{
    let mut a = [0u8; 16];
    let n = src.len();
    let mut i: usize = 0;
    while i < 16
        invariant
            n == src@.len(),
            start + 16 <= src@.len(),
            i <= 16,
            forall|k: int| 0 <= k < i ==> a@[k] == src@[start + k],
        decreases 16 - i,
    {
        a[i] = src[start + i];
        i += 1;
    }
    assert(a@ =~= src@.subrange(start as int, start + 16));
    a
}

fn array4(src: &[u8], start: usize) -> (a: [u8; 4])
    requires
        start + 4 <= src@.len(),
    ensures
        a@ == src@.subrange(start as int, start + 4),
{
    let a = [src[start], src[start + 1], src[start + 2], src[start + 3]];
    assert(a@ =~= src@.subrange(start as int, start + 4));
    a
}

impl Frame {
    /// Assembles a frame from its fields.
    pub fn new(
        type_byte: u8,
        sender: [u8; 16],
        recipient: [u8; 16],
        channel: [u8; 4],
        payload: Vec<u8>,
    ) -> (f: Frame)
        ensures
            f@ == (FrameValue { type_byte, sender: sender@, recipient: recipient@, channel: channel@, payload: payload@ }),
    {
        Frame { type_byte, sender, recipient, channel, payload }
    }

    /// Whether the recipient is the broadcast id.
    pub fn is_broadcast(&self) -> (b: bool)
        ensures
            b == (self.recipient@ == broadcast_id()),
    {
        let mut i: usize = 0;
        while i < 16
            invariant
                i <= 16,
                forall|k: int| 0 <= k < i ==> self.recipient@[k] == 0xFFu8,
            decreases 16 - i,
        {
            if self.recipient[i] != 0xFF {
                return false;
            }
            i += 1;
        }
        assert(self.recipient@ =~= broadcast_id());
        true
    }

    /// FEC profile for this frame's Type byte.
    pub fn fec_profile(&self) -> (p: FecProfile)
        ensures
            p == profile_of(self.type_byte),
    {
        match self.type_byte {
            0x03 => FecProfile::Voice,
            _ => FecProfile::Data,
        }
    }

    fn body(&self) -> (body: Vec<u8>)
        ensures
            body@ == body_of(self@),
    {
        let mut body: Vec<u8> = Vec::new();
        body.push(self.type_byte);
        append_bytes(&mut body, &self.sender);
        append_bytes(&mut body, &self.recipient);
        append_bytes(&mut body, &self.channel);
        append_bytes(&mut body, self.payload.as_slice());
        assert(body@ =~= body_of(self@));
        body
    }

    /// Serializes to the on-air layout with the body protected by the
    /// Reed-Solomon profile of its Type byte.
    pub fn encode_fec(&self) -> (out: Vec<u8>)
        requires
            self.payload@.len() + BODY_HEADER_LEN <= MAX_PAYLOAD,
        ensures
            out@ == encode_fec_spec(self@),
            out@.len() <= 4 + 0xFFFF ==> decode_fec_spec(out@) == Ok::<FrameValue, Seq<char>>(self@),
    {
        let body = self.body();
        let rs = match crate::fec::encode(self.fec_profile(), body.as_slice()) {
            Ok(rs) => rs,
            Err(_) => Vec::new(),
        };
        let mut out: Vec<u8> = Vec::new();
        append_bytes(&mut out, &MAGIC);
        push_be16(&mut out, rs.len() as u16);
        append_bytes(&mut out, rs.as_slice());
        assert(out@ =~= encode_fec_spec(self@));
        proof {
            if out@.len() <= 4 + 0xFFFF {
                lemma_be16_roundtrip(rs@.len() as u16);
                assert(out@[2] == be16(rs@.len() as u16)[0]);
                assert(out@[3] == be16(rs@.len() as u16)[1]);
                assert(out@.subrange(4, 4 + rs@.len() as int) =~= rs@);
                lemma_parse_body(self@);
            }
        }
        out
    }

    /// Parses and error-corrects an on-air frame produced by [`Frame::encode_fec`].
    /// The Type byte that selects the profile lives inside the FEC stream, so
    /// both profiles are tried, RS(255,223) first, and the reading whose Type
    /// byte selects the profile that produced it is accepted.
    pub fn decode_fec(bytes: &[u8]) -> (res: Result<Frame, String>)
        ensures
            match res {
                Ok(f) => decode_fec_spec(bytes@) == Ok::<FrameValue, Seq<char>>(f@),
                Err(e) => decode_fec_spec(bytes@) == Err::<FrameValue, Seq<char>>(e@),
            },
    {
        let rs = match Self::framed(bytes, false) {
            Ok(rs) => rs,
            Err(e) => return Err(e),
        };
        let body = match crate::fec::decode(FecProfile::Data, rs) {
            Ok(b) if b.len() == 0 || b[0] != 0x03 => b,
            _ => match crate::fec::decode(FecProfile::Voice, rs) {
                Ok(b) if b.len() == 0 || b[0] == 0x03 => b,
                _ => return Err(String::from_str("fec uncorrectable")),
            },
        };
        Self::from_body(body.as_slice())
    }

    /// Serializes to the on-air layout.
    pub fn encode(&self) -> (out: Vec<u8>)
        ensures
            out@ == encode_spec(self@),
    {
        let body = self.body();
        let mut out: Vec<u8> = Vec::new();
        append_bytes(&mut out, &MAGIC);
        push_be16(&mut out, body.len() as u16);
        append_bytes(&mut out, body.as_slice());
        assert(out@ =~= encode_spec(self@));
        out
    }

    /// Parses the on-air layout.
    pub fn decode(bytes: &[u8]) -> (res: Result<Frame, String>)
        ensures
            match res {
                Ok(f) => decode_spec(bytes@) == Ok::<FrameValue, Seq<char>>(f@),
                Err(e) => decode_spec(bytes@) == Err::<FrameValue, Seq<char>>(e@),
            },
    {
        let body = match Self::framed(bytes, true) {
            Ok(b) => b,
            Err(e) => return Err(e),
        };
        Self::from_body(body)
    }

    /// The bytes announced by the magic and length header.
    fn framed(bytes: &[u8], plain: bool) -> (res: Result<&[u8], String>)
        ensures
            match res {
                Ok(b) => framed_bytes(bytes@, if plain { "truncated body"@ } else { "truncated fec stream"@ }) == Ok::<Seq<u8>, Seq<char>>(b@),
                Err(e) => framed_bytes(bytes@, if plain { "truncated body"@ } else { "truncated fec stream"@ }) == Err::<Seq<u8>, Seq<char>>(e@),
            },
    {
        if bytes.len() < 4 {
            return Err(String::from_str("frame too short"));
        }
        if bytes[0] != MAGIC[0] || bytes[1] != MAGIC[1] {
            return Err(String::from_str("bad magic"));
        }
        let n = (((bytes[2] as u16) << 8) | (bytes[3] as u16)) as usize;
        if n > bytes.len() - 4 {
            return Err(if plain {
                String::from_str("truncated body")
            } else {
                String::from_str("truncated fec stream")
            });
        }
        Ok(slice_subrange(bytes, 4, 4 + n))
    }

    /// The frame a body describes, or an error when it is shorter than its header.
    fn from_body(body: &[u8]) -> (res: Result<Frame, String>)
        ensures
            match res {
                Ok(f) => body@.len() >= 37 && f@ == parse_body(body@),
                Err(e) => body@.len() < 37 && e@ == "body too short for header"@,
            },
    {
        if body.len() < BODY_HEADER_LEN {
            return Err(String::from_str("body too short for header"));
        }
        let sender = array16(body, 1);
        let recipient = array16(body, 17);
        let channel = array4(body, 33);
        let payload = copy_range(body, 37, body.len());
        Ok(Frame { type_byte: body[0], sender, recipient, channel, payload })
    }
}

/// The on-air layout of a frame: magic `0xC9 0xB0`, the body length as a
/// big-endian u16, then the Type byte, the 16-byte sender, the 16-byte
/// recipient, the 4-byte channel and the payload.
pub proof fn law_frame_layout(f: FrameValue)
    requires
        f.sender.len() == 16,
        f.recipient.len() == 16,
        f.channel.len() == 4,
        f.payload.len() + 37 <= 0xFFFF,
    ensures
        ({
            let b = encode_spec(f);
            &&& b.len() == 41 + f.payload.len()
            &&& b[0] == 0xC9u8 && b[1] == 0xB0u8
            &&& b[2] * 256 + b[3] == 37 + f.payload.len()
            &&& b[4] == f.type_byte
            &&& b.subrange(5, 21) == f.sender
            &&& b.subrange(21, 37) == f.recipient
            &&& b.subrange(37, 41) == f.channel
            &&& b.subrange(41, b.len() as int) == f.payload
        }),
{
    let b = encode_spec(f);
    let n = (37 + f.payload.len()) as u16;
    assert(((n >> 8u16) as u8) as int * 256 + (n as u8) as int == n as int) by (bit_vector);
    assert(b[2] == (n >> 8u16) as u8 && b[3] == n as u8);
    assert(b.subrange(5, 21) =~= f.sender);
    assert(b.subrange(21, 37) =~= f.recipient);
    assert(b.subrange(37, 41) =~= f.channel);
    assert(b.subrange(41, b.len() as int) =~= f.payload);
}

} // verus!

//! Wire codec: a `Frame` is one on-the-wire unit; `pack_frame` serialises it
//! into the advertised byte buffer and `unpack_frame` parses untrusted bytes
//! back, tolerating deliveries both with and without the leading two-byte
//! transport tag.

use vstd::prelude::*;

verus! {

/// Little-endian bytes of the transport tag that precedes every packed frame.
pub const TAG_BYTE: u8 = 0xff;

/// The single supported protocol version; any other version byte is rejected.
pub const WIRE_VERSION: u8 = 1;

/// Header bytes that follow the optional transport tag:
/// version, topic, ttl, four msg_id bytes, seq, tot.
pub const HEADER_LEN: usize = 9;

/// One on-the-wire unit: a fragment of a logical message.
pub struct Frame {
    /// Channel identifier; consumers filter by it.
    pub topic: u8,
    /// Remaining relay budget; decremented once per relay hop.
    pub ttl: u8,
    /// Random per-message identifier grouping the fragments of one message,
    /// carried on the wire as four little-endian bytes.
    pub msg_id: u32,
    /// Fragment index, `0 <= seq_no < tot`.
    pub seq_no: u8,
    /// Total fragment count of the message, at least 1.
    pub tot: u8,
    /// Fragment payload, plaintext or ciphertext.
    pub payload: Vec<u8>,
}

/// Mathematical model of a `Frame`.
#[verifier::ext_equal]
pub ghost struct FrameModel {
    pub topic: u8,
    pub ttl: u8,
    pub msg_id: u32,
    pub seq_no: u8,
    pub tot: u8,
    pub payload: Seq<u8>,
}

impl View for Frame {
    type V = FrameModel;

    open spec fn view(&self) -> FrameModel {
        FrameModel {
            topic: self.topic,
            ttl: self.ttl,
            msg_id: self.msg_id,
            seq_no: self.seq_no,
            tot: self.tot,
            payload: self.payload@,
        }
    }
}

/// The `u32` denoted by four bytes in little-endian order.
pub open spec fn u32_from_le(b0: u8, b1: u8, b2: u8, b3: u8) -> u32 {
    (b0 as u32) | ((b1 as u32) << 8) | ((b2 as u32) << 16) | ((b3 as u32) << 24)
}

/// The four little-endian bytes of a `u32`, lowest first.
pub open spec fn u32_to_le(x: u32) -> Seq<u8> {
    seq![
        (x & 0xff) as u8,
        ((x >> 8) & 0xff) as u8,
        ((x >> 16) & 0xff) as u8,
        ((x >> 24) & 0xff) as u8,
    ]
}

/// The exact byte sequence that `pack_frame` emits: transport tag, version,
/// topic, ttl, little-endian msg_id, seq, tot, then the payload verbatim.
pub open spec fn spec_pack(f: FrameModel) -> Seq<u8> {
    seq![
        TAG_BYTE,
        TAG_BYTE,
        WIRE_VERSION,
        f.topic,
        f.ttl,
        (f.msg_id & 0xff) as u8,
        ((f.msg_id >> 8) & 0xff) as u8,
        ((f.msg_id >> 16) & 0xff) as u8,
        ((f.msg_id >> 24) & 0xff) as u8,
        f.seq_no,
        f.tot,
    ] + f.payload
}

/// The frame denoted by an untrusted byte buffer, or `None` for noise.
/// If the buffer starts with the transport tag the tag is consumed first;
/// otherwise parsing starts at offset 0. The version byte must match
/// `WIRE_VERSION` and the fixed header must be present in full.
pub open spec fn spec_unpack(b: Seq<u8>) -> Option<FrameModel> {
    let i: int = if b.len() >= 2 && b[0] == TAG_BYTE && b[1] == TAG_BYTE {
        2
    } else {
        0
    };
    if b.len() < i + HEADER_LEN {
        None
    } else if b[i] != WIRE_VERSION {
        None
    } else {
        Some(FrameModel {
            topic: b[i + 1],
            ttl: b[i + 2],
            msg_id: u32_from_le(b[i + 3], b[i + 4], b[i + 5], b[i + 6]),
            seq_no: b[i + 7],
            tot: b[i + 8],
            payload: b.subrange(i + 9, b.len() as int),
        })
    }
}

/// Serialise a frame for transmission.
pub fn pack_frame(f: &Frame) -> (r: Vec<u8>)
    ensures
        r@ == spec_pack(f@),
        r@.len() == 11 + f.payload@.len(),
{
    let mut b: Vec<u8> = Vec::new();
    b.push(TAG_BYTE);
    b.push(TAG_BYTE);
    b.push(WIRE_VERSION);
    b.push(f.topic);
    b.push(f.ttl);
    b.push(#[verifier::truncate] ((f.msg_id & 0xff) as u8));
    b.push(#[verifier::truncate] (((f.msg_id >> 8) & 0xff) as u8));
    b.push(#[verifier::truncate] (((f.msg_id >> 16) & 0xff) as u8));
    b.push(#[verifier::truncate] (((f.msg_id >> 24) & 0xff) as u8));
    b.push(f.seq_no);
    b.push(f.tot);
    proof {
        assert(b@ =~= spec_pack(f@).take(11));
    }
    let mut k: usize = 0;
    while k < f.payload.len()
        invariant
            k <= f.payload@.len(),
            b@.len() == 11 + k,
            b@ == spec_pack(f@).take(11 + k),
        decreases f.payload@.len() - k,
    {
        b.push(f.payload[k]);
        proof {
            assert(b@ =~= spec_pack(f@).take(11 + k + 1));
        }
        k = k + 1;
    }
    proof {
        assert(b@ =~= spec_pack(f@));
    }
    b
}

/// Parse an untrusted advertisement buffer into a frame, or `None` for
/// noise: a buffer too short for the header or with the wrong version byte.
pub fn unpack_frame(md: &[u8]) -> (r: Option<Frame>)
    ensures
        match r {
            Some(f) => spec_unpack(md@) == Some(f@),
            None => spec_unpack(md@) is None,
        },
{
    let n = md.len();
    let mut i: usize = 0;
    if n >= 2 && md[0] == TAG_BYTE && md[1] == TAG_BYTE {
        i = 2;
    }
    if n < i + HEADER_LEN {
        return None;
    }
    if md[i] != WIRE_VERSION {
        return None;
    }
    let topic = md[i + 1];
    let ttl = md[i + 2];
    let msg_id = (md[i + 3] as u32) | ((md[i + 4] as u32) << 8) | ((md[i + 5] as u32) << 16)
        | ((md[i + 6] as u32) << 24);
    let seq_no = md[i + 7];
    let tot = md[i + 8];
    let mut payload: Vec<u8> = Vec::new();
    let mut k: usize = i + 9;
    while k < n
        invariant
            i + 9 <= k <= n,
            n == md@.len(),
            payload@ == md@.subrange(i + 9, k as int),
        decreases n - k,
    {
        payload.push(md[k]);
        proof {
            assert(payload@ =~= md@.subrange(i + 9, k + 1 as int));
        }
        k = k + 1;
    }
    let f = Frame { topic, ttl, msg_id, seq_no, tot, payload };
    proof {
        assert(spec_unpack(md@) == Some(f@));
    }
    Some(f)
}

/// Packing then unpacking is the identity on frames: every field, the
/// payload included, comes back exactly.
pub proof fn lemma_pack_unpack_roundtrip(f: FrameModel)
    ensures
        spec_unpack(spec_pack(f)) == Some(f),
{
    let b = spec_pack(f);
    assert(b.len() == 11 + f.payload.len());
    let m = f.msg_id;
    assert((((m & 0xff) as u8) as u32) | (((((m >> 8) & 0xff) as u8) as u32) << 8)
        | (((((m >> 16) & 0xff) as u8) as u32) << 16) | (((((m >> 24) & 0xff) as u8) as u32)
        << 24) == m) by (bit_vector);
    let g = spec_unpack(b)->Some_0;
    assert(g.msg_id == u32_from_le(b[5], b[6], b[7], b[8]));
    assert(g.msg_id == m);
    assert(g.payload =~= f.payload);
    assert(g =~= f);
}

} // verus!

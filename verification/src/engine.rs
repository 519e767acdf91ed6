//! Protocol engine. The receive path takes one raw advertisement buffer
//! through decode, topic filter, duplicate suppression, decryption and
//! reassembly, and decides whether a message is delivered and whether the
//! fragment is relayed with a decremented hop budget after a jittered
//! delay. The send path fragments an outbound message and produces the
//! exact byte buffers to advertise; the caller paces them with the rate
//! limiter and performs the transmission itself.

use vstd::prelude::*;
use crate::codec::{Frame, FrameModel, spec_pack, spec_unpack, pack_frame, unpack_frame};
use crate::crypto::{
    KEY_LEN, MAX_PLAINTEXT_LEN, spec_nonce, sealed_box, opened_box, encrypt, decrypt,
};
use crate::dedup::{DedupWindow, spec_seen, spec_observe, lemma_observed_pair_is_seen};
use crate::fragment::{MAX_MESSAGE_LEN, chunk_count, spec_chunk, chunk_message};
use crate::reassembly::{ReasmTable, EntryModel, table_step};
use rand::Rng;

verus! {

/// Shortest relay jitter delay, in milliseconds.
pub const RELAY_BACKOFF_MIN_MS: u64 = 100;

/// One past the longest relay jitter delay, in milliseconds.
pub const RELAY_BACKOFF_MAX_MS: u64 = 500;

/// What a decoded byte string turned into: `Seq<char>` is the text that
/// best-effort UTF-8 decoding yields; a pure function of the bytes.
pub uninterp spec fn lossy_utf8(bytes: Seq<u8>) -> Seq<char>;

/// Relies on String::from_utf8_lossy: best-effort text decoding whose
/// result is a function of the input bytes alone.
#[verifier::external_body]
fn lossy_text(bytes: &Vec<u8>) -> (r: String)
    ensures
        r@ == lossy_utf8(bytes@),
{
    String::from_utf8_lossy(bytes.as_slice()).into_owned()
}

/// Relies on rand::Rng::gen_range (through rand::thread_rng) over a
/// half-open range of u64: the result lies in the range; an empty range
/// panics, so it is excluded.
#[verifier::external_body]
fn rand_in_range(lo: u64, hi: u64) -> (r: u64)
    requires
        lo < hi,
    ensures
        lo <= r < hi,
{
    rand::thread_rng().gen_range(lo..hi)
}

/// Relies on rand::random: a fresh random message identifier. Nothing is
/// assumed of its value.
#[verifier::external_body]
fn random_msg_id() -> u32 {
    rand::random::<u32>()
}

/// All mutable protocol state of the receive path: the dedup window and
/// the reassembly table, owned exclusively by one receive loop.
pub struct RxState {
    pub dedup: DedupWindow,
    pub reasm: ReasmTable,
}

/// A reconstructed message handed to the caller.
pub struct Delivery {
    pub topic: u8,
    pub msg_id: u32,
    pub text: String,
}

/// A relay obligation: advertise this frame after waiting `backoff_ms`.
pub struct RelayJob {
    pub frame: Frame,
    pub backoff_ms: u64,
}

/// Everything one received buffer produced: at most one delivered message
/// and at most one relay obligation.
pub struct RxOutcome {
    pub delivered: Option<Delivery>,
    pub relay: Option<RelayJob>,
}

/// Mathematical model of one receive step: the successor state and the
/// step's outputs.
#[verifier::ext_equal]
pub ghost struct RxStepModel {
    pub dedup: Seq<(u32, u8)>,
    pub reasm: Seq<EntryModel>,
    pub delivered: Option<(u8, u32, Seq<u8>)>,
    pub relay: Option<FrameModel>,
}

/// The frame a relayer rebroadcasts: the hop budget shrinks by exactly
/// one, everything else — the payload included — is carried unchanged.
pub open spec fn relayed_frame(f: FrameModel) -> FrameModel {
    FrameModel { ttl: (f.ttl - 1) as u8, ..f }
}

/// A fragment header the protocol accepts: at least one fragment in the
/// message, and an index inside the message.
pub open spec fn frame_admissible(f: FrameModel) -> bool {
    1 <= f.tot && f.seq_no < f.tot
}

/// The model of an optional borrowed key.
pub open spec fn key_view(key: Option<&Vec<u8>>) -> Option<Seq<u8>> {
    match key {
        Some(k) => Some(k@),
        None => None,
    }
}

/// One step of the receive path, as a function of the current state and
/// the received bytes.
///
/// A buffer that does not decode, a frame for another topic, an
/// inadmissible fragment header, or a duplicate changes nothing. An
/// accepted fragment is recorded in the dedup window; if a key is set and
/// it does not decrypt, nothing further happens. A decrypted fragment goes
/// to the reassembler, which may complete its message; independently the
/// fragment is scheduled for relay exactly when relaying is on and its hop
/// budget is not exhausted.
pub open spec fn rx_step(
    dedup: Seq<(u32, u8)>,
    reasm: Seq<EntryModel>,
    raw: Seq<u8>,
    topic_filter: Option<u8>,
    relay_on: bool,
    key: Option<Seq<u8>>,
) -> RxStepModel {
    let keep = RxStepModel { dedup, reasm, delivered: None, relay: None };
    match spec_unpack(raw) {
        None => keep,
        Some(f) => {
            let filtered = match topic_filter {
                Some(t) => f.topic != t,
                None => false,
            };
            if filtered {
                keep
            } else if !frame_admissible(f) {
                keep
            } else if spec_seen(dedup, f.msg_id, f.seq_no) {
                keep
            } else {
                let dedup2 = spec_observe(dedup, f.msg_id, f.seq_no);
                let opened = match key {
                    None => Some(f.payload),
                    Some(k) => opened_box(k, spec_nonce(f.msg_id, f.seq_no), f.payload),
                };
                match opened {
                    None => RxStepModel { dedup: dedup2, reasm, delivered: None, relay: None },
                    Some(plain) => {
                        let step = table_step(reasm, f.msg_id, f.topic, f.tot, f.seq_no, plain);
                        RxStepModel {
                            dedup: dedup2,
                            reasm: step.0,
                            delivered: match step.1 {
                                Some(d) => Some((d.0, f.msg_id, d.1)),
                                None => None,
                            },
                            relay: if relay_on && f.ttl > 0 {
                                Some(relayed_frame(f))
                            } else {
                                None
                            },
                        }
                    },
                }
            }
        },
    }
}

impl RxState {
    /// Both tables are well-formed.
    pub open spec fn wf(&self) -> bool {
        self.dedup.wf() && self.reasm.wf()
    }

    /// Fresh receive state: nothing seen, nothing accumulating.
    pub fn new() -> (r: RxState)
        ensures
            r.wf(),
            r.dedup@ == Seq::<(u32, u8)>::empty(),
            r.reasm@ == Seq::<EntryModel>::empty(),
    {
        RxState { dedup: DedupWindow::new(), reasm: ReasmTable::new() }
    }
}

/// Process one received advertisement buffer: the exec receive path,
/// faithful to `rx_step`. The relay delay is drawn uniformly from the
/// jitter window to desynchronise concurrent relayers; everything else is
/// exactly the model's step.
pub fn handle_frame(
    state: &mut RxState,
    raw: &[u8],
    topic_filter: Option<u8>,
    relay_on: bool,
    key: Option<&Vec<u8>>,
) -> (r: RxOutcome)
    requires
        old(state).wf(),
        key matches Some(k) ==> k@.len() == KEY_LEN,
    ensures
        final(state).wf(),
        ({
            let m = rx_step(
                old(state).dedup@,
                old(state).reasm@,
                raw@,
                topic_filter,
                relay_on,
                key_view(key),
            );
            &&& final(state).dedup@ == m.dedup
            &&& final(state).reasm@ == m.reasm
            &&& match (r.delivered, m.delivered) {
                (Some(d), Some(md)) => d.topic == md.0 && d.msg_id == md.1 && d.text@
                    == lossy_utf8(md.2),
                (None, None) => true,
                _ => false,
            }
            &&& match (r.relay, m.relay) {
                (Some(j), Some(mf)) => j.frame@ == mf && RELAY_BACKOFF_MIN_MS <= j.backoff_ms
                    < RELAY_BACKOFF_MAX_MS,
                (None, None) => true,
                _ => false,
            }
        }),
{
    let f = match unpack_frame(raw) {
        Some(f) => f,
        None => {
            return RxOutcome { delivered: None, relay: None };
        },
    };
    if let Some(t) = topic_filter {
        if f.topic != t {
            return RxOutcome { delivered: None, relay: None };
        }
    }
    if f.tot < 1 || f.seq_no >= f.tot {
        return RxOutcome { delivered: None, relay: None };
    }
    let dup = state.dedup.observe(f.msg_id, f.seq_no);
    if dup {
        return RxOutcome { delivered: None, relay: None };
    }
    let plain: Vec<u8> = match key {
        None => {
            let mut p: Vec<u8> = Vec::new();
            p.extend_from_slice(f.payload.as_slice());
            proof {
                assert(p@ =~= f.payload@);
            }
            p
        },
        Some(k) => {
            match decrypt(k.as_slice(), f.msg_id, f.seq_no, f.payload.as_slice()) {
                Some(p) => p,
                None => {
                    return RxOutcome { delivered: None, relay: None };
                },
            }
        },
    };
    let done = state.reasm.insert_fragment(f.msg_id, f.topic, f.tot, f.seq_no, plain);
    let delivered = match done {
        Some(d) => Some(Delivery { topic: d.0, msg_id: f.msg_id, text: lossy_text(&d.1) }),
        None => None,
    };
    let relay = if relay_on && f.ttl > 0 {
        let backoff_ms = rand_in_range(RELAY_BACKOFF_MIN_MS, RELAY_BACKOFF_MAX_MS);
        let g = Frame {
            topic: f.topic,
            ttl: f.ttl - 1,
            msg_id: f.msg_id,
            seq_no: f.seq_no,
            tot: f.tot,
            payload: f.payload,
        };
        Some(RelayJob { frame: g, backoff_ms })
    } else {
        None
    };
    RxOutcome { delivered, relay }
}

/// The frame of an outbound fragment `i` of a message: its payload is
/// chunk `i`, sealed under the key when one is set.
pub open spec fn outbound_frame(
    topic: u8,
    ttl: u8,
    msg_id: u32,
    msg: Seq<u8>,
    key: Option<Seq<u8>>,
    i: int,
) -> FrameModel {
    FrameModel {
        topic,
        ttl,
        msg_id,
        seq_no: i as u8,
        tot: chunk_count(msg.len() as int) as u8,
        payload: match key {
            None => spec_chunk(msg, i),
            Some(k) => sealed_box(k, spec_nonce(msg_id, i as u8), spec_chunk(msg, i)),
        },
    }
}

/// Build the exact byte buffers that advertise one outbound message under
/// a fixed message identifier: the message is split into chunks, each
/// chunk is sealed when a key is set, and each fragment is packed.
pub fn build_message_packets(
    topic: u8,
    ttl: u8,
    msg_id: u32,
    msg: &[u8],
    key: Option<&Vec<u8>>,
) -> (r: Vec<Vec<u8>>)
    requires
        msg@.len() <= MAX_MESSAGE_LEN,
        key matches Some(k) ==> k@.len() == KEY_LEN,
    ensures
        r@.len() == chunk_count(msg@.len() as int),
        forall|i: int|
            0 <= i < r@.len() ==> (#[trigger] r@[i])@ == spec_pack(
                outbound_frame(topic, ttl, msg_id, msg@, key_view(key), i),
            ),
{
    let chunks = chunk_message(msg);
    let n = chunks.len();
    let mut pkts: Vec<Vec<u8>> = Vec::new();
    let mut i: usize = 0;
    while i < n
        invariant
            i <= n,
            n == chunks@.len(),
            n == chunk_count(msg@.len() as int),
            n <= 255,
            msg@.len() <= MAX_MESSAGE_LEN,
            key matches Some(k) ==> k@.len() == KEY_LEN,
            forall|j: int|
                0 <= j < n ==> (#[trigger] chunks@[j]).0 == j as u8 && chunks@[j].1 == n as u8
                    && chunks@[j].2@ == spec_chunk(msg@, j),
            pkts@.len() == i,
            forall|j: int|
                0 <= j < i ==> (#[trigger] pkts@[j])@ == spec_pack(
                    outbound_frame(topic, ttl, msg_id, msg@, key_view(key), j),
                ),
        decreases n - i,
    {
        let seq_no = chunks[i].0;
        let tot = chunks[i].1;
        let payload: Vec<u8> = match key {
            None => {
                let mut p: Vec<u8> = Vec::new();
                p.extend_from_slice(chunks[i].2.as_slice());
                proof {
                    assert(p@ =~= chunks@[i as int].2@);
                }
                p
            },
            Some(k) => {
                assert(chunks@[i as int].2@.len() <= MAX_PLAINTEXT_LEN);
                encrypt(k.as_slice(), msg_id, seq_no, chunks[i].2.as_slice())
            },
        };
        let fr = Frame { topic, ttl, msg_id, seq_no, tot, payload };
        proof {
            assert(fr@ =~= outbound_frame(topic, ttl, msg_id, msg@, key_view(key), i as int));
        }
        pkts.push(pack_frame(&fr));
        i = i + 1;
    }
    pkts
}

/// Fragment and pack one outbound message under a fresh random message
/// identifier, returning the identifier and the buffers to advertise in
/// order. The identifier is whatever the random source produced; the
/// buffers are exactly `build_message_packets` of it.
pub fn prepare_message(topic: u8, ttl: u8, msg: &[u8], key: Option<&Vec<u8>>) -> (r: (
    u32,
    Vec<Vec<u8>>,
))
    requires
        msg@.len() <= MAX_MESSAGE_LEN,
        key matches Some(k) ==> k@.len() == KEY_LEN,
    ensures
        r.1@.len() == chunk_count(msg@.len() as int),
        forall|i: int|
            0 <= i < r.1@.len() ==> (#[trigger] r.1@[i])@ == spec_pack(
                outbound_frame(topic, ttl, r.0, msg@, key_view(key), i),
            ),
{
    let msg_id = random_msg_id();
    let pkts = build_message_packets(topic, ttl, msg_id, msg, key);
    (msg_id, pkts)
}

/// Delivering the same buffer twice in a row is inert: whatever the first
/// step did, the second changes no state, delivers nothing and schedules
/// no relay. In particular a duplicate fragment contributes to reassembly
/// at most once and is relayed at most once.
pub proof fn lemma_duplicate_fragment_inert(
    dedup: Seq<(u32, u8)>,
    reasm: Seq<EntryModel>,
    raw: Seq<u8>,
    topic_filter: Option<u8>,
    relay_on: bool,
    key: Option<Seq<u8>>,
)
    ensures
        ({
            let m1 = rx_step(dedup, reasm, raw, topic_filter, relay_on, key);
            let m2 = rx_step(m1.dedup, m1.reasm, raw, topic_filter, relay_on, key);
            &&& m2.dedup == m1.dedup
            &&& m2.reasm == m1.reasm
            &&& m2.delivered is None
            &&& m2.relay is None
        }),
{
    match spec_unpack(raw) {
        None => {},
        Some(f) => {
            if !spec_seen(dedup, f.msg_id, f.seq_no) {
                lemma_observed_pair_is_seen(dedup, f.msg_id, f.seq_no);
            }
        },
    }
}

/// A frame for another topic is dropped before any state is touched:
/// nothing is recorded, delivered or relayed.
pub proof fn lemma_topic_filter_drops(
    dedup: Seq<(u32, u8)>,
    reasm: Seq<EntryModel>,
    raw: Seq<u8>,
    t: u8,
    relay_on: bool,
    key: Option<Seq<u8>>,
)
    requires
        spec_unpack(raw) is Some,
        spec_unpack(raw)->Some_0.topic != t,
    ensures
        ({
            let m = rx_step(dedup, reasm, raw, Some(t), relay_on, key);
            &&& m.dedup == dedup
            &&& m.reasm == reasm
            &&& m.delivered is None
            &&& m.relay is None
        }),
{
}

/// A fragment whose hop budget is exhausted is still accepted locally —
/// it can complete a message — but is never scheduled for relay: the
/// flood's termination condition.
pub proof fn lemma_ttl_zero_never_relays(
    dedup: Seq<(u32, u8)>,
    reasm: Seq<EntryModel>,
    raw: Seq<u8>,
    topic_filter: Option<u8>,
    relay_on: bool,
    key: Option<Seq<u8>>,
)
    requires
        spec_unpack(raw) is Some,
        spec_unpack(raw)->Some_0.ttl == 0,
    ensures
        rx_step(dedup, reasm, raw, topic_filter, relay_on, key).relay is None,
{
}

/// Whatever a receive step relays is the received frame with its hop
/// budget reduced by exactly one and its payload — the ciphertext —
/// unchanged; and only a frame with a positive budget is relayed.
pub proof fn lemma_relay_decrements_ttl(
    dedup: Seq<(u32, u8)>,
    reasm: Seq<EntryModel>,
    raw: Seq<u8>,
    topic_filter: Option<u8>,
    relay_on: bool,
    key: Option<Seq<u8>>,
)
    ensures
        ({
            let m = rx_step(dedup, reasm, raw, topic_filter, relay_on, key);
            m.relay matches Some(g) ==> {
                let f = spec_unpack(raw)->Some_0;
                &&& spec_unpack(raw) is Some
                &&& f.ttl > 0
                &&& g == relayed_frame(f)
                &&& g.ttl == f.ttl - 1
                &&& g.payload == f.payload
            }
        }),
{
}

/// A fragment that does not decrypt has the same caller-visible effect as
/// a malformed one: nothing is delivered and nothing is relayed, and the
/// reassembly table is untouched; only the dedup window remembers the
/// fragment's identity.
pub proof fn lemma_decrypt_failure_drops(
    dedup: Seq<(u32, u8)>,
    reasm: Seq<EntryModel>,
    raw: Seq<u8>,
    topic_filter: Option<u8>,
    relay_on: bool,
    k: Seq<u8>,
)
    requires
        ({
            let f = spec_unpack(raw)->Some_0;
            spec_unpack(raw) is Some && opened_box(k, spec_nonce(f.msg_id, f.seq_no), f.payload)
                is None
        }),
    ensures
        ({
            let m = rx_step(dedup, reasm, raw, topic_filter, relay_on, Some(k));
            &&& m.reasm == reasm
            &&& m.delivered is None
            &&& m.relay is None
        }),
{
}

/// The frame after `k` successful relay hops, if a `k`-th hop is possible
/// at all: each hop requires a positive budget and spends one unit of it.
pub open spec fn after_relays(f: FrameModel, k: nat) -> Option<FrameModel>
    decreases k,
{
    if k == 0 {
        Some(f)
    } else {
        match after_relays(f, (k - 1) as nat) {
            Some(g) => if g.ttl > 0 {
                Some(relayed_frame(g))
            } else {
                None
            },
            None => None,
        }
    }
}

/// TTL monotonicity and flood termination: a fragment relayed `k` times
/// has its budget reduced by exactly `k` and everything else unchanged,
/// and no chain of relays can be longer than the initial budget.
pub proof fn lemma_relay_chain_bounded(f: FrameModel, k: nat)
    ensures
        (after_relays(f, k) matches Some(g) ==> k <= f.ttl && g == (FrameModel {
            ttl: (f.ttl - k) as u8,
            ..f
        })),
        (k > f.ttl ==> after_relays(f, k) is None),
    decreases k,
{
    if k > 0 {
        lemma_relay_chain_bounded(f, (k - 1) as nat);
    }
}

} // verus!

//! Dedup window: a bounded, insertion-ordered history of `(msg_id, seq)`
//! pairs already processed. A pair that is present again is reported as a
//! duplicate and dropped by the caller; once the window is at capacity the
//! oldest pair is evicted first.

use vstd::prelude::*;

verus! {

/// Fixed capacity of the dedup window.
pub const DEDUP_CAPACITY: usize = 2048;

/// Bounded FIFO of recently observed `(msg_id, seq)` fragment identities.
pub struct DedupWindow {
    seen: Vec<(u32, u8)>,
}

impl View for DedupWindow {
    type V = Seq<(u32, u8)>;

    closed spec fn view(&self) -> Seq<(u32, u8)> {
        self.seen@
    }
}

/// Whether the window holds the pair `(msg_id, seq_no)`.
pub open spec fn spec_seen(w: Seq<(u32, u8)>, msg_id: u32, seq_no: u8) -> bool {
    exists|k: int| 0 <= k < w.len() && w[k] == (msg_id, seq_no)
}

/// The window after observing a pair: unchanged if the pair is already
/// present; otherwise the pair is appended, after evicting the oldest entry
/// if the window is full.
pub open spec fn spec_observe(w: Seq<(u32, u8)>, msg_id: u32, seq_no: u8) -> Seq<(u32, u8)> {
    if spec_seen(w, msg_id, seq_no) {
        w
    } else if w.len() >= DEDUP_CAPACITY {
        w.drop_first().push((msg_id, seq_no))
    } else {
        w.push((msg_id, seq_no))
    }
}

impl DedupWindow {
    /// The window never exceeds its capacity.
    pub open spec fn wf(&self) -> bool {
        self@.len() <= DEDUP_CAPACITY
    }

    /// An empty window.
    pub fn new() -> (r: DedupWindow)
        ensures
            r.wf(),
            r@ == Seq::<(u32, u8)>::empty(),
    {
        let r = DedupWindow { seen: Vec::new() };
        proof {
            assert(r@ =~= Seq::<(u32, u8)>::empty());
        }
        r
    }

    /// Report whether `(msg_id, seq_no)` was already observed, and record it
    /// if it was not; a full window evicts its oldest pair to make room.
    pub fn observe(&mut self, msg_id: u32, seq_no: u8) -> (dup: bool)
        requires
            old(self).wf(),
        ensures
            final(self).wf(),
            dup == spec_seen(old(self)@, msg_id, seq_no),
            final(self)@ == spec_observe(old(self)@, msg_id, seq_no),
    {
        let n = self.seen.len();
        let mut k: usize = 0;
        while k < n
            invariant
                k <= n,
                n == self@.len(),
                self.wf(),
                forall|j: int| 0 <= j < k ==> self@[j] != (msg_id, seq_no),
                *self == *old(self),
            decreases n - k,
        {
            let p = self.seen[k];
            if p.0 == msg_id && p.1 == seq_no {
                assert(self@[k as int] == (msg_id, seq_no));
                return true;
            }
            k = k + 1;
        }
        assert(!spec_seen(self@, msg_id, seq_no));
        if self.seen.len() >= DEDUP_CAPACITY {
            self.seen.remove(0);
        }
        self.seen.push((msg_id, seq_no));
        proof {
            assert(self@ =~= spec_observe(old(self)@, msg_id, seq_no));
        }
        false
    }
}

/// After a pair is observed it is present in the window, whatever was
/// evicted to make room: a second delivery of the same fragment is always
/// recognised as a duplicate.
pub proof fn lemma_observed_pair_is_seen(w: Seq<(u32, u8)>, msg_id: u32, seq_no: u8)
    ensures
        spec_seen(spec_observe(w, msg_id, seq_no), msg_id, seq_no),
{
    if !spec_seen(w, msg_id, seq_no) {
        let w2 = spec_observe(w, msg_id, seq_no);
        assert(w2[w2.len() - 1] == (msg_id, seq_no));
    }
}

/// Observing a pair that is already present leaves the window unchanged.
pub proof fn lemma_observe_idempotent(w: Seq<(u32, u8)>, msg_id: u32, seq_no: u8)
    requires
        spec_seen(w, msg_id, seq_no),
    ensures
        spec_observe(w, msg_id, seq_no) == w,
{
}

} // verus!

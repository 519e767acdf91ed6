//! Reassembler: accumulates fragments by message identifier until an entry
//! holds all `tot` parts, then yields the reconstructed message exactly once
//! and deletes the entry. The table is bounded: when it is full, the oldest
//! incomplete entry is evicted to keep memory finite under hostile traffic.

use vstd::prelude::*;
use crate::fragment::{chunk_count, spec_chunk, concat_chunks, MAX_MESSAGE_LEN};

verus! {

/// Most messages the table reassembles at once; beyond it the oldest
/// incomplete entry is evicted.
pub const REASM_CAPACITY: usize = 64;

/// Mathematical model of one reassembly entry: the fragments recovered so
/// far for one message, indexed by fragment number.
#[verifier::ext_equal]
pub ghost struct EntryModel {
    pub msg_id: u32,
    pub topic: u8,
    pub tot: u8,
    pub parts: Seq<Option<Seq<u8>>>,
}

/// An entry holds one slot per expected fragment.
pub open spec fn entry_wf(e: EntryModel) -> bool {
    1 <= e.tot && e.parts.len() == e.tot as int
}

/// An entry is complete when every fragment has arrived.
pub open spec fn entry_complete(e: EntryModel) -> bool {
    forall|i: int| 0 <= i < e.parts.len() ==> (#[trigger] e.parts[i]) is Some
}

/// The first `n` recovered parts, concatenated in fragment order; a missing
/// part contributes nothing.
pub open spec fn cat_parts(parts: Seq<Option<Seq<u8>>>, n: int) -> Seq<u8>
    decreases n,
{
    if n <= 0 {
        Seq::empty()
    } else {
        cat_parts(parts, n - 1) + match parts[n - 1] {
            Some(p) => p,
            None => Seq::empty(),
        }
    }
}

/// The message a complete entry reconstructs: all parts in fragment order.
pub open spec fn assembled(e: EntryModel) -> Seq<u8> {
    cat_parts(e.parts, e.parts.len() as int)
}

/// Index of the entry for `msg_id`, or -1 if the table has none.
pub open spec fn find_entry(t: Seq<EntryModel>, msg_id: u32) -> int
    decreases t.len(),
{
    if t.len() == 0 {
        -1
    } else if t[0].msg_id == msg_id {
        0
    } else {
        let r = find_entry(t.drop_first(), msg_id);
        if r < 0 {
            -1
        } else {
            r + 1
        }
    }
}

/// The table holds well-formed entries with pairwise distinct message
/// identifiers, and never more than `REASM_CAPACITY` of them.
pub open spec fn table_wf(t: Seq<EntryModel>) -> bool {
    &&& t.len() <= REASM_CAPACITY
    &&& forall|i: int| 0 <= i < t.len() ==> entry_wf(#[trigger] t[i])
    &&& forall|i: int, j: int|
        0 <= i < j < t.len() ==> (#[trigger] t[i]).msg_id != (#[trigger] t[j]).msg_id
}

/// The table after one fragment is inserted, and the reconstructed message
/// it yields, if the fragment completed its entry.
///
/// A fragment for a known message whose index is outside the entry's
/// expected range (a forged or inconsistent `tot`) is dropped. A fragment
/// that opens a fresh single-fragment message is delivered at once and
/// never stored. A fresh multi-fragment message claims a new entry,
/// evicting the oldest one when the table is full.
pub open spec fn table_step(
    t: Seq<EntryModel>,
    msg_id: u32,
    topic: u8,
    tot: u8,
    seq_no: u8,
    payload: Seq<u8>,
) -> (Seq<EntryModel>, Option<(u8, Seq<u8>)>) {
    let i = find_entry(t, msg_id);
    if i >= 0 {
        let e = t[i];
        if seq_no >= e.tot {
            (t, None)
        } else {
            let e2 = EntryModel { parts: e.parts.update(seq_no as int, Some(payload)), ..e };
            if entry_complete(e2) {
                (t.remove(i), Some((e.topic, assembled(e2))))
            } else {
                (t.update(i, e2), None)
            }
        }
    } else {
        if tot == 1 {
            (t, Some((topic, payload)))
        } else {
            let parts0 = Seq::new(tot as nat, |j: int| None::<Seq<u8>>).update(
                seq_no as int,
                Some(payload),
            );
            let e0 = EntryModel { msg_id, topic, tot, parts: parts0 };
            let t1 = if t.len() >= REASM_CAPACITY {
                t.drop_first()
            } else {
                t
            };
            (t1.push(e0), None)
        }
    }
}

/// One in-progress reassembly: the fragments recovered so far for one
/// message identifier.
pub struct ReasmEntry {
    pub msg_id: u32,
    pub topic: u8,
    pub tot: u8,
    pub parts: Vec<Option<Vec<u8>>>,
}

/// The model of a vector of optional parts.
pub open spec fn parts_view(ps: Seq<Option<Vec<u8>>>) -> Seq<Option<Seq<u8>>> {
    ps.map_values(
        |p: Option<Vec<u8>>|
            match p {
                Some(v) => Some(v@),
                None => None,
            },
    )
}

impl View for ReasmEntry {
    type V = EntryModel;

    open spec fn view(&self) -> EntryModel {
        EntryModel {
            msg_id: self.msg_id,
            topic: self.topic,
            tot: self.tot,
            parts: parts_view(self.parts@),
        }
    }
}

/// The reassembly table, keyed by message identifier.
pub struct ReasmTable {
    entries: Vec<ReasmEntry>,
}

impl View for ReasmTable {
    type V = Seq<EntryModel>;

    closed spec fn view(&self) -> Seq<EntryModel> {
        self.entries@.map_values(|e: ReasmEntry| e@)
    }
}

/// If no entry before `k` matches and the entry at `k` does, the search
/// finds `k`.
proof fn lemma_find_entry_at(t: Seq<EntryModel>, msg_id: u32, k: int)
    requires
        0 <= k < t.len(),
        forall|j: int| 0 <= j < k ==> (#[trigger] t[j]).msg_id != msg_id,
        t[k].msg_id == msg_id,
    ensures
        find_entry(t, msg_id) == k,
    decreases k,
{
    if k > 0 {
        lemma_find_entry_at(t.drop_first(), msg_id, k - 1);
    }
}

/// If no entry matches, the search reports -1.
proof fn lemma_find_entry_none(t: Seq<EntryModel>, msg_id: u32)
    requires
        forall|j: int| 0 <= j < t.len() ==> (#[trigger] t[j]).msg_id != msg_id,
    ensures
        find_entry(t, msg_id) == -1,
    decreases t.len(),
{
    if t.len() > 0 {
        lemma_find_entry_none(t.drop_first(), msg_id);
    }
}

/// Whether every fragment of this entry has arrived.
fn entry_is_complete(e: &ReasmEntry) -> (r: bool)
    ensures
        r == entry_complete(e@),
{
    let n = e.parts.len();
    let mut j: usize = 0;
    while j < n
        invariant
            j <= n,
            n == e.parts@.len(),
            forall|i: int| 0 <= i < j ==> (#[trigger] e@.parts[i]) is Some,
        decreases n - j,
    {
        let p = &e.parts[j];
        match p {
            Some(_) => {
                assert(e@.parts[j as int] is Some);
            },
            None => {
                assert(e@.parts[j as int] is None);
                return false;
            },
        }
        j = j + 1;
    }
    true
}

/// Concatenate the parts of a complete entry in fragment order.
fn assemble(e: &ReasmEntry) -> (r: Vec<u8>)
    requires
        entry_complete(e@),
    ensures
        r@ == assembled(e@),
{
    let n = e.parts.len();
    let mut out: Vec<u8> = Vec::new();
    let mut j: usize = 0;
    while j < n
        invariant
            j <= n,
            n == e.parts@.len(),
            entry_complete(e@),
            out@ == cat_parts(e@.parts, j as int),
        decreases n - j,
    {
        match &e.parts[j] {
            Some(p) => {
                out.extend_from_slice(p.as_slice());
                assert(e@.parts[j as int] == Some(p@));
            },
            None => {
                assert(e@.parts[j as int] is Some);
                assert(false);
            },
        }
        j = j + 1;
    }
    out
}

impl ReasmTable {
    /// The table's invariant.
    pub open spec fn wf(&self) -> bool {
        table_wf(self@)
    }

    /// An empty table.
    pub fn new() -> (r: ReasmTable)
        ensures
            r.wf(),
            r@ == Seq::<EntryModel>::empty(),
    {
        let r = ReasmTable { entries: Vec::new() };
        proof {
            assert(r@ =~= Seq::<EntryModel>::empty());
        }
        r
    }

    /// Insert one recovered fragment. Returns the originating topic and the
    /// reconstructed message bytes exactly when this fragment completed its
    /// message; the completed entry is deleted in the same step.
    pub fn insert_fragment(
        &mut self,
        msg_id: u32,
        topic: u8,
        tot: u8,
        seq_no: u8,
        payload: Vec<u8>,
    ) -> (r: Option<(u8, Vec<u8>)>)
        requires
            old(self).wf(),
            1 <= tot,
            seq_no < tot,
        ensures
            final(self).wf(),
            ({
                let (t2, out) = table_step(old(self)@, msg_id, topic, tot, seq_no, payload@);
                &&& final(self)@ == t2
                &&& match (r, out) {
                    (Some(d), Some(o)) => d.0 == o.0 && d.1@ == o.1,
                    (None, None) => true,
                    _ => false,
                }
            }),
    {
        let ghost t0 = self@;
        let n = self.entries.len();
        let mut k: usize = 0;
        let mut found = false;
        while k < n
            invariant_except_break
                !found,
            invariant
                k <= n,
                n == self@.len(),
                self.wf(),
                *self == *old(self),
                forall|j: int| 0 <= j < k ==> (#[trigger] self@[j]).msg_id != msg_id,
            ensures
                k <= n,
                n == self@.len(),
                self.wf(),
                *self == *old(self),
                forall|j: int| 0 <= j < k ==> (#[trigger] self@[j]).msg_id != msg_id,
                found ==> k < n && self@[k as int].msg_id == msg_id,
                !found ==> k == n,
            decreases n - k,
        {
            if self.entries[k].msg_id == msg_id {
                assert(self@[k as int].msg_id == msg_id);
                found = true;
                break;
            }
            assert(self@[k as int].msg_id != msg_id);
            k = k + 1;
        }
        if found {
            proof {
                lemma_find_entry_at(t0, msg_id, k as int);
            }
            let mut ent = self.entries.remove(k);
            if seq_no >= ent.tot {
                self.entries.insert(k, ent);
                proof {
                    assert(self@ =~= t0);
                }
                return None;
            }
            let ghost e2 = EntryModel {
                parts: t0[k as int].parts.update(seq_no as int, Some(payload@)),
                ..t0[k as int]
            };
            ent.parts.set(seq_no as usize, Some(payload));
            proof {
                assert(ent@.parts =~= e2.parts);
                assert(ent@ =~= e2);
            }
            if entry_is_complete(&ent) {
                let bytes = assemble(&ent);
                proof {
                    assert(self@ =~= t0.remove(k as int));
                }
                return Some((ent.topic, bytes));
            } else {
                self.entries.insert(k, ent);
                proof {
                    assert(self@ =~= t0.update(k as int, e2));
                }
                return None;
            }
        }
        proof {
            lemma_find_entry_none(t0, msg_id);
        }
        if tot == 1 {
            return Some((topic, payload));
        }
        let mut parts: Vec<Option<Vec<u8>>> = Vec::new();
        let mut j: usize = 0;
        let tot_usize: usize = tot as usize;
        while j < tot_usize
            invariant
                j <= tot_usize,
                parts@.len() == j,
                forall|i: int| 0 <= i < j ==> (#[trigger] parts@[i]) is None,
            decreases tot_usize - j,
        {
            parts.push(None);
            j = j + 1;
        }
        parts.set(seq_no as usize, Some(payload));
        let e0 = ReasmEntry { msg_id, topic, tot, parts };
        proof {
            let parts0 = Seq::new(tot as nat, |i: int| None::<Seq<u8>>).update(
                seq_no as int,
                Some(payload@),
            );
            assert(e0@.parts =~= parts0);
            assert(e0@ =~= EntryModel { msg_id, topic, tot, parts: parts0 });
        }
        if self.entries.len() >= REASM_CAPACITY {
            self.entries.remove(0);
            self.entries.push(e0);
            proof {
                assert(self@ =~= t0.drop_first().push(e0@));
            }
        } else {
            self.entries.push(e0);
            proof {
                assert(self@ =~= t0.push(e0@));
            }
        }
        None
    }
}

/// `cat_parts` over parts that each hold chunk `i` of a message equals the
/// concatenation of the message's first `n` chunks.
proof fn lemma_cat_parts_of_chunks(b: Seq<u8>, parts: Seq<Option<Seq<u8>>>, n: int)
    requires
        0 <= n <= parts.len(),
        forall|i: int| 0 <= i < parts.len() ==> #[trigger] parts[i] == Some(spec_chunk(b, i)),
    ensures
        cat_parts(parts, n) == concat_chunks(b, n),
    decreases n,
{
    if n > 0 {
        lemma_cat_parts_of_chunks(b, parts, n - 1);
    }
}

/// Reassembly identity: a complete entry whose parts are exactly the chunks
/// of a message `b` — in whatever order they arrived — reconstructs `b`.
pub proof fn lemma_reassembles_message(b: Seq<u8>, e: EntryModel)
    requires
        e.parts.len() == chunk_count(b.len() as int),
        forall|i: int| 0 <= i < e.parts.len() ==> #[trigger] e.parts[i] == Some(spec_chunk(b, i)),
    ensures
        assembled(e) == b,
{
    lemma_cat_parts_of_chunks(b, e.parts, e.parts.len() as int);
    crate::fragment::lemma_chunks_reassemble(b);
}

/// A delivery order: each fragment index of a `tot`-fragment message
/// exactly once, in any order.
pub open spec fn is_delivery_order(order: Seq<int>, tot: int) -> bool {
    &&& order.len() == tot
    &&& forall|i: int| 0 <= i < tot ==> 0 <= #[trigger] order[i] < tot
    &&& forall|i: int, j: int| 0 <= i < j < tot ==> #[trigger] order[i] != #[trigger] order[j]
    &&& forall|v: int| 0 <= v < tot ==> order.contains(v)
}

/// The table and delivery after the first `n` fragments of message `b`
/// arrive in the given order, starting from table `t`.
pub open spec fn run_inserts(
    t: Seq<EntryModel>,
    b: Seq<u8>,
    msg_id: u32,
    topic: u8,
    order: Seq<int>,
    n: int,
) -> (Seq<EntryModel>, Option<(u8, Seq<u8>)>)
    decreases n,
{
    if n <= 0 {
        (t, None)
    } else {
        let prev = run_inserts(t, b, msg_id, topic, order, n - 1).0;
        table_step(
            prev,
            msg_id,
            topic,
            chunk_count(b.len() as int) as u8,
            order[n - 1] as u8,
            spec_chunk(b, order[n - 1]),
        )
    }
}

/// While fragments are still missing, the table holds exactly one entry
/// for the message, filled at precisely the indices that have arrived,
/// and nothing has been delivered.
proof fn lemma_run_inserts_partial(
    b: Seq<u8>,
    msg_id: u32,
    topic: u8,
    order: Seq<int>,
    n: int,
)
    requires
        b.len() <= MAX_MESSAGE_LEN as int,
        is_delivery_order(order, chunk_count(b.len() as int)),
        1 <= n < chunk_count(b.len() as int),
    ensures
        ({
            let tot = chunk_count(b.len() as int);
            let r = run_inserts(Seq::empty(), b, msg_id, topic, order, n);
            &&& r.1 is None
            &&& r.0.len() == 1
            &&& r.0[0].msg_id == msg_id
            &&& r.0[0].topic == topic
            &&& r.0[0].tot == tot as u8
            &&& r.0[0].parts.len() == tot
            &&& forall|j: int|
                0 <= j < tot ==> #[trigger] r.0[0].parts[j] == (if order.take(n).contains(j) {
                    Some(spec_chunk(b, j))
                } else {
                    None::<Seq<u8>>
                })
        }),
    decreases n,
{
    let tot = chunk_count(b.len() as int);
    assert(tot <= 255) by (nonlinear_arith)
        requires
            tot == chunk_count(b.len() as int),
            0 <= b.len() <= MAX_MESSAGE_LEN as int,
    ;
    let last = order[tot - 1];
    if n == 1 {
        let s = order[0];
        let parts0 = Seq::new(tot as nat, |j: int| None::<Seq<u8>>).update(
            s,
            Some(spec_chunk(b, s)),
        );
        let e0 = EntryModel { msg_id, topic, tot: tot as u8, parts: parts0 };
        // tot >= 2 here, so the fragment arriving last is still missing.
        assert(last != s);
        assert(parts0[last] is None);
        assert(!entry_complete(e0));
        let r = run_inserts(Seq::empty(), b, msg_id, topic, order, 1);
        assert(r.0 =~= Seq::empty().push(e0));
        assert(order.take(1).contains(s)) by {
            assert(order.take(1)[0] == s);
        }
        assert forall|j: int| 0 <= j < tot && j != s implies !(#[trigger] order.take(
            1,
        ).contains(j)) by {
            if order.take(1).contains(j) {
                let i = choose|i: int| 0 <= i < order.take(1).len() && #[trigger] order.take(1)[i] == j;
                assert(i == 0);
                assert(false);
            }
        }
    } else {
        lemma_run_inserts_partial(b, msg_id, topic, order, n - 1);
        let prev = run_inserts(Seq::empty(), b, msg_id, topic, order, n - 1).0;
        let s = order[n - 1];
        let e = prev[0];
        // The new fragment had not arrived yet.
        assert(!order.take(n - 1).contains(s)) by {
            if order.take(n - 1).contains(s) {
                let i = choose|i: int|
                    0 <= i < order.take(n - 1).len() && #[trigger] order.take(n - 1)[i] == s;
                assert(order[i] == order[n - 1] && i < n - 1);
                assert(false);
            }
        }
        assert(e.parts[s] is None);
        let e2 = EntryModel { parts: e.parts.update(s, Some(spec_chunk(b, s))), ..e };
        // The fragment arriving last is still missing, so no delivery yet.
        assert(!order.take(n).contains(last)) by {
            if order.take(n).contains(last) {
                let i = choose|i: int| 0 <= i < order.take(n).len() && #[trigger] order.take(n)[i] == last;
                assert(order[i] == order[tot - 1] && i < n <= tot - 1);
                assert(false);
            }
        }
        assert(e2.parts[last] is None);
        assert(!entry_complete(e2));
        let r = run_inserts(Seq::empty(), b, msg_id, topic, order, n);
        assert(r.0 =~= prev.update(0, e2));
        assert forall|j: int| 0 <= j < tot implies #[trigger] r.0[0].parts[j] == (if order.take(
            n,
        ).contains(j) {
            Some(spec_chunk(b, j))
        } else {
            None::<Seq<u8>>
        }) by {
            if j == s {
                assert(order.take(n)[n - 1] == j);
                assert(order.take(n).contains(j));
            } else {
                if order.take(n - 1).contains(j) {
                    let i = choose|i: int|
                        0 <= i < order.take(n - 1).len() && #[trigger] order.take(n - 1)[i] == j;
                    assert(order.take(n)[i] == j);
                    assert(order.take(n).contains(j));
                }
                if order.take(n).contains(j) {
                    let i = choose|i: int|
                        0 <= i < order.take(n).len() && #[trigger] order.take(n)[i] == j;
                    assert(i != n - 1);
                    assert(order.take(n - 1)[i] == j);
                    assert(order.take(n - 1).contains(j));
                }
                assert(e2.parts[j] == e.parts[j]);
            }
        }
    }
}

/// Reassembly in any delivery order: starting from an empty table, feeding
/// every fragment of a message exactly once, in whatever order, delivers
/// the message exactly — and exactly once, at the final fragment, after
/// which the entry is gone.
pub proof fn lemma_any_order_reassembles(b: Seq<u8>, msg_id: u32, topic: u8, order: Seq<int>)
    requires
        b.len() <= MAX_MESSAGE_LEN as int,
        is_delivery_order(order, chunk_count(b.len() as int)),
    ensures
        ({
            let tot = chunk_count(b.len() as int);
            let r = run_inserts(Seq::empty(), b, msg_id, topic, order, tot);
            &&& r.1 == Some((topic, b))
            &&& r.0 == Seq::<EntryModel>::empty()
            &&& forall|n: int| 1 <= n < tot ==> (#[trigger] run_inserts(
                Seq::empty(),
                b,
                msg_id,
                topic,
                order,
                n,
            )).1 is None
        }),
{
    let tot = chunk_count(b.len() as int);
    assert(tot <= 255) by (nonlinear_arith)
        requires
            tot == chunk_count(b.len() as int),
            0 <= b.len() <= MAX_MESSAGE_LEN as int,
    ;
    assert(forall|n: int| 1 <= n < tot ==> (#[trigger] run_inserts(
        Seq::empty(),
        b,
        msg_id,
        topic,
        order,
        n,
    )).1 is None) by {
        assert forall|n: int| 1 <= n < tot implies (#[trigger] run_inserts(
            Seq::empty(),
            b,
            msg_id,
            topic,
            order,
            n,
        )).1 is None by {
            lemma_run_inserts_partial(b, msg_id, topic, order, n);
        }
    }
    if tot == 1 {
        let s = order[0];
        assert(s == 0);
        let r0 = run_inserts(Seq::empty(), b, msg_id, topic, order, 0);
        assert(r0.0 == Seq::<EntryModel>::empty());
        assert(find_entry(Seq::empty(), msg_id) == -1);
        let r = run_inserts(Seq::empty(), b, msg_id, topic, order, 1);
        assert(spec_chunk(b, 0) =~= b);
        assert(r.1 == Some((topic, b)));
        assert(r.0 =~= Seq::<EntryModel>::empty());
    } else {
        lemma_run_inserts_partial(b, msg_id, topic, order, tot - 1);
        let prev = run_inserts(Seq::empty(), b, msg_id, topic, order, tot - 1).0;
        let s = order[tot - 1];
        let e = prev[0];
        assert(!order.take(tot - 1).contains(s));
        assert(e.parts[s] is None);
        let e2 = EntryModel { parts: e.parts.update(s, Some(spec_chunk(b, s))), ..e };
        // Every index has now arrived: each is either an earlier fragment
        // or this last one.
        assert(forall|j: int| 0 <= j < tot ==> #[trigger] e2.parts[j] == Some(spec_chunk(b, j)))
            by {
            assert forall|j: int| 0 <= j < tot implies #[trigger] e2.parts[j] == Some(
                spec_chunk(b, j),
            ) by {
                if j != s {
                    assert(order.contains(j));
                    let i = choose|i: int| 0 <= i < order.len() && #[trigger] order[i] == j;
                    assert(i != tot - 1);
                    assert(order.take(tot - 1)[i] == j);
                    assert(order.take(tot - 1).contains(j));
                }
            }
        }
        assert(entry_complete(e2));
        lemma_reassembles_message(b, e2);
        let r = run_inserts(Seq::empty(), b, msg_id, topic, order, tot);
        assert(r.0 =~= Seq::<EntryModel>::empty());
        assert(r.1 == Some((topic, b)));
    }
}

/// When the one missing chunk of a message arrives — whatever order the
/// others came in — the entry completes and reconstructs the message
/// exactly.
pub proof fn lemma_final_fragment_completes(b: Seq<u8>, e: EntryModel, seq_no: u8)
    requires
        entry_wf(e),
        e.tot as int == chunk_count(b.len() as int),
        seq_no < e.tot,
        forall|j: int|
            0 <= j < e.parts.len() && j != seq_no as int ==> #[trigger] e.parts[j] == Some(
                spec_chunk(b, j),
            ),
    ensures
        ({
            let e2 = EntryModel {
                parts: e.parts.update(seq_no as int, Some(spec_chunk(b, seq_no as int))),
                ..e
            };
            entry_complete(e2) && assembled(e2) == b
        }),
{
    let e2 = EntryModel {
        parts: e.parts.update(seq_no as int, Some(spec_chunk(b, seq_no as int))),
        ..e
    };
    assert(forall|j: int|
        0 <= j < e2.parts.len() ==> #[trigger] e2.parts[j] == Some(spec_chunk(b, j)));
    lemma_reassembles_message(b, e2);
}

} // verus!

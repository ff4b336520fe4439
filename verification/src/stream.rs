//! The protocol automaton of an established SUTP connection.
//!
//! `SutpStream` holds the state of one connection: the sequence numbers, the
//! set of NAKed sequence numbers, the reorder window for incoming segments,
//! the unacknowledged outgoing segments, and the read and write buffers.
//! Its methods are the decisions of the protocol; moving segments to and
//! from the network and keeping time are left to the caller, who hands in
//! what arrived and which timers have elapsed.

use crate::chunk;
use crate::chunk::{Chunk, ChunkView, CompressionAlgorithm};
use crate::segment;
use crate::segment::{Segment, SegmentBuilder, SegmentView};
use crate::window;
use crate::window::{Window, WindowView};
use std::collections::{BTreeMap, BTreeSet};
use vstd::prelude::*;
use vstd::slice::slice_to_vec;
use vstd::slice::SliceAdditionalExecFns;
use vstd::std_specs::cmp::OrdSpec;
use vstd::std_specs::iter::IteratorSpec;

verus! {

/// The size of the receiving and sending buffers (1 MiB).
pub const BUF_SIZE: usize = 1048576;

/// The size of outgoing payload chunks (1 KiB).
pub const OUTGOING_PAYLOAD_SIZE: usize = 1024;

/// The number of slots of the reorder window: `BUF_SIZE / OUTGOING_PAYLOAD_SIZE`.
pub const ORDER_BUF_CAPACITY: usize = 1024;

/// The largest NAK list a SACK chunk can carry in its 16-bit length field.
pub const MAX_NAKS: usize = 16382;

/// States of the protocol automaton after the connection has been established.
#[derive(Copy, Clone, Debug, Eq, Hash, PartialEq, Structural)]
pub enum StreamState {
    /// The connection is open and full-duplex transport is possible.
    Open,
    /// A FIN chunk has been sent and the sending side has been closed.
    FinSent,
    /// A FIN chunk was received and the receiving side has been closed.
    ///
    /// Already-buffered data can still be read.
    FinRecvd,
    /// A FIN chunk has been received, and we are currently sending out our own.
    LastBreath,
    /// The connection is closed and no further data can be sent.
    Closed,
}

/// The errors of stream operations.
#[derive(Copy, Clone, Debug, Eq, Hash, PartialEq, Structural)]
pub enum StreamError {
    /// The stream is in no state for the operation.
    NotConnected,
    /// The channel to the background driver has closed.
    DriverAway,
    /// The remote side aborted the connection.
    ConnectionAborted,
    /// A segment was not acknowledged in time.
    TimedOut,
}

/// What to do with an outgoing segment while flushing.
#[derive(Debug)]
pub enum FlushAction {
    /// Its resend timer runs: leave it.
    Skip,
    /// The remote window has no room for it: stop flushing segments.
    Stop,
    /// Hand these bytes to the driver, then report it with `mark_sent`.
    Send(Vec<u8>),
}

/// The abstract state of an outgoing segment.
pub struct OutgoingView {
    pub data: Seq<u8>,
    pub fail_timeout_set: bool,
    pub resend_timeout_set: bool,
}

/// An outgoing segment that has not yet been ACKed.
///
/// The timers themselves belong to the caller; this records which of them
/// run: the failure timer guards the whole transfer, the resend timer one
/// round trip.
#[derive(Debug)]
pub struct Outgoing {
    /// The segment in serialized binary form.
    pub data: Vec<u8>,
    /// The failure timer has been started.
    pub fail_timeout_set: bool,
    /// The resend timer runs.
    pub resend_timeout_set: bool,
}

impl View for Outgoing {
    type V = OutgoingView;

    open spec fn view(&self) -> OutgoingView {
        OutgoingView {
            data: self.data@,
            fail_timeout_set: self.fail_timeout_set,
            resend_timeout_set: self.resend_timeout_set,
        }
    }
}

impl Outgoing {
    /// Constructs a new, not-yet-sent outgoing segment.
    pub fn new(buf: Vec<u8>) -> (o: Self)
        ensures
            o@ == (OutgoingView { data: buf@, fail_timeout_set: false, resend_timeout_set: false }),
    {
        Outgoing { data: buf, fail_timeout_set: false, resend_timeout_set: false }
    }

    /// Checks whether the segment should be sent over the wire, given
    /// whether its failure and resend timers have elapsed.
    ///
    /// An elapsed failure timer fails the transfer; a running resend timer
    /// decides; a segment without one is sent.
    pub fn should_send(&self, fail_elapsed: bool, resend_elapsed: bool) -> (r: Result<bool, StreamError>)
        ensures
            r == spec_should_send(self@, fail_elapsed, resend_elapsed),
    {
        if self.fail_timeout_set && fail_elapsed {
            return Err(StreamError::TimedOut);
        }
        if self.resend_timeout_set {
            return Ok(resend_elapsed);
        }
        Ok(true)
    }

    /// Sets the segment to be sent again immediately.
    pub fn send_immediately(&mut self)
        ensures
            final(self)@ == (OutgoingView { resend_timeout_set: false, ..old(self)@ }),
    {
        self.resend_timeout_set = false;
    }

    /// (Re)starts the timers guarding the segment transmission; the failure
    /// timer, once started, is not restarted.
    pub fn start_timers(&mut self)
        ensures
            final(self)@ == (OutgoingView {
                fail_timeout_set: true,
                resend_timeout_set: true,
                ..old(self)@
            }),
    {
        self.fail_timeout_set = true;
        self.resend_timeout_set = true;
    }
}

/// Whether an outgoing segment is to be sent, given its timers' state.
pub open spec fn spec_should_send(o: OutgoingView, fail_elapsed: bool, resend_elapsed: bool) -> Result<
    bool,
    StreamError,
> {
    if o.fail_timeout_set && fail_elapsed {
        Err(StreamError::TimedOut)
    } else if o.resend_timeout_set {
        Ok(resend_elapsed)
    } else {
        Ok(true)
    }
}

// ---------------------------------------------------------------------------
// Sorted sets and maps.
// ---------------------------------------------------------------------------

/// The numbers are strictly increasing.
pub open spec fn strictly_sorted(s: Seq<u32>) -> bool {
    forall|i: int, j: int| 0 <= i < j < s.len() ==> s[i] < s[j]
}

/// The sorted set `s` with `x` added.
pub open spec fn set_insert(s: Seq<u32>, x: u32) -> Seq<u32>
    decreases s.len(),
{
    if s.len() == 0 {
        seq![x]
    } else if s[0] == x {
        s
    } else if s[0] > x {
        seq![x] + s
    } else {
        seq![s[0]] + set_insert(s.drop_first(), x)
    }
}

/// `s` with every occurrence of `x` removed.
pub open spec fn set_remove(s: Seq<u32>, x: u32) -> Seq<u32>
    decreases s.len(),
{
    if s.len() == 0 {
        s
    } else if s[0] == x {
        set_remove(s.drop_first(), x)
    } else {
        seq![s[0]] + set_remove(s.drop_first(), x)
    }
}

/// The keys of the entries are strictly increasing.
pub open spec fn keys_sorted(s: Seq<(u32, OutgoingView)>) -> bool {
    forall|i: int, j: int| 0 <= i < j < s.len() ==> s[i].0 < s[j].0
}

/// The sorted map `s` with key `k` set to `v`.
pub open spec fn map_upsert(s: Seq<(u32, OutgoingView)>, k: u32, v: OutgoingView) -> Seq<
    (u32, OutgoingView),
>
    decreases s.len(),
{
    if s.len() == 0 {
        seq![(k, v)]
    } else if s[0].0 == k {
        seq![(k, v)] + s.drop_first()
    } else if s[0].0 > k {
        seq![(k, v)] + s
    } else {
        seq![s[0]] + map_upsert(s.drop_first(), k, v)
    }
}

/// The outgoing segments after receiving a segment with `chunks`: those it
/// ACKs are gone, those it NAKs are to be sent again immediately.
pub open spec fn map_ack_update(s: Seq<(u32, OutgoingView)>, chunks: Seq<ChunkView>) -> Seq<
    (u32, OutgoingView),
>
    decreases s.len(),
{
    if s.len() == 0 {
        s
    } else {
        let e = s[0];
        let rest = map_ack_update(s.drop_first(), chunks);
        match segment::spec_ack(chunks, e.0) {
            Some(true) => rest,
            Some(false) => seq![(e.0, OutgoingView { resend_timeout_set: false, ..e.1 })] + rest,
            None => seq![e] + rest,
        }
    }
}

/// The elements of a set of sequence numbers in increasing order.
pub open spec fn sorted_elems(s: Set<u32>) -> Seq<u32> {
    choose|q: Seq<u32>| strictly_sorted(q) && q.to_set() == s
}

/// Two increasing sequences with the same elements are equal.
proof fn lemma_sorted_unique(a: Seq<u32>, b: Seq<u32>)
    requires
        strictly_sorted(a),
        strictly_sorted(b),
        a.to_set() == b.to_set(),
    ensures
        a == b,
    decreases a.len(),
{
    if a.len() == 0 {
        if b.len() > 0 {
            assert(b.to_set().contains(b[0]));
        }
        assert(b.len() == 0);
        assert(a =~= b);
    } else {
        assert(a.to_set().contains(a[0]));
        assert(b.len() > 0);
        assert(b.to_set().contains(b[0]));
        let i = choose|i: int| 0 <= i < a.len() && a[i] == b[0];
        let j = choose|j: int| 0 <= j < b.len() && b[j] == a[0];
        assert(a[0] <= a[i]);
        assert(b[0] <= b[j]);
        assert(a[0] == b[0]);
        let at = a.drop_first();
        let bt = b.drop_first();
        assert(at.to_set() =~= bt.to_set()) by {
            assert forall|x: u32| at.to_set().contains(x) implies bt.to_set().contains(x) by {
                let k = choose|k: int| 0 <= k < at.len() && at[k] == x;
                assert(a.to_set().contains(x)) by {
                    assert(a[k + 1] == x);
                }
                let m = choose|m: int| 0 <= m < b.len() && b[m] == x;
                assert(a[0] < a[k + 1]);
                assert(m != 0);
                assert(bt[m - 1] == x);
            }
            assert forall|x: u32| bt.to_set().contains(x) implies at.to_set().contains(x) by {
                let k = choose|k: int| 0 <= k < bt.len() && bt[k] == x;
                assert(b.to_set().contains(x)) by {
                    assert(b[k + 1] == x);
                }
                let m = choose|m: int| 0 <= m < a.len() && a[m] == x;
                assert(b[0] < b[k + 1]);
                assert(m != 0);
                assert(at[m - 1] == x);
            }
        }
        lemma_sorted_unique(at, bt);
        assert(a =~= seq![a[0]] + at);
        assert(b =~= seq![b[0]] + bt);
    }
}

/// An increasing sequence is the sorted sequence of its elements.
proof fn lemma_sorted_elems(q: Seq<u32>)
    requires
        strictly_sorted(q),
    ensures
        sorted_elems(q.to_set()) == q,
        q.to_set().len() == q.len(),
        q.to_set().finite(),
{
    let c = sorted_elems(q.to_set());
    assert(strictly_sorted(c) && c.to_set() == q.to_set());
    lemma_sorted_unique(c, q);
    assert(q.no_duplicates()) by {
        assert forall|i: int, j: int| 0 <= i < q.len() && 0 <= j < q.len() && i != j implies q[i]
            != q[j] by {
            if i < j {
                assert(q[i] < q[j]);
            } else {
                assert(q[j] < q[i]);
            }
        }
    }
    q.unique_seq_to_set();
}

/// Adding a number keeps a set sorted and adds it to its elements.
proof fn lemma_set_insert_elems(s: Seq<u32>, x: u32)
    requires
        strictly_sorted(s),
    ensures
        strictly_sorted(set_insert(s, x)),
        set_insert(s, x).to_set() == s.to_set().insert(x),
        set_insert(s, x).len() > 0,
        set_insert(s, x)[0] == x || (s.len() > 0 && set_insert(s, x)[0] == s[0]),
    decreases s.len(),
{
    let r = set_insert(s, x);
    if s.len() == 0 {
        assert forall|y: u32| r.to_set().contains(y) <==> s.to_set().insert(x).contains(y) by {
            if y == x {
                assert(r[0] == x);
            }
        }
        assert(r.to_set() =~= s.to_set().insert(x));
    } else if s[0] == x {
        assert(s.to_set().contains(x));
        assert(r.to_set() =~= s.to_set().insert(x));
    } else if s[0] > x {
        assert(r =~= seq![x] + s);
        assert forall|a: int, b: int| 0 <= a < b < r.len() implies r[a] < r[b] by {
            assert(r[b] == s[b - 1]);
            if a > 0 {
                assert(r[a] == s[a - 1]);
            }
        }
        assert forall|y: u32| r.to_set().contains(y) <==> s.to_set().insert(x).contains(y) by {
            if r.to_set().contains(y) {
                let k = choose|k: int| 0 <= k < r.len() && r[k] == y;
                if k > 0 {
                    assert(s[k - 1] == y);
                }
            }
            if s.to_set().contains(y) {
                let k = choose|k: int| 0 <= k < s.len() && s[k] == y;
                assert(r[k + 1] == y);
            }
            if y == x {
                assert(r[0] == x);
            }
        }
        assert(r.to_set() =~= s.to_set().insert(x));
    } else {
        let t = s.drop_first();
        lemma_set_insert_elems(t, x);
        let rt = set_insert(t, x);
        assert(r =~= seq![s[0]] + rt);
        if t.len() > 0 {
            assert(t[0] == s[1]);
        }
        assert forall|a: int, b: int| 0 <= a < b < r.len() implies r[a] < r[b] by {
            assert(r[b] == rt[b - 1]);
            if a == 0 {
                if b - 1 > 0 {
                    assert(rt[0] < rt[b - 1]);
                }
            } else {
                assert(r[a] == rt[a - 1]);
            }
        }
        assert forall|y: u32| r.to_set().contains(y) <==> s.to_set().insert(x).contains(y) by {
            if r.to_set().contains(y) {
                let k = choose|k: int| 0 <= k < r.len() && r[k] == y;
                if k > 0 {
                    assert(rt[k - 1] == y);
                    assert(rt.to_set().contains(y));
                    if y != x {
                        let m = choose|m: int| 0 <= m < t.len() && t[m] == y;
                        assert(s[m + 1] == y);
                    }
                } else {
                    assert(s[0] == y);
                }
            }
            if s.to_set().contains(y) {
                let k = choose|k: int| 0 <= k < s.len() && s[k] == y;
                if k == 0 {
                    assert(r[0] == y);
                } else {
                    assert(t[k - 1] == y);
                    assert(t.to_set().contains(y));
                    assert(rt.to_set().contains(y));
                    let m = choose|m: int| 0 <= m < rt.len() && rt[m] == y;
                    assert(r[m + 1] == y);
                }
            }
            if y == x {
                assert(rt.to_set().contains(x));
                let m = choose|m: int| 0 <= m < rt.len() && rt[m] == x;
                assert(r[m + 1] == x);
            }
        }
        assert(r.to_set() =~= s.to_set().insert(x));
    }
}

/// Removing a number removes it from the elements of a set.
proof fn lemma_set_remove_elems(s: Seq<u32>, x: u32)
    ensures
        set_remove(s, x).to_set() == s.to_set().remove(x),
    decreases s.len(),
{
    let r = set_remove(s, x);
    if s.len() > 0 {
        let t = s.drop_first();
        lemma_set_remove_elems(t, x);
        let rt = set_remove(t, x);
        if s[0] == x {
            assert forall|y: u32| r.to_set().contains(y) <==> s.to_set().remove(x).contains(y) by {
                if s.to_set().contains(y) && y != x {
                    let k = choose|k: int| 0 <= k < s.len() && s[k] == y;
                    assert(t[k - 1] == y);
                    assert(t.to_set().contains(y));
                }
                if r.to_set().contains(y) {
                    let m = choose|m: int| 0 <= m < t.len() && t[m] == y;
                    assert(s[m + 1] == y);
                }
            }
        } else {
            assert(r =~= seq![s[0]] + rt);
            assert forall|y: u32| r.to_set().contains(y) <==> s.to_set().remove(x).contains(y) by {
                if s.to_set().contains(y) && y != x {
                    let k = choose|k: int| 0 <= k < s.len() && s[k] == y;
                    if k == 0 {
                        assert(r[0] == y);
                    } else {
                        assert(t[k - 1] == y);
                        assert(t.to_set().contains(y));
                        assert(rt.to_set().contains(y));
                        let m = choose|m: int| 0 <= m < rt.len() && rt[m] == y;
                        assert(r[m + 1] == y);
                    }
                }
                if r.to_set().contains(y) {
                    let k = choose|k: int| 0 <= k < r.len() && r[k] == y;
                    if k == 0 {
                        assert(s[0] == y);
                    } else {
                        assert(rt[k - 1] == y);
                        assert(rt.to_set().contains(y));
                        let m = choose|m: int| 0 <= m < t.len() && t[m] == y;
                        assert(s[m + 1] == y);
                    }
                }
            }
        }
        assert(r.to_set() =~= s.to_set().remove(x));
    } else {
        assert(r.to_set() =~= s.to_set().remove(x));
    }
}

proof fn lemma_map_upsert_at(s: Seq<(u32, OutgoingView)>, k: u32, v: OutgoingView, i: int)
    requires
        keys_sorted(s),
        0 <= i <= s.len(),
        forall|j: int| 0 <= j < i ==> s[j].0 < k,
        i == s.len() || s[i].0 >= k,
    ensures
        map_upsert(s, k, v) == if i < s.len() && s[i].0 == k {
            s.update(i, (k, v))
        } else {
            s.insert(i, (k, v))
        },
        keys_sorted(map_upsert(s, k, v)),
    decreases i,
{
    if i == 0 {
        if s.len() > 0 && s[0].0 == k {
            assert(seq![(k, v)] + s.drop_first() =~= s.update(0, (k, v)));
        } else {
            assert(seq![(k, v)] + s =~= s.insert(0, (k, v)));
        }
    } else {
        let t = s.drop_first();
        lemma_map_upsert_at(t, k, v, i - 1);
        if i < s.len() && s[i].0 == k {
            assert(seq![s[0]] + t.update(i - 1, (k, v)) =~= s.update(i, (k, v)));
        } else {
            assert(seq![s[0]] + t.insert(i - 1, (k, v)) =~= s.insert(i, (k, v)));
        }
    }
    let r = map_upsert(s, k, v);
    assert forall|a: int, b: int| 0 <= a < b < r.len() implies r[a].0 < r[b].0 by {
        if i < s.len() && s[i].0 == k {
        } else {
            if b < i {
            } else if b == i {
            } else if a < i {
            } else if a == i {
                assert(r[b] == s[b - 1]);
            } else {
                assert(r[a] == s[a - 1]);
                assert(r[b] == s[b - 1]);
            }
        }
    }
}

proof fn lemma_map_ack_update_sorted(s: Seq<(u32, OutgoingView)>, chunks: Seq<ChunkView>)
    requires
        keys_sorted(s),
    ensures
        keys_sorted(map_ack_update(s, chunks)),
        forall|j: int|
            0 <= j < map_ack_update(s, chunks).len() ==> exists|i: int|
                0 <= i < s.len() && #[trigger] map_ack_update(s, chunks)[j].0 == s[i].0,
    decreases s.len(),
{
    if s.len() > 0 {
        let t = s.drop_first();
        lemma_map_ack_update_sorted(t, chunks);
        let rest = map_ack_update(t, chunks);
        let r = map_ack_update(s, chunks);
        assert forall|j: int| 0 <= j < rest.len() implies s[0].0 < #[trigger] rest[j].0 by {
            let i = choose|i: int| 0 <= i < t.len() && rest[j].0 == t[i].0;
            assert(t[i] == s[i + 1]);
        }
        assert forall|j: int| 0 <= j < r.len() implies exists|i: int|
            0 <= i < s.len() && #[trigger] r[j].0 == s[i].0 by {
            if r.len() == rest.len() {
                let i = choose|i: int| 0 <= i < t.len() && rest[j].0 == t[i].0;
                assert(t[i] == s[i + 1]);
            } else if j == 0 {
                assert(r[0].0 == s[0].0);
            } else {
                let i = choose|i: int| 0 <= i < t.len() && rest[j - 1].0 == t[i].0;
                assert(t[i] == s[i + 1]);
            }
        }
    }
}

/// Updating after an ACK works entry by entry.
proof fn lemma_map_ack_update_append(
    a: Seq<(u32, OutgoingView)>,
    b: Seq<(u32, OutgoingView)>,
    chunks: Seq<ChunkView>,
)
    ensures
        map_ack_update(a + b, chunks) == map_ack_update(a, chunks) + map_ack_update(b, chunks),
    decreases a.len(),
{
    if a.len() == 0 {
        assert(a + b =~= b);
        assert(map_ack_update(a, chunks) + map_ack_update(b, chunks) =~= map_ack_update(b, chunks));
    } else {
        lemma_map_ack_update_append(a.drop_first(), b, chunks);
        assert((a + b).drop_first() =~= a.drop_first() + b);
        assert((a + b)[0] == a[0]);
        let e = a[0];
        let ra = map_ack_update(a.drop_first(), chunks);
        let rb = map_ack_update(b, chunks);
        match segment::spec_ack(chunks, e.0) {
            Some(true) => {},
            Some(false) => {
                let x = seq![(e.0, OutgoingView { resend_timeout_set: false, ..e.1 })];
                assert(x + (ra + rb) =~= (x + ra) + rb);
            },
            None => {
                assert(seq![e] + (ra + rb) =~= (seq![e] + ra) + rb);
            },
        }
    }
}

/// The outgoing segments by sequence number, each by its view.
pub open spec fn outgoing_map(m: Map<u32, Outgoing>) -> Map<u32, OutgoingView> {
    Map::new(|k: u32| m.dom().contains(k), |k: u32| m[k]@)
}

/// The entries of `s` are those of `m`, each once.
pub open spec fn entries_of(s: Seq<(u32, OutgoingView)>, m: Map<u32, OutgoingView>) -> bool {
    &&& forall|i: int|
        0 <= i < s.len() ==> m.contains_key((#[trigger] s[i]).0) && m[s[i].0] == s[i].1
    &&& forall|k: u32| #[trigger] m.contains_key(k) ==> exists|i: int| 0 <= i < s.len() && s[i].0 == k
}

/// The entries of a map by increasing key.
pub open spec fn sorted_entries(m: Map<u32, OutgoingView>) -> Seq<(u32, OutgoingView)> {
    choose|s: Seq<(u32, OutgoingView)>| keys_sorted(s) && entries_of(s, m)
}

/// The keys of entries.
pub open spec fn entry_keys(s: Seq<(u32, OutgoingView)>) -> Seq<u32> {
    s.map_values(|e: (u32, OutgoingView)| e.0)
}

/// The keys of sorted entries of a map increase and are the map's keys.
proof fn lemma_entry_keys(s: Seq<(u32, OutgoingView)>, m: Map<u32, OutgoingView>)
    requires
        keys_sorted(s),
        entries_of(s, m),
    ensures
        strictly_sorted(entry_keys(s)),
        entry_keys(s).to_set() == m.dom(),
{
    let q = entry_keys(s);
    assert forall|k: u32| q.to_set().contains(k) <==> m.dom().contains(k) by {
        if q.to_set().contains(k) {
            let i = choose|i: int| 0 <= i < q.len() && q[i] == k;
            assert(s[i].0 == k);
        }
        if m.contains_key(k) {
            let i = choose|i: int| 0 <= i < s.len() && s[i].0 == k;
            assert(q[i] == k);
        }
    }
    assert(q.to_set() =~= m.dom());
}

/// A map has one sorted list of entries.
proof fn lemma_sorted_entries(s: Seq<(u32, OutgoingView)>, m: Map<u32, OutgoingView>)
    requires
        keys_sorted(s),
        entries_of(s, m),
    ensures
        sorted_entries(m) == s,
{
    let c = sorted_entries(m);
    assert(keys_sorted(c) && entries_of(c, m));
    lemma_entry_keys(s, m);
    lemma_entry_keys(c, m);
    lemma_sorted_unique(entry_keys(c), entry_keys(s));
    assert forall|i: int| 0 <= i < s.len() implies #[trigger] c[i] == s[i] by {
        assert(entry_keys(c)[i] == entry_keys(s)[i]);
    }
    assert(c =~= s);
}

/// Setting the value of the entry at `p` sets it in the map.
proof fn lemma_entries_update(
    s: Seq<(u32, OutgoingView)>,
    m: Map<u32, OutgoingView>,
    p: int,
    v: OutgoingView,
)
    requires
        keys_sorted(s),
        entries_of(s, m),
        0 <= p < s.len(),
    ensures
        keys_sorted(s.update(p, (s[p].0, v))),
        entries_of(s.update(p, (s[p].0, v)), m.insert(s[p].0, v)),
{
    let t = s.update(p, (s[p].0, v));
    let mm = m.insert(s[p].0, v);
    assert forall|i: int| 0 <= i < t.len() implies mm.contains_key((#[trigger] t[i]).0) && mm[t[i].0]
        == t[i].1 by {
        if i != p {
            assert(t[i] == s[i]);
            assert(s[i].0 != s[p].0);
        }
    }
    assert forall|k: u32| #[trigger] mm.contains_key(k) implies exists|i: int|
        0 <= i < t.len() && t[i].0 == k by {
        if k == s[p].0 {
            assert(t[p].0 == k);
        } else {
            let i = choose|i: int| 0 <= i < s.len() && s[i].0 == k;
            assert(t[i].0 == k);
        }
    }
}

/// Inserting an entry under a new key inserts it into the map.
proof fn lemma_entries_insert(
    s: Seq<(u32, OutgoingView)>,
    m: Map<u32, OutgoingView>,
    p: int,
    k: u32,
    v: OutgoingView,
)
    requires
        entries_of(s, m),
        0 <= p <= s.len(),
        forall|i: int| 0 <= i < s.len() ==> #[trigger] s[i].0 != k,
    ensures
        entries_of(s.insert(p, (k, v)), m.insert(k, v)),
{
    let t = s.insert(p, (k, v));
    let mm = m.insert(k, v);
    assert forall|i: int| 0 <= i < t.len() implies mm.contains_key((#[trigger] t[i]).0) && mm[t[i].0]
        == t[i].1 by {
        if i < p {
            assert(t[i] == s[i]);
        } else if i > p {
            assert(t[i] == s[i - 1]);
        }
    }
    assert forall|j: u32| #[trigger] mm.contains_key(j) implies exists|i: int|
        0 <= i < t.len() && t[i].0 == j by {
        if j == k {
            assert(t[p].0 == j);
        } else {
            let i = choose|i: int| 0 <= i < s.len() && s[i].0 == j;
            if i < p {
                assert(t[i].0 == j);
            } else {
                assert(t[i + 1].0 == j);
            }
        }
    }
}

/// Removing the entry at `p` removes its key from the map.
proof fn lemma_entries_remove(s: Seq<(u32, OutgoingView)>, m: Map<u32, OutgoingView>, p: int)
    requires
        keys_sorted(s),
        entries_of(s, m),
        0 <= p < s.len(),
    ensures
        keys_sorted(s.remove(p)),
        entries_of(s.remove(p), m.remove(s[p].0)),
{
    let t = s.remove(p);
    let mm = m.remove(s[p].0);
    assert forall|a: int, b: int| 0 <= a < b < t.len() implies t[a].0 < t[b].0 by {
        let a2 = if a < p { a } else { a + 1 };
        let b2 = if b < p { b } else { b + 1 };
        assert(t[a] == s[a2]);
        assert(t[b] == s[b2]);
    }
    assert forall|i: int| 0 <= i < t.len() implies mm.contains_key((#[trigger] t[i]).0) && mm[t[i].0]
        == t[i].1 by {
        let i2 = if i < p { i } else { i + 1 };
        assert(t[i] == s[i2]);
        assert(s[i2].0 != s[p].0);
    }
    assert forall|j: u32| #[trigger] mm.contains_key(j) implies exists|i: int|
        0 <= i < t.len() && t[i].0 == j by {
        let i = choose|i: int| 0 <= i < s.len() && s[i].0 == j;
        if i < p {
            assert(t[i].0 == j);
        } else {
            assert(i != p);
            assert(t[i - 1].0 == j);
        }
    }
}

/// The position at which key `k` belongs in sorted entries.
proof fn lemma_upsert_position(s: Seq<(u32, OutgoingView)>, k: u32) -> (i: int)
    requires
        keys_sorted(s),
    ensures
        0 <= i <= s.len(),
        forall|j: int| 0 <= j < i ==> s[j].0 < k,
        i == s.len() || s[i].0 >= k,
    decreases s.len(),
{
    if s.len() == 0 || s[0].0 >= k {
        0
    } else {
        let t = s.drop_first();
        let j = lemma_upsert_position(t, k);
        assert forall|a: int| 0 <= a < j + 1 implies s[a].0 < k by {
            if a > 0 {
                assert(s[a] == t[a - 1]);
            }
        }
        if j < t.len() {
            assert(s[j + 1] == t[j]);
        }
        j + 1
    }
}

/// Setting key `k` of the sorted entries of a map sets it in the map.
proof fn lemma_entries_upsert(
    s: Seq<(u32, OutgoingView)>,
    m: Map<u32, OutgoingView>,
    k: u32,
    v: OutgoingView,
)
    requires
        keys_sorted(s),
        entries_of(s, m),
    ensures
        keys_sorted(map_upsert(s, k, v)),
        entries_of(map_upsert(s, k, v), m.insert(k, v)),
{
    let i = lemma_upsert_position(s, k);
    lemma_map_upsert_at(s, k, v, i);
    if i < s.len() && s[i].0 == k {
        lemma_entries_update(s, m, i, v);
    } else {
        assert forall|j: int| 0 <= j < s.len() implies #[trigger] s[j].0 != k by {
            if j >= i {
                assert(s[i].0 <= s[j].0);
            }
        }
        lemma_entries_insert(s, m, i, k, v);
    }
}

/// The sorted entries of the outgoing segments are in order: they are the
/// stream's view of its outgoing segments.
pub open spec fn entries_well_kept(m: Map<u32, Outgoing>) -> bool {
    keys_sorted(sorted_entries(outgoing_map(m))) && entries_of(
        sorted_entries(outgoing_map(m)),
        outgoing_map(m),
    )
}

/// Sets key `k` to `o` in the outgoing segments.
fn outgoing_upsert(m: &mut BTreeMap<u32, Outgoing>, k: u32, o: Outgoing)
    requires
        entries_well_kept(old(m)@),
    ensures
        entries_well_kept(final(m)@),
        sorted_entries(outgoing_map(final(m)@)) == map_upsert(
            sorted_entries(outgoing_map(old(m)@)),
            k,
            o@,
        ),
{
    let ghost ov = o@;
    let ghost s = sorted_entries(outgoing_map(m@));
    m.insert(k, o);
    proof {
        assert(outgoing_map(m@) =~= outgoing_map(old(m)@).insert(k, ov));
        lemma_entries_upsert(s, outgoing_map(old(m)@), k, ov);
        lemma_sorted_entries(map_upsert(s, k, ov), outgoing_map(m@));
    }
}

/// The abstract state of a stream.
pub struct StreamView {
    pub compression_algorithm: Option<CompressionAlgorithm>,
    /// The highest consecutively received remote sequence number.
    pub remote_seq_no: u32,
    /// The highest sent-out local sequence number.
    pub local_seq_no: u32,
    /// The NAKed sequence numbers, in increasing order.
    pub naks: Seq<u32>,
    /// The reorder window of received segments.
    pub order: WindowView<Segment>,
    /// The unacknowledged outgoing segments, by increasing sequence number.
    pub outgoing: Seq<(u32, OutgoingView)>,
    /// Received data not yet read.
    pub r_buf: Seq<u8>,
    /// The last-known remote window size.
    pub remote_window_size: u32,
    pub state: StreamState,
    /// Written data not yet divided into segments.
    pub w_buf: Seq<u8>,
}

impl StreamView {
    /// What every stream satisfies.
    pub open spec fn inv(self) -> bool {
        &&& strictly_sorted(self.naks)
        &&& keys_sorted(self.outgoing)
        &&& self.order.inv()
        &&& keyed(self.order)
        &&& self.order.capacity() == ORDER_BUF_CAPACITY
        &&& self.r_buf.len() <= BUF_SIZE
        &&& self.w_buf.len() <= BUF_SIZE
    }
}

/// Every filled slot of the window holds the segment of its key.
pub open spec fn keyed(v: WindowView<Segment>) -> bool {
    forall|d: int|
        0 <= d < v.slots.len() && (#[trigger] v.slots[d]) is Some ==> v.lowest_key is Some
            && v.slots[d]->0.seq_no == v.lowest_key->0 + d
}

/// Inserting a segment under its sequence number, and popping, keep every
/// segment of the window in the slot of its key.
pub proof fn lemma_keyed_steps(v: WindowView<Segment>, g: Segment)
    requires
        v.inv(),
        keyed(v),
    ensures
        keyed(v.insert(g.seq_no as usize, g).0),
        keyed(v.pop().0),
{
    let key = g.seq_no as usize;
    let w = v.insert(key, g).0;
    window::lemma_empty_iff_no_element(v);
    assert forall|d: int| 0 <= d < w.slots.len() && (#[trigger] w.slots[d]) is Some implies w.lowest_key
        is Some && w.slots[d]->0.seq_no == w.lowest_key->0 + d by {
        if w.slots[d] != v.slots[d] {
            assert(w.slots[d] == Some(g));
        }
    }
    if v.can_pop() {
        let l = v.lowest_key->0;
        let p = v.pop().0;
        window::lemma_empty_iff_no_element(p);
        assert forall|d: int| 0 <= d < p.slots.len() && (#[trigger] p.slots[d]) is Some implies p.lowest_key
            is Some && p.slots[d]->0.seq_no == p.lowest_key->0 + d by {
            assert(p.slots[d] == v.slots[d + 1]);
            assert(v.slots[d + 1]->0.seq_no == l + d + 1);
        }
    }
}

/// The sequence number after `n`, wrapping around after `u32::MAX`.
pub open spec fn next_seq_no(n: u32) -> u32 {
    if n == u32::MAX {
        0
    } else {
        (n + 1) as u32
    }
}

/// A new sequence number is the current one plus one, modulo 2^32.
pub proof fn lemma_next_seq_no_wraps(n: u32)
    ensures
        next_seq_no(n) == (n + 1) % 0x1_0000_0000,
{
}

/// The remote window after sending `len` bytes: reduced by them, down to
/// zero.
pub open spec fn window_after_send(window: u32, len: nat) -> u32 {
    if len >= window {
        0
    } else {
        (window - len) as u32
    }
}

/// The free space of a buffer holding `len` bytes.
pub open spec fn remaining(len: nat) -> nat {
    (BUF_SIZE - len) as nat
}

/// A full-duplex SUTP stream: the protocol state of an established connection.
#[derive(Debug)]
pub struct SutpStream {
    compression_algorithm: Option<CompressionAlgorithm>,
    highest_consecutive_remote_seq_no: u32,
    highest_sent_local_seq_no: u32,
    nak_set: BTreeSet<u32>,
    order_buf: Window<Segment>,
    outgoing_segments: BTreeMap<u32, Outgoing>,
    r_buf: Vec<u8>,
    remote_window_size: u32,
    state: StreamState,
    w_buf: Vec<u8>,
}

impl View for SutpStream {
    type V = StreamView;

    closed spec fn view(&self) -> StreamView {
        StreamView {
            compression_algorithm: self.compression_algorithm,
            remote_seq_no: self.highest_consecutive_remote_seq_no,
            local_seq_no: self.highest_sent_local_seq_no,
            naks: sorted_elems(self.nak_set@),
            order: self.order_buf@,
            outgoing: sorted_entries(outgoing_map(self.outgoing_segments@)),
            r_buf: self.r_buf@,
            remote_window_size: self.remote_window_size,
            state: self.state,
            w_buf: self.w_buf@,
        }
    }
}

/// The serialized form of an outgoing segment, not yet sent.
pub open spec fn fresh_outgoing(seg: SegmentView) -> OutgoingView {
    OutgoingView {
        data: segment::segment_bytes(seg),
        fail_timeout_set: false,
        resend_timeout_set: false,
    }
}

/// The data segment carrying `payload`.
pub open spec fn data_segment(seq_no: u32, window: u32, payload: Seq<u8>) -> SegmentView {
    SegmentView { chunks: seq![ChunkView::Payload(payload)], seq_no, window_size: window }
}

/// Divides `data` into data segments of at most `OUTGOING_PAYLOAD_SIZE`
/// bytes, numbered on from the stream's local sequence number.
pub open spec fn spec_prepare(s: StreamView, data: Seq<u8>, window: u32) -> StreamView
    decreases data.len(),
{
    if data.len() == 0 {
        s
    } else {
        let n = if data.len() < OUTGOING_PAYLOAD_SIZE {
            data.len()
        } else {
            OUTGOING_PAYLOAD_SIZE as nat
        };
        let seq_no = next_seq_no(s.local_seq_no);
        let seg = data_segment(seq_no, window, data.take(n as int));
        spec_prepare(
            StreamView {
                local_seq_no: seq_no,
                outgoing: map_upsert(s.outgoing, seq_no, fresh_outgoing(seg)),
                ..s
            },
            data.skip(n as int),
            window,
        )
    }
}

/// The FIN segment sent on shutdown.
pub open spec fn fin_segment(seq_no: u32, window: u32) -> SegmentView {
    SegmentView { chunks: seq![ChunkView::Fin], seq_no, window_size: window }
}

/// One step of the shutdown, after flushing: an open side enqueues its FIN
/// segment under the next local sequence number (`Open` becomes `FinSent`,
/// `FinRecvd` becomes `LastBreath`), a side whose FIN is out closes, and a
/// closed stream reports that it is closed.
pub open spec fn spec_shutdown_step(s: StreamView) -> (StreamView, bool) {
    let window = remaining(s.w_buf.len()) as u32;
    let n = next_seq_no(s.local_seq_no);
    match s.state {
        StreamState::Open => (
            StreamView {
                local_seq_no: n,
                outgoing: map_upsert(s.outgoing, n, fresh_outgoing(fin_segment(n, window))),
                state: StreamState::FinSent,
                ..s
            },
            false,
        ),
        StreamState::FinRecvd => (
            StreamView {
                local_seq_no: n,
                outgoing: map_upsert(s.outgoing, n, fresh_outgoing(fin_segment(n, window))),
                state: StreamState::LastBreath,
                ..s
            },
            false,
        ),
        StreamState::FinSent | StreamState::LastBreath => (
            StreamView { state: StreamState::Closed, ..s },
            false,
        ),
        StreamState::Closed => (s, true),
    }
}

impl SutpStream {
    /// The representation invariant.
    pub closed spec fn wf(&self) -> bool {
        &&& self.order_buf.wf()
        &&& self@.inv()
        &&& self@.naks.to_set() == self.nak_set@
        &&& entries_well_kept(self.outgoing_segments@)
    }

    /// A well-formed stream satisfies the invariant of its view, so the laws
    /// stated over views apply to it.
    pub proof fn lemma_wf_inv(&self)
        requires
            self.wf(),
        ensures
            self@.inv(),
    {
    }

    /// Constructs the state of a freshly established connection.
    ///
    /// `remote_seq_no` is the highest consecutively received remote sequence
    /// number, i. e. not the one expected next, but the one we have.
    pub fn create(
        local_seq_no: u32,
        remote_seq_no: u32,
        remote_win_size: u32,
        compression_alg: Option<CompressionAlgorithm>,
    ) -> (st: Self)
        ensures
            st.wf(),
            st@ == (StreamView {
                compression_algorithm: compression_alg,
                remote_seq_no,
                local_seq_no,
                naks: Seq::empty(),
                order: WindowView {
                    slots: Seq::new(ORDER_BUF_CAPACITY as nat, |i: int| None::<Segment>),
                    lowest_key: Some(remote_seq_no as usize),
                },
                outgoing: Seq::empty(),
                r_buf: Seq::empty(),
                remote_window_size: remote_win_size,
                state: StreamState::Open,
                w_buf: Seq::empty(),
            }),
    {
        let order_buf = Window::with_lowest_key(ORDER_BUF_CAPACITY, remote_seq_no as usize);
        proof {
            order_buf.lemma_wf_inv();
        }
        let st = SutpStream {
            compression_algorithm: compression_alg,
            highest_consecutive_remote_seq_no: remote_seq_no,
            highest_sent_local_seq_no: local_seq_no,
            nak_set: BTreeSet::new(),
            order_buf,
            outgoing_segments: BTreeMap::new(),
            r_buf: Vec::new(),
            remote_window_size: remote_win_size,
            state: StreamState::Open,
            w_buf: Vec::new(),
        };
        proof {
            lemma_sorted_elems(Seq::<u32>::empty());
            assert(Seq::<u32>::empty().to_set() =~= Set::<u32>::empty());
            assert(outgoing_map(st.outgoing_segments@) =~= Map::<u32, OutgoingView>::empty());
            lemma_sorted_entries(Seq::empty(), Map::<u32, OutgoingView>::empty());
        }
        assert(st@.outgoing =~= Seq::<(u32, OutgoingView)>::empty());
        st
    }

    /// The state of the protocol automaton.
    pub fn state(&self) -> (s: StreamState)
        ensures
            s == self@.state,
    {
        self.state
    }

    /// The last-known remaining window size of the remote side.
    pub fn remote_window_size(&self) -> (w: u32)
        ensures
            w == self@.remote_window_size,
    {
        self.remote_window_size
    }

    /// The negotiated compression algorithm.
    pub fn compression_algorithm(&self) -> (a: Option<CompressionAlgorithm>)
        ensures
            a == self@.compression_algorithm,
    {
        self.compression_algorithm
    }

    /// The number of NAKed sequence numbers.
    pub fn nak_count(&self) -> (n: usize)
        requires
            self.wf(),
        ensures
            n == self@.naks.len(),
    {
        proof {
            lemma_sorted_elems(self@.naks);
        }
        self.nak_set.len()
    }

    /// Asserts that the stream is in the proper state to read or flush.
    pub fn assert_can_flush(&self) -> (r: Result<(), StreamError>)
        ensures
            r == if self@.state == StreamState::Closed {
                Err(StreamError::NotConnected)
            } else {
                Ok(())
            },
    {
        match self.state {
            StreamState::Closed => Err(StreamError::NotConnected),
            _ => Ok(()),
        }
    }

    /// Asserts that the stream is in the proper state to write.
    pub fn assert_can_write(&self) -> (r: Result<(), StreamError>)
        ensures
            r == if self@.state == StreamState::Open || self@.state == StreamState::FinRecvd {
                Ok(())
            } else {
                Err(StreamError::NotConnected)
            },
    {
        match self.state {
            StreamState::Open | StreamState::FinRecvd => Ok(()),
            _ => Err(StreamError::NotConnected),
        }
    }

    /// Fills `buf` with as much read data as possible and returns how much.
    pub fn fill_buf(&mut self, buf: &mut [u8]) -> (n: usize)
        requires
            old(self).wf(),
        ensures
            final(self).wf(),
            n == if old(buf)@.len() < old(self)@.r_buf.len() {
                old(buf)@.len()
            } else {
                old(self)@.r_buf.len()
            },
            final(buf)@ == old(self)@.r_buf.take(n as int) + old(buf)@.skip(n as int),
            final(self)@ == (StreamView { r_buf: old(self)@.r_buf.skip(n as int), ..old(self)@ }),
    {
        let copy_count = if buf.len() < self.r_buf.len() {
            buf.len()
        } else {
            self.r_buf.len()
        };
        let mut i: usize = 0;
        while i < copy_count
            invariant
                i <= copy_count,
                copy_count <= buf@.len(),
                copy_count <= self.r_buf@.len(),
                buf@.len() == old(buf)@.len(),
                forall|j: int| 0 <= j < i ==> buf@[j] == self.r_buf@[j],
                forall|j: int| i <= j < buf@.len() ==> buf@[j] == old(buf)@[j],
            decreases copy_count - i,
        {
            buf[i] = self.r_buf[i];
            i = i + 1;
        }
        self.r_buf = slice_to_vec(&self.r_buf[copy_count..self.r_buf.len()]);
        assert(buf@ =~= old(self)@.r_buf.take(copy_count as int) + old(buf)@.skip(
            copy_count as int,
        ));
        assert(self@.r_buf =~= old(self)@.r_buf.skip(copy_count as int));
        copy_count
    }

    /// Reads buffered data into `buf` if the receiving side is closed.
    pub fn read_when_closed(&mut self, buf: &mut [u8]) -> (r: Option<usize>)
        requires
            old(self).wf(),
        ensures
            final(self).wf(),
            ({
                let closed = old(self)@.state == StreamState::Closed || old(self)@.state
                    == StreamState::FinRecvd;
                let n = if old(buf)@.len() < old(self)@.r_buf.len() {
                    old(buf)@.len()
                } else {
                    old(self)@.r_buf.len()
                };
                &&& r == if closed {
                    Some(n as usize)
                } else {
                    None
                }
                &&& closed ==> final(buf)@ == old(self)@.r_buf.take(n as int) + old(buf)@.skip(
                    n as int,
                ) && final(self)@ == (StreamView {
                    r_buf: old(self)@.r_buf.skip(n as int),
                    ..old(self)@
                })
                &&& !closed ==> final(buf)@ == old(buf)@ && final(self)@ == old(self)@
            }),
    {
        match self.state {
            StreamState::Closed | StreamState::FinRecvd => Some(self.fill_buf(buf)),
            _ => None,
        }
    }

    /// Reads buffered data into `buf` if there is any.
    pub fn read_buffered(&mut self, buf: &mut [u8]) -> (r: Option<usize>)
        requires
            old(self).wf(),
        ensures
            final(self).wf(),
            ({
                let n = if old(buf)@.len() < old(self)@.r_buf.len() {
                    old(buf)@.len()
                } else {
                    old(self)@.r_buf.len()
                };
                &&& r == if old(self)@.r_buf.len() > 0 {
                    Some(n as usize)
                } else {
                    None
                }
                &&& old(self)@.r_buf.len() > 0 ==> final(buf)@ == old(self)@.r_buf.take(n as int)
                    + old(buf)@.skip(n as int) && final(self)@ == (StreamView {
                    r_buf: old(self)@.r_buf.skip(n as int),
                    ..old(self)@
                })
                &&& old(self)@.r_buf.len() == 0 ==> final(buf)@ == old(buf)@ && final(self)@
                    == old(self)@
            }),
    {
        if self.r_buf.len() > 0 {
            Some(self.fill_buf(buf))
        } else {
            None
        }
    }

    /// Gets a fresh sequence number by first incrementing the stored one and
    /// returning the incremented value.
    pub fn get_seq_no(&mut self) -> (n: u32)
        requires
            old(self).wf(),
        ensures
            final(self).wf(),
            n == next_seq_no(old(self)@.local_seq_no),
            final(self)@ == (StreamView { local_seq_no: n, ..old(self)@ }),
    {
        self.highest_sent_local_seq_no = self.highest_sent_local_seq_no.wrapping_add(1);
        self.highest_sent_local_seq_no
    }

    /// Writes as much of `buf` into the write buffer as fits.
    ///
    /// Returns `Ok(None)` if the buffer is full and nothing could be
    /// written. Until the stream is flushed, nothing is sent.
    pub fn poll_write(&mut self, buf: &[u8]) -> (r: Result<Option<usize>, StreamError>)
        requires
            old(self).wf(),
        ensures
            final(self).wf(),
            ({
                let s = old(self)@;
                let room = remaining(s.w_buf.len());
                let n = if room < buf@.len() {
                    room
                } else {
                    buf@.len()
                };
                if !(s.state == StreamState::Open || s.state == StreamState::FinRecvd) {
                    r == Err::<Option<usize>, StreamError>(StreamError::NotConnected) && final(self)@ == s
                } else if buf@.len() == 0 {
                    r == Ok::<Option<usize>, StreamError>(Some(0)) && final(self)@ == s
                } else if room == 0 {
                    r == Ok::<Option<usize>, StreamError>(None) && final(self)@ == s
                } else {
                    r == Ok::<Option<usize>, StreamError>(Some(n as usize)) && final(self)@ == (
                    StreamView { w_buf: s.w_buf + buf@.take(n as int), ..s })
                }
            }),
    {
        self.assert_can_write()?;
        if buf.len() == 0 {
            return Ok(Some(0));
        }
        let room = BUF_SIZE - self.w_buf.len();
        if room == 0 {
            return Ok(None);
        }
        let copy_count = if room < buf.len() {
            room
        } else {
            buf.len()
        };
        crate::wire::put_bytes(&mut self.w_buf, &buf[0..copy_count]);
        Ok(Some(copy_count))
    }

    /// Serializes `segment` and enqueues it for sending, replacing an
    /// outgoing segment of the same sequence number.
    pub fn enqueue_outgoing(&mut self, segment: &Segment)
        requires
            old(self).wf(),
            segment::is_writable(segment@),
        ensures
            final(self).wf(),
            final(self)@ == (StreamView {
                outgoing: map_upsert(old(self)@.outgoing, segment.seq_no, fresh_outgoing(segment@)),
                ..old(self)@
            }),
    {
        let serialized_segment = segment.to_vec();
        outgoing_upsert(
            &mut self.outgoing_segments,
            segment.seq_no,
            Outgoing::new(serialized_segment),
        );
    }

    /// Creates data segments of at most `OUTGOING_PAYLOAD_SIZE` bytes out of
    /// the written data, and enqueues them.
    pub fn prepare_segments(&mut self)
        requires
            old(self).wf(),
        ensures
            final(self).wf(),
            final(self)@ == (StreamView {
                w_buf: Seq::empty(),
                ..spec_prepare(
                    old(self)@,
                    old(self)@.w_buf,
                    remaining(old(self)@.w_buf.len()) as u32,
                )
            }),
    {
        let data = slice_to_vec(self.w_buf.as_slice());
        let window = (BUF_SIZE - self.w_buf.len()) as u32;
        let mut pos: usize = 0;
        let ghost target = spec_prepare(old(self)@, old(self)@.w_buf, window);
        assert(data@.skip(0) =~= data@);
        while pos < data.len()
            invariant
                self.wf(),
                data@ == old(self)@.w_buf,
                pos <= data@.len(),
                target == spec_prepare(old(self)@, data@, window),
                spec_prepare(self@, data@.skip(pos as int), window) == target,
                self@.w_buf == old(self)@.w_buf,
                self@.state == old(self)@.state,
            decreases data@.len() - pos,
        {
            let left = data.len() - pos;
            let num_payload_bytes = if left < OUTGOING_PAYLOAD_SIZE {
                left
            } else {
                OUTGOING_PAYLOAD_SIZE
            };
            let payload = slice_to_vec(&data[pos..pos + num_payload_bytes]);
            let ghost rest = data@.skip(pos as int);
            assert(payload@ =~= rest.take(num_payload_bytes as int));
            assert(rest.skip(num_payload_bytes as int) =~= data@.skip(pos + num_payload_bytes));
            let seq_no = self.get_seq_no();
            let segment = SegmentBuilder::new().seq_no(seq_no).window_size(window).with_chunk(
                Chunk::Payload(payload),
            ).build();
            assert(segment@.chunks =~= seq![ChunkView::Payload(rest.take(num_payload_bytes as int))]);
            assert(segment::is_writable(segment@)) by {
                assert(chunk::is_writable(segment@.chunks[0]));
            }
            self.enqueue_outgoing(&segment);
            pos = pos + num_payload_bytes;
        }
        self.w_buf = Vec::new();
        proof {
            assert(data@.skip(pos as int) =~= Seq::<u8>::empty());
        }
    }

    /// The sequence numbers of the outgoing segments, in increasing order.
    pub fn outgoing_keys(&self) -> (keys: Vec<u32>)
        requires
            self.wf(),
        ensures
            keys@ == self@.outgoing.map_values(|e: (u32, OutgoingView)| e.0),
    {
        let ghost all = vstd::std_specs::btree::spec_keys_iter(&self.outgoing_segments).remaining();
        let mut keys: Vec<u32> = Vec::new();
        for x in it: self.outgoing_segments.keys()
            invariant
                it.seq() == all,
                keys@ == all.take(it.index()).map_values(|r: &u32| *r),
        {
            keys.push(*x);
            assert(keys@ =~= all.take(it.index() + 1).map_values(|r: &u32| *r));
        }
        let ghost q = all.map_values(|r: &u32| *r);
        proof {
            assert(keys@ =~= q);
            let m = outgoing_map(self.outgoing_segments@);
            assert(strictly_sorted(q)) by {
                assert(vstd::laws_cmp::obeys_cmp::<u32>());
                assert(vstd::laws_cmp::obeys_cmp::<&u32>());
                assert(vstd::std_specs::btree::increasing_seq(all));
                assert forall|a: int, b: int| 0 <= a < b < q.len() implies q[a] < q[b] by {
                    assert(OrdSpec::cmp_spec(&all[a], &all[b]) is Less);
                }
            }
            assert(q.to_set() =~= m.dom()) by {
                assert forall|y: u32| q.to_set().contains(y) <==> m.dom().contains(y) by {
                    if q.to_set().contains(y) {
                        let k = choose|k: int| 0 <= k < q.len() && q[k] == y;
                        assert(all.unref()[k] == y);
                    }
                    if m.dom().contains(y) {
                        assert(all.unref().to_set().contains(y));
                        let k = choose|k: int| 0 <= k < all.unref().len() && all.unref()[k] == y;
                        assert(q[k] == y);
                    }
                }
            }
            lemma_entry_keys(self@.outgoing, m);
            lemma_sorted_unique(q, entry_keys(self@.outgoing));
        }
        keys
    }

    /// Decides, while flushing, what to do with the outgoing segment of
    /// sequence number `seq_no`, given whether its failure and resend timers
    /// have elapsed.
    ///
    /// An elapsed failure timer closes the stream and fails with `TimedOut`.
    pub fn flush_check(&mut self, seq_no: u32, fail_elapsed: bool, resend_elapsed: bool) -> (r:
        Result<FlushAction, StreamError>)
        requires
            old(self).wf(),
        ensures
            final(self).wf(),
            ({
                let s = old(self)@;
                match spec_find(s.outgoing, seq_no) {
                    None => r matches Ok(FlushAction::Skip) && final(self)@ == s,
                    Some(i) => {
                        let o = s.outgoing[i].1;
                        match spec_should_send(o, fail_elapsed, resend_elapsed) {
                            Err(e) => r == Err::<FlushAction, StreamError>(e) && final(self)@ == (
                            StreamView { state: StreamState::Closed, ..s }),
                            Ok(false) => r matches Ok(FlushAction::Skip) && final(self)@ == s,
                            Ok(true) => final(self)@ == s && if s.remote_window_size < o.data.len() {
                                r matches Ok(FlushAction::Stop)
                            } else {
                                r matches Ok(FlushAction::Send(d)) && d@ == o.data
                            },
                        }
                    },
                }
            }),
    {
        let ghost m = outgoing_map(self.outgoing_segments@);
        let outgoing = match self.outgoing_segments.get(&seq_no) {
            Some(o) => o,
            None => {
                proof {
                    assert forall|i: int| 0 <= i < self@.outgoing.len() implies #[trigger] self@.outgoing[i].0
                        != seq_no by {
                        assert(m.contains_key(self@.outgoing[i].0));
                    }
                    lemma_find_none(self@.outgoing, seq_no);
                }
                return Ok(FlushAction::Skip);
            },
        };
        proof {
            assert(m.contains_key(seq_no));
            let idx = choose|i: int| 0 <= i < self@.outgoing.len() && self@.outgoing[i].0 == seq_no;
            lemma_find_some(self@.outgoing, seq_no, idx);
        }
        match outgoing.should_send(fail_elapsed, resend_elapsed) {
            Ok(true) => {},
            Ok(false) => {
                return Ok(FlushAction::Skip);
            },
            Err(e) => {
                self.state = StreamState::Closed;
                return Err(e);
            },
        }
        if (self.remote_window_size as usize) < outgoing.data.len() {
            return Ok(FlushAction::Stop);
        }
        Ok(FlushAction::Send(slice_to_vec(outgoing.data.as_slice())))
    }

    /// Records that the outgoing segment of sequence number `seq_no` has been
    /// handed to the driver: its timers (re)start, and its size is taken off
    /// the last-known remote window, down to zero.
    pub fn mark_sent(&mut self, seq_no: u32)
        requires
            old(self).wf(),
        ensures
            final(self).wf(),
            final(self)@ == match spec_find(old(self)@.outgoing, seq_no) {
                None => old(self)@,
                Some(i) => {
                    let e = old(self)@.outgoing[i];
                    StreamView {
                        outgoing: old(self)@.outgoing.update(
                            i,
                            (
                                e.0,
                                OutgoingView {
                                    fail_timeout_set: true,
                                    resend_timeout_set: true,
                                    ..e.1
                                },
                            ),
                        ),
                        remote_window_size: window_after_send(
                            old(self)@.remote_window_size,
                            e.1.data.len(),
                        ),
                        ..old(self)@
                    }
                },
            },
    {
        let ghost m = outgoing_map(self.outgoing_segments@);
        let ghost s0 = self@.outgoing;
        match self.outgoing_segments.remove(&seq_no) {
            Some(mut o) => {
                let ghost i = choose|i: int| 0 <= i < s0.len() && s0[i].0 == seq_no;
                proof {
                    assert(m.contains_key(seq_no));
                    lemma_find_some(s0, seq_no, i);
                }
                o.start_timers();
                let len = o.data.len();
                self.remote_window_size = if len >= self.remote_window_size as usize {
                    0
                } else {
                    self.remote_window_size - len as u32
                };
                let ghost ov = o@;
                self.outgoing_segments.insert(seq_no, o);
                proof {
                    assert(outgoing_map(self.outgoing_segments@) =~= m.insert(seq_no, ov));
                    lemma_entries_update(s0, m, i, ov);
                    lemma_sorted_entries(s0.update(i, (seq_no, ov)), m.insert(seq_no, ov));
                }
            },
            None => {
                proof {
                    assert forall|i: int| 0 <= i < s0.len() implies #[trigger] s0[i].0 != seq_no by {
                        assert(m.contains_key(s0[i].0));
                    }
                    lemma_find_none(s0, seq_no);
                    assert(self.outgoing_segments@ =~= old(self).outgoing_segments@);
                }
            },
        }
    }

    /// Advances the shutdown of the stream by one step, after the stream has
    /// been flushed: an open side sends its FIN, a side whose FIN is out
    /// closes. Returns whether the stream is closed.
    pub fn shutdown_step(&mut self) -> (closed: bool)
        requires
            old(self).wf(),
        ensures
            final(self).wf(),
            (final(self)@, closed) == spec_shutdown_step(old(self)@),
    {
        match self.state {
            StreamState::Open | StreamState::FinRecvd => {
                let window = (BUF_SIZE - self.w_buf.len()) as u32;
                let seq_no = self.get_seq_no();
                let fin_segment = SegmentBuilder::new().seq_no(seq_no).window_size(
                    window,
                ).with_chunk(Chunk::Fin).build();
                assert(fin_segment@.chunks =~= seq![ChunkView::Fin]);
                assert(segment::is_writable(fin_segment@)) by {
                    assert(chunk::is_writable(fin_segment@.chunks[0]));
                }
                self.enqueue_outgoing(&fin_segment);
                self.state = match self.state {
                    StreamState::Open => StreamState::FinSent,
                    _ => StreamState::LastBreath,
                };
                false
            },
            StreamState::FinSent | StreamState::LastBreath => {
                self.state = StreamState::Closed;
                false
            },
            StreamState::Closed => true,
        }
    }
}

/// The position of the entry with key `k`, if there is one.
pub open spec fn spec_find(s: Seq<(u32, OutgoingView)>, k: u32) -> Option<int> {
    if exists|i: int| 0 <= i < s.len() && s[i].0 == k {
        Some(choose|i: int| 0 <= i < s.len() && s[i].0 == k)
    } else {
        None
    }
}

proof fn lemma_find_some(s: Seq<(u32, OutgoingView)>, k: u32, i: int)
    requires
        keys_sorted(s),
        0 <= i < s.len(),
        s[i].0 == k,
    ensures
        spec_find(s, k) == Some(i),
{
    let j = choose|j: int| 0 <= j < s.len() && s[j].0 == k;
    assert(j == i);
}

proof fn lemma_find_none(s: Seq<(u32, OutgoingView)>, k: u32)
    requires
        forall|i: int| 0 <= i < s.len() ==> #[trigger] s[i].0 != k,
    ensures
        spec_find(s, k) is None,
{
}

/// What draining the reorder window found: the sequence number of the
/// last segment taken out, and whether any of them calls for an ACK.
#[derive(Copy, Clone, Debug, Eq, PartialEq, Structural)]
pub struct Drained {
    pub highest_seq_no: Option<u32>,
    pub needs_ack: bool,
    pub has_recvd_segments: bool,
}

/// The segment of sequence number `seq_no` has been taken out of the
/// reorder window before: it lies below the lowest key the window expects.
pub open spec fn already_taken(s: StreamView, seq_no: u32) -> bool {
    s.order.lowest_key matches Some(l) && (seq_no as usize) < l
}

/// A received segment enters the reorder window. One already taken out is
/// dropped; one too far ahead, or one whose slot is taken, is NAKed.
pub open spec fn spec_absorb_one(s: StreamView, seg: Segment) -> StreamView {
    if already_taken(s, seg.seq_no) {
        s
    } else {
        let (w, r) = s.order.insert(seg.seq_no as usize, seg);
        match r {
            Ok(()) => StreamView { order: w, ..s },
            Err(_) => StreamView { naks: set_insert(s.naks, seg.seq_no), ..s },
        }
    }
}

/// The received segments enter the reorder window one after the other.
pub open spec fn spec_absorb_all(s: StreamView, segs: Seq<Segment>) -> StreamView
    decreases segs.len(),
{
    if segs.len() == 0 {
        s
    } else {
        spec_absorb_one(spec_absorb_all(s, segs.drop_last()), segs.last())
    }
}

/// The chunks of an in-order segment take effect one after the other. An
/// ABRT chunk clears the buffers, closes the stream and ends the
/// processing (the second component); a FIN chunk closes the receiving
/// side; payload is appended to the read buffer as far as it has room.
pub open spec fn spec_apply_chunks(s: StreamView, chunks: Seq<ChunkView>) -> (StreamView, bool)
    decreases chunks.len(),
{
    if chunks.len() == 0 {
        (s, false)
    } else {
        match chunks[0] {
            ChunkView::Abort => (
                StreamView {
                    outgoing: Seq::empty(),
                    r_buf: Seq::empty(),
                    w_buf: Seq::empty(),
                    state: StreamState::Closed,
                    ..s
                },
                true,
            ),
            ChunkView::Fin => spec_apply_chunks(
                StreamView {
                    state: if s.state == StreamState::FinSent || s.state == StreamState::LastBreath {
                        StreamState::Closed
                    } else {
                        StreamState::FinRecvd
                    },
                    ..s
                },
                chunks.drop_first(),
            ),
            ChunkView::Payload(p) => {
                let room = remaining(s.r_buf.len());
                let n = if room < p.len() {
                    room
                } else {
                    p.len()
                };
                spec_apply_chunks(
                    StreamView { r_buf: s.r_buf + p.take(n as int), ..s },
                    chunks.drop_first(),
                )
            },
            _ => spec_apply_chunks(s, chunks.drop_first()),
        }
    }
}

/// An in-order segment is taken out of the reorder window: its sequence
/// number is no longer NAKed, the window it announces becomes the
/// last-known remote window, the outgoing segments it ACKs are dropped,
/// those it NAKs are to be resent, and its chunks take effect.
pub open spec fn spec_handle_segment(s: StreamView, seg: SegmentView) -> (StreamView, bool) {
    spec_apply_chunks(
        StreamView {
            naks: set_remove(s.naks, seg.seq_no),
            outgoing: map_ack_update(s.outgoing, seg.chunks),
            remote_window_size: seg.window_size,
            ..s
        },
        seg.chunks,
    )
}

/// Takes the in-order segments out of the reorder window and handles them,
/// until a hole or an ABRT chunk. Returns the state, the last sequence
/// number taken out, whether an ACK is called for, and whether the
/// connection was aborted.
pub open spec fn spec_drain(s: StreamView, highest: Option<u32>, needs_ack: bool) -> (
    StreamView,
    Option<u32>,
    bool,
    bool,
)
    decreases s.order.available(),
{
    if !s.order.inv() || s.order.available() == 0 {
        (s, highest, needs_ack, false)
    } else {
        let (w, popped) = s.order.pop();
        let seg = popped.unwrap();
        let h = Some(seg.seq_no);
        let na = needs_ack || !segment::all_sack(seg@.chunks);
        let (s2, aborted) = spec_handle_segment(StreamView { order: w, ..s }, seg@);
        if aborted {
            (s2, h, na, true)
        } else if s2.order.available() < s.order.available() {
            spec_drain(s2, h, na)
        } else {
            (s2, h, na, false)
        }
    }
}

/// The SACK segment acknowledging everything up to `ack` and NAKing `naks`.
pub open spec fn ack_segment(seq_no: u32, window: u32, ack: u32, naks: Seq<u32>) -> SegmentView {
    SegmentView { chunks: seq![ChunkView::Sack(ack, naks)], seq_no, window_size: window }
}

/// After draining: the last sequence number taken out becomes the highest
/// consecutively received one, an emptied window expects its successor,
/// and if called for, a SACK segment is enqueued.
pub open spec fn spec_finish(s: StreamView, highest: Option<u32>, needs_ack: bool) -> StreamView {
    let s1 = match highest {
        None => s,
        Some(q) => StreamView {
            remote_seq_no: q,
            order: if s.order.is_empty() {
                WindowView { lowest_key: Some(next_seq_no(q) as usize), ..s.order }
            } else {
                s.order
            },
            ..s
        },
    };
    if needs_ack {
        let n = next_seq_no(s1.local_seq_no);
        let seg = ack_segment(n, remaining(s1.w_buf.len()) as u32, s1.remote_seq_no, s1.naks);
        StreamView {
            local_seq_no: n,
            outgoing: map_upsert(s1.outgoing, n, fresh_outgoing(seg)),
            ..s1
        }
    } else {
        s1
    }
}

/// Letting chunks take effect leaves the window, the sequence numbers, the
/// NAKs and the remote window alone, and keeps the invariant.
proof fn lemma_apply_chunks_frame(s: StreamView, chunks: Seq<ChunkView>)
    requires
        s.inv(),
    ensures
        ({
            let r = spec_apply_chunks(s, chunks).0;
            &&& r.inv()
            &&& r.order == s.order
            &&& r.naks == s.naks
            &&& r.remote_seq_no == s.remote_seq_no
            &&& r.local_seq_no == s.local_seq_no
            &&& r.compression_algorithm == s.compression_algorithm
            &&& r.remote_window_size == s.remote_window_size
        }),
    decreases chunks.len(),
{
    if chunks.len() > 0 {
        match chunks[0] {
            ChunkView::Abort => {},
            ChunkView::Fin => {
                let s1 = StreamView {
                    state: if s.state == StreamState::FinSent || s.state == StreamState::LastBreath {
                        StreamState::Closed
                    } else {
                        StreamState::FinRecvd
                    },
                    ..s
                };
                lemma_apply_chunks_frame(s1, chunks.drop_first());
            },
            ChunkView::Payload(p) => {
                let room = remaining(s.r_buf.len());
                let n = if room < p.len() {
                    room
                } else {
                    p.len()
                };
                let s1 = StreamView { r_buf: s.r_buf + p.take(n as int), ..s };
                lemma_apply_chunks_frame(s1, chunks.drop_first());
            },
            _ => {
                lemma_apply_chunks_frame(s, chunks.drop_first());
            },
        }
    }
}

impl SutpStream {
    /// Hands the segments received since the last call to the stream and
    /// takes the in-order ones out of the reorder window.
    ///
    /// `disconnected` reports that the channel from the driver has closed
    /// after these segments; the stream then fails with `DriverAway`. An
    /// ABRT chunk fails it with `ConnectionAborted`.
    #[verifier::loop_isolation(false)]
    pub fn absorb_segments(&mut self, received: Vec<Segment>, disconnected: bool) -> (r: Result<
        Drained,
        StreamError,
    >)
        requires
            old(self).wf(),
        ensures
            final(self).wf(),
            ({
                let s1 = spec_absorb_all(old(self)@, received@);
                if disconnected {
                    r == Err::<Drained, StreamError>(StreamError::DriverAway) && final(self)@ == s1
                } else {
                    let (s2, h, na, aborted) = spec_drain(s1, None, false);
                    &&& final(self)@ == s2
                    &&& r == if aborted {
                        Err::<Drained, StreamError>(StreamError::ConnectionAborted)
                    } else {
                        Ok(
                            Drained {
                                highest_seq_no: h,
                                needs_ack: na,
                                has_recvd_segments: received@.len() > 0,
                            },
                        )
                    }
                }
            }),
    {
        let has_recvd_segments = received.len() > 0;
        let ghost all = received@;
        let mut received = received;
        let mut i: usize = 0;
        assert(all.take(0) =~= Seq::<Segment>::empty());
        assert(all.skip(0) =~= all);
        while received.len() > 0
            invariant
                self.wf(),
                i <= all.len(),
                all.len() <= usize::MAX,
                received@ == all.skip(i as int),
                self@ == spec_absorb_all(old(self)@, all.take(i as int)),
            decreases received@.len(),
        {
            let seg = received.remove(0);
            let ghost g = seg;
            assert(g == all[i as int]);
            let seq_no = seg.seq_no;
            proof {
                self.order_buf.lemma_wf_inv();
                window::lemma_ops_keep_inv(self@.order, seq_no as usize, g);
            }
            // A segment below the lowest expected key was taken out before.
            let taken = match self.order_buf.lowest_key() {
                Some(l) => (seq_no as usize) < l,
                None => false,
            };
            if !taken {
                match self.order_buf.insert(seq_no as usize, seg) {
                    Ok(()) => {},
                    Err(_) => {
                        let ghost naks = self@.naks;
                        self.nak_set.insert(seq_no);
                        proof {
                            lemma_set_insert_elems(naks, seq_no);
                            lemma_sorted_elems(set_insert(naks, seq_no));
                        }
                    },
                }
            }
            i = i + 1;
            assert(all.take(i as int).drop_last() =~= all.take(i - 1));
            assert(received@ =~= all.skip(i as int));
        }
        assert(all.take(i as int) =~= all);
        if disconnected {
            return Err(StreamError::DriverAway);
        }
        let ghost target = spec_drain(self@, None, false);
        let mut highest_seq_no: Option<u32> = None;
        let mut needs_ack = false;
        loop
            invariant
                self.wf(),
                target == spec_drain(self@, highest_seq_no, needs_ack),
                target == spec_drain(spec_absorb_all(old(self)@, all), None, false),
                !disconnected,
                has_recvd_segments == (all.len() > 0),
            decreases self@.order.available(),
        {
            proof {
                self.order_buf.lemma_wf_inv();
                window::lemma_pop_available(self@.order);
                window::lemma_ops_keep_inv(self@.order, 0, arbitrary());
            }
            let ghost before = self@;
            match self.order_buf.pop() {
                None => {
                    return Ok(Drained { highest_seq_no, needs_ack, has_recvd_segments });
                },
                Some(segment) => {
                    highest_seq_no = Some(segment.seq_no);
                    needs_ack = needs_ack || segment.needs_ack();
                    let ghost naks = self@.naks;
                    self.nak_set.remove(&segment.seq_no);
                    proof {
                        lemma_set_remove_elems(naks, segment.seq_no);
                        lemma_set_remove_sorted(naks, segment.seq_no);
                        lemma_sorted_elems(set_remove(naks, segment.seq_no));
                    }
                    self.remote_window_size = segment.window_size;
                    self.apply_ack(&segment);
                    let ghost mid = self@;
                    proof {
                        lemma_apply_chunks_frame(mid, segment@.chunks);
                        window::lemma_pop_available(before.order);
                        assert(mid == StreamView {
                            naks: set_remove(before.naks, segment.seq_no),
                            outgoing: map_ack_update(before.outgoing, segment@.chunks),
                            order: before.order.pop().0,
                            remote_window_size: segment.window_size,
                            ..before
                        });
                    }
                    let aborted = self.apply_chunks(&segment);
                    if aborted {
                        return Err(StreamError::ConnectionAborted);
                    }
                },
            }
        }
    }

    /// Drops the outgoing segments that `segment` ACKs, and sets those it
    /// NAKs to be resent immediately.
    fn apply_ack(&mut self, segment: &Segment)
        requires
            old(self).wf(),
        ensures
            final(self).wf(),
            final(self)@ == (StreamView {
                outgoing: map_ack_update(old(self)@.outgoing, segment@.chunks),
                ..old(self)@
            }),
    {
        let ghost c = segment@.chunks;
        let ghost orig = old(self)@.outgoing;
        let keys = self.outgoing_keys();
        assert(keys@ =~= entry_keys(orig));
        let mut i: usize = 0;
        assert(orig.take(0) =~= Seq::<(u32, OutgoingView)>::empty());
        assert(orig.skip(0) =~= orig);
        assert(Seq::<(u32, OutgoingView)>::empty() + orig =~= orig);
        while i < keys.len()
            invariant
                self.wf(),
                keys@ == entry_keys(orig),
                i <= keys@.len(),
                c == segment@.chunks,
                self@ == (StreamView {
                    outgoing: map_ack_update(orig.take(i as int), c) + orig.skip(i as int),
                    ..old(self)@
                }),
            decreases keys@.len() - i,
        {
            let k = keys[i];
            let ghost cur = self@.outgoing;
            let ghost done = map_ack_update(orig.take(i as int), c);
            let ghost p = done.len() as int;
            let ghost e = orig[i as int];
            let ghost m = outgoing_map(self.outgoing_segments@);
            proof {
                lemma_map_ack_update_append(orig.take(i as int), seq![e], c);
                assert(orig.take(i + 1) =~= orig.take(i as int) + seq![e]);
                assert(orig.skip(i as int) =~= seq![e] + orig.skip(i + 1));
                assert(cur[p] == e);
                assert(k == e.0);
                assert(seq![e].drop_first() =~= Seq::<(u32, OutgoingView)>::empty());
                assert(m.contains_key(k));
                reveal_with_fuel(map_ack_update, 2);
            }
            let ack = segment.ack(k);
            if ack.is_ack() {
                self.outgoing_segments.remove(&k);
                proof {
                    lemma_entries_remove(cur, m, p);
                    assert(outgoing_map(self.outgoing_segments@) =~= m.remove(k));
                    lemma_sorted_entries(cur.remove(p), m.remove(k));
                    assert(cur.remove(p) =~= map_ack_update(orig.take(i + 1), c) + orig.skip(i + 1));
                }
            } else if ack.is_nak() {
                if let Some(mut o) = self.outgoing_segments.remove(&k) {
                    o.send_immediately();
                    let ghost ov = o@;
                    self.outgoing_segments.insert(k, o);
                    proof {
                        assert(outgoing_map(self.outgoing_segments@) =~= m.insert(k, ov));
                        lemma_entries_update(cur, m, p, ov);
                        lemma_sorted_entries(cur.update(p, (k, ov)), m.insert(k, ov));
                        assert(cur.update(p, (k, ov)) =~= map_ack_update(orig.take(i + 1), c)
                            + orig.skip(i + 1));
                    }
                }
            } else {
                proof {
                    assert(cur =~= map_ack_update(orig.take(i + 1), c) + orig.skip(i + 1));
                }
            }
            i = i + 1;
        }
        proof {
            assert(orig.take(i as int) =~= orig);
            assert(orig.skip(i as int) =~= Seq::<(u32, OutgoingView)>::empty());
            assert(map_ack_update(orig, c) + Seq::<(u32, OutgoingView)>::empty() =~= map_ack_update(
                orig,
                c,
            ));
        }
    }

    /// Lets the chunks of an in-order segment take effect; returns whether
    /// an ABRT chunk aborted the connection.
    fn apply_chunks(&mut self, segment: &Segment) -> (aborted: bool)
        requires
            old(self).wf(),
        ensures
            final(self).wf(),
            (final(self)@, aborted) == spec_apply_chunks(old(self)@, segment@.chunks),
    {
        let ghost c = segment@.chunks;
        let ghost target = spec_apply_chunks(old(self)@, c);
        assert(c.skip(0) =~= c);
        let mut i: usize = 0;
        while i < segment.chunks.len()
            invariant
                self.wf(),
                i <= c.len(),
                c == segment@.chunks,
                target == spec_apply_chunks(self@, c.skip(i as int)),
                target == spec_apply_chunks(old(self)@, segment@.chunks),
            decreases c.len() - i,
        {
            let ghost rest = c.skip(i as int);
            assert(rest.drop_first() =~= c.skip(i + 1));
            assert(rest[0] == c[i as int]);
            match &segment.chunks[i] {
                Chunk::Abort => {
                    let ghost pre = self@;
                    assert(c[i as int] == ChunkView::Abort);
                    self.outgoing_segments.clear();
                    self.r_buf.clear();
                    self.w_buf.clear();
                    self.state = StreamState::Closed;
                    proof {
                        assert(outgoing_map(self.outgoing_segments@) =~= Map::<
                            u32,
                            OutgoingView,
                        >::empty());
                        lemma_sorted_entries(Seq::empty(), Map::<u32, OutgoingView>::empty());
                    }
                    assert(self@.outgoing =~= Seq::<(u32, OutgoingView)>::empty());
                    assert(self@.r_buf =~= Seq::<u8>::empty());
                    assert(self@.w_buf =~= Seq::<u8>::empty());
                    assert(self@ == StreamView {
                        outgoing: Seq::empty(),
                        r_buf: Seq::empty(),
                        w_buf: Seq::empty(),
                        state: StreamState::Closed,
                        ..pre
                    });
                    return true;
                },
                Chunk::Fin => {
                    self.state = match self.state {
                        StreamState::FinSent | StreamState::LastBreath => StreamState::Closed,
                        _ => StreamState::FinRecvd,
                    };
                },
                Chunk::Payload(payload) => {
                    let room = BUF_SIZE - self.r_buf.len();
                    let copy_count = if room < payload.len() {
                        room
                    } else {
                        payload.len()
                    };
                    crate::wire::put_bytes(&mut self.r_buf, &payload.as_slice()[0..copy_count]);
                },
                _ => {},
            }
            i = i + 1;
        }
        assert(c.skip(i as int) =~= Seq::<ChunkView>::empty());
        false
    }

    /// The NAKed sequence numbers, in increasing order.
    fn nak_list(&self) -> (list: Vec<u32>)
        requires
            self.wf(),
        ensures
            list@ == self@.naks,
    {
        let ghost all = vstd::std_specs::btree::spec_btree_keys_iter(&self.nak_set).remaining();
        let mut list: Vec<u32> = Vec::new();
        for x in it: self.nak_set.iter()
            invariant
                it.seq() == all,
                list@ == all.take(it.index()).map_values(|r: &u32| *r),
        {
            list.push(*x);
            assert(list@ =~= all.take(it.index() + 1).map_values(|r: &u32| *r));
        }
        let ghost q = all.map_values(|r: &u32| *r);
        proof {
            assert(list@ =~= q);
            assert(strictly_sorted(q)) by {
                assert(vstd::laws_cmp::obeys_cmp::<u32>());
                assert(vstd::laws_cmp::obeys_cmp::<&u32>());
                assert(vstd::std_specs::btree::increasing_seq(all));
                assert forall|a: int, b: int| 0 <= a < b < q.len() implies q[a] < q[b] by {
                    assert(OrdSpec::cmp_spec(&all[a], &all[b]) is Less);
                }
            }
            assert(q.to_set() =~= self.nak_set@) by {
                assert forall|y: u32| q.to_set().contains(y) <==> self.nak_set@.contains(y) by {
                    if q.to_set().contains(y) {
                        let k = choose|k: int| 0 <= k < q.len() && q[k] == y;
                        assert(all.unref()[k] == y);
                    }
                    if self.nak_set@.contains(y) {
                        assert(all.unref().to_set().contains(y));
                        let k = choose|k: int| 0 <= k < all.unref().len() && all.unref()[k] == y;
                        assert(q[k] == y);
                    }
                }
            }
            lemma_sorted_unique(q, self@.naks);
        }
        list
    }

    /// Completes the processing of received segments: records the highest
    /// consecutively received sequence number, lets an emptied window expect
    /// its successor, and enqueues a SACK segment if one is called for.
    ///
    /// The NAK list must fit a SACK chunk when an ACK is called for.
    pub fn acknowledge(&mut self, drained: &Drained)
        requires
            old(self).wf(),
            drained.needs_ack ==> old(self)@.naks.len() <= MAX_NAKS,
        ensures
            final(self).wf(),
            final(self)@ == spec_finish(old(self)@, drained.highest_seq_no, drained.needs_ack),
    {
        if let Some(seq_no) = drained.highest_seq_no {
            self.highest_consecutive_remote_seq_no = seq_no;
            // Expect the successor, so that a segment arriving early cannot
            // keep the next one out of the window.
            if self.order_buf.is_empty() {
                proof {
                    window::lemma_empty_iff_no_element(self@.order);
                }
                self.order_buf.set_lowest_key(seq_no.wrapping_add(1) as usize);
            }
        }
        if drained.needs_ack {
            let nak_list = self.nak_list();
            let window = (BUF_SIZE - self.w_buf.len()) as u32;
            let seq_no = self.get_seq_no();
            let ack_nak_segment = SegmentBuilder::new().seq_no(seq_no).window_size(
                window,
            ).with_chunk(Chunk::Sack(self.highest_consecutive_remote_seq_no, nak_list)).build();
            assert(ack_nak_segment@.chunks =~= seq![
                ChunkView::Sack(self@.remote_seq_no, self@.naks),
            ]);
            assert(segment::is_writable(ack_nak_segment@)) by {
                assert(chunk::is_writable(ack_nak_segment@.chunks[0]));
            }
            self.enqueue_outgoing(&ack_nak_segment);
        }
    }
}


// ---------------------------------------------------------------------------
// Laws of the protocol automaton.
// ---------------------------------------------------------------------------

/// Removing a number keeps a set sorted, and does not lower its first element.
proof fn lemma_set_remove_sorted(s: Seq<u32>, x: u32)
    requires
        strictly_sorted(s),
    ensures
        strictly_sorted(set_remove(s, x)),
        set_remove(s, x).len() > 0 ==> s.len() > 0 && set_remove(s, x)[0] >= s[0],
    decreases s.len(),
{
    if s.len() > 0 {
        let t = s.drop_first();
        lemma_set_remove_sorted(t, x);
        let r = set_remove(s, x);
        let rt = set_remove(t, x);
        if s[0] != x {
            assert(r =~= seq![s[0]] + rt);
            if rt.len() > 0 {
                assert(t[0] == s[1]);
            }
            assert forall|a: int, b: int| 0 <= a < b < r.len() implies r[a] < r[b] by {
                if a == 0 {
                    assert(r[b] == rt[b - 1]);
                    assert(rt[b - 1] >= rt[0]);
                } else {
                    assert(r[a] == rt[a - 1]);
                    assert(r[b] == rt[b - 1]);
                }
            }
        } else if rt.len() > 0 {
            assert(t[0] == s[1]);
        }
    }
}

/// Setting a key keeps the keys of a map sorted; the first key afterwards
/// is the set one or the old first key.
proof fn lemma_map_upsert_sorted(s: Seq<(u32, OutgoingView)>, k: u32, v: OutgoingView)
    requires
        keys_sorted(s),
    ensures
        keys_sorted(map_upsert(s, k, v)),
        map_upsert(s, k, v).len() > 0,
        map_upsert(s, k, v)[0].0 == k || (s.len() > 0 && map_upsert(s, k, v)[0].0 == s[0].0),
    decreases s.len(),
{
    if s.len() > 0 {
        let t = s.drop_first();
        let r = map_upsert(s, k, v);
        if s[0].0 == k {
            assert forall|a: int, b: int| 0 <= a < b < r.len() implies r[a].0 < r[b].0 by {
                assert(r[b] == s[b]);
                if a > 0 {
                    assert(r[a] == s[a]);
                }
            }
        } else if s[0].0 > k {
            assert forall|a: int, b: int| 0 <= a < b < r.len() implies r[a].0 < r[b].0 by {
                assert(r[b] == s[b - 1]);
                if a > 0 {
                    assert(r[a] == s[a - 1]);
                }
            }
        } else {
            lemma_map_upsert_sorted(t, k, v);
            let rt = map_upsert(t, k, v);
            if t.len() > 0 {
                assert(t[0] == s[1]);
            }
            assert forall|a: int, b: int| 0 <= a < b < r.len() implies r[a].0 < r[b].0 by {
                assert(r[b] == rt[b - 1]);
                if a == 0 {
                    if b - 1 > 0 {
                        assert(rt[0].0 < rt[b - 1].0);
                    }
                } else {
                    assert(r[a] == rt[a - 1]);
                }
            }
        }
    }
}

/// A received segment that ACKs and NAKs nothing leaves the outgoing
/// segments alone.
proof fn lemma_map_ack_update_silent(s: Seq<(u32, OutgoingView)>, chunks: Seq<ChunkView>)
    requires
        forall|n: u32| #[trigger] segment::spec_ack(chunks, n) is None,
    ensures
        map_ack_update(s, chunks) == s,
    decreases s.len(),
{
    if s.len() > 0 {
        lemma_map_ack_update_silent(s.drop_first(), chunks);
        assert(segment::spec_ack(chunks, s[0].0) is None);
        assert(seq![s[0]] + s.drop_first() =~= s);
    }
}

/// The stream expects the segment of sequence number `seq_no` next: its
/// reorder window holds nothing, and its lowest key is `seq_no`.
pub open spec fn expects_next(s: StreamView, seq_no: u32) -> bool {
    &&& s.order.lowest_key == Some(seq_no as usize)
    &&& forall|i: int| 0 <= i < s.order.slots.len() ==> #[trigger] s.order.slots[i] is None
}

/// The read buffer `r` after payload `p` arrived: as much of `p` as there
/// is room for is appended.
pub open spec fn append_bounded(r: Seq<u8>, p: Seq<u8>) -> Seq<u8> {
    let room = remaining(r.len());
    r + p.take(
        if room < p.len() {
            room
        } else {
            p.len()
        } as int,
    )
}

/// In-order delivery. A data segment that arrives at a stream expecting
/// it is handed to the reader at once: its payload is appended to the read
/// buffer, as far as there is room, the window it announces becomes the
/// last-known remote window, and its NAK is dropped, while the write
/// buffer and the state stay as they were; the segment is ACKed by a SACK segment
/// under the next local sequence number, naming it as the highest
/// consecutively received; and the stream then expects the segment after
/// it.
pub proof fn lemma_in_order_delivery(s: StreamView, seg: Segment, window: u32, payload: Seq<u8>)
    requires
        s.inv(),
        expects_next(s, seg.seq_no),
        seg@ == data_segment(seg.seq_no, window, payload),
    ensures
        ({
            let s1 = spec_absorb_all(s, seq![seg]);
            let (s2, h, na, aborted) = spec_drain(s1, None, false);
            let s3 = spec_finish(s2, h, na);
            let n = next_seq_no(s.local_seq_no);
            let naks = set_remove(s.naks, seg.seq_no);
            &&& !aborted
            &&& h == Some(seg.seq_no)
            &&& na
            &&& s3.inv()
            &&& s3.r_buf == append_bounded(s.r_buf, payload)
            &&& s3.w_buf == s.w_buf
            &&& s3.remote_window_size == window
            &&& s3.state == s.state
            &&& s3.naks == naks
            &&& s3.remote_seq_no == seg.seq_no
            &&& s3.local_seq_no == n
            &&& s3.outgoing == map_upsert(
                s.outgoing,
                n,
                fresh_outgoing(ack_segment(n, remaining(s.w_buf.len()) as u32, seg.seq_no, naks)),
            )
            &&& expects_next(s3, next_seq_no(seg.seq_no))
        }),
{
    let key = seg.seq_no as usize;
    let chunks = seg@.chunks;
    // The segment enters the head slot of the window.
    let (w1, r1) = s.order.insert(key, seg);
    assert(r1 is Ok);
    assert(seq![seg].drop_last() =~= Seq::<Segment>::empty());
    reveal_with_fuel(spec_absorb_all, 2);
    let s1 = spec_absorb_all(s, seq![seg]);
    assert(s1 == StreamView { order: w1, ..s });
    assert forall|i: int| 1 <= i < w1.slots.len() implies #[trigger] w1.slots[i] is None by {
        assert(w1.slots[i] == s.order.slots[i]);
    }
    window::lemma_pop_single(w1, seg);
    let w2 = w1.pop().0;
    // It is taken out again, ACKs nothing, and its payload takes effect.
    assert(!segment::all_sack(chunks)) by {
        assert(!segment::is_sack(chunks[0]));
    }
    assert forall|n: u32| #[trigger] segment::spec_ack(chunks, n) is None by {
        assert(chunks.drop_first() =~= Seq::<ChunkView>::empty());
        reveal_with_fuel(segment::spec_ack, 2);
    }
    lemma_map_ack_update_silent(s.outgoing, chunks);
    let naks = set_remove(s.naks, seg.seq_no);
    let x = StreamView { naks, order: w2, remote_window_size: window, ..s };
    assert(chunks.drop_first() =~= Seq::<ChunkView>::empty());
    reveal_with_fuel(spec_apply_chunks, 2);
    let s2 = spec_apply_chunks(x, chunks).0;
    assert(spec_handle_segment(StreamView { order: w2, ..s1 }, seg@) == (s2, false));
    assert(s2 == StreamView { r_buf: append_bounded(s.r_buf, payload), ..x });
    assert(spec_drain(s2, Some(seg.seq_no), true) == (s2, Some(seg.seq_no), true, false));
    assert(spec_drain(s1, None, false) == (s2, Some(seg.seq_no), true, false));
    // The SACK segment is enqueued and the window expects the successor.
    let s3 = spec_finish(s2, Some(seg.seq_no), true);
    lemma_set_remove_sorted(s.naks, seg.seq_no);
    let n = next_seq_no(s.local_seq_no);
    lemma_map_upsert_sorted(
        s.outgoing,
        n,
        fresh_outgoing(ack_segment(n, remaining(s.w_buf.len()) as u32, seg.seq_no, naks)),
    );
    assert(s3.r_buf.len() <= BUF_SIZE);
}


/// An ABRT chunk ends the connection, and only an ABRT chunk does: the
/// chunks of a segment abort the processing exactly when one of them is
/// ABRT, and then, whatever chunks came before it, the stream is closed and
/// its read buffer, write buffer and outgoing segments are dropped.
pub proof fn lemma_abort_closes(s: StreamView, chunks: Seq<ChunkView>)
    ensures
        ({
            let (r, aborted) = spec_apply_chunks(s, chunks);
            &&& aborted == segment::contains_abrt(chunks)
            &&& aborted ==> r.state == StreamState::Closed && r.r_buf.len() == 0 && r.w_buf.len()
                == 0 && r.outgoing.len() == 0
        }),
    decreases chunks.len(),
{
    if chunks.len() > 0 {
        let t = chunks.drop_first();
        assert(segment::contains_abrt(chunks) == (segment::is_abrt(chunks[0])
            || segment::contains_abrt(t))) by {
            if segment::contains_abrt(t) {
                let i = choose|i: int| 0 <= i < t.len() && segment::is_abrt(#[trigger] t[i]);
                assert(chunks[i + 1] == t[i]);
            }
            if segment::contains_abrt(chunks) && !segment::is_abrt(chunks[0]) {
                let i = choose|i: int| 0 <= i < chunks.len() && segment::is_abrt(#[trigger] chunks[i]);
                assert(t[i - 1] == chunks[i]);
            }
        }
        match chunks[0] {
            ChunkView::Abort => {},
            ChunkView::Fin => {
                let s1 = StreamView {
                    state: if s.state == StreamState::FinSent || s.state == StreamState::LastBreath {
                        StreamState::Closed
                    } else {
                        StreamState::FinRecvd
                    },
                    ..s
                };
                lemma_abort_closes(s1, t);
            },
            ChunkView::Payload(p) => {
                let room = remaining(s.r_buf.len());
                let n = if room < p.len() {
                    room
                } else {
                    p.len()
                };
                lemma_abort_closes(StreamView { r_buf: s.r_buf + p.take(n as int), ..s }, t);
            },
            _ => {
                lemma_abort_closes(s, t);
            },
        }
    }
}

/// Connection shutdown. One side shuts down: it enqueues its FIN segment
/// and closes its sending half. The other side, receiving the FIN, closes
/// its receiving half; shutting down in turn, it enqueues its own FIN;
/// receiving that FIN closes the first side, and one more step closes the
/// second. Shutting down a closed stream changes nothing and reports it
/// closed.
pub proof fn lemma_shutdown_handshake(a: StreamView, b: StreamView)
    requires
        a.state == StreamState::Open,
        b.state == StreamState::Open,
    ensures
        ({
            let fin = seq![ChunkView::Fin];
            let (a1, c1) = spec_shutdown_step(a);
            let (b1, d1) = spec_apply_chunks(b, fin);
            let (b2, c2) = spec_shutdown_step(b1);
            let (a2, d2) = spec_apply_chunks(a1, fin);
            let (b3, c3) = spec_shutdown_step(b2);
            let na = next_seq_no(a.local_seq_no);
            let nb = next_seq_no(b.local_seq_no);
            &&& !c1 && a1.state == StreamState::FinSent
            &&& a1.outgoing == map_upsert(
                a.outgoing,
                na,
                fresh_outgoing(fin_segment(na, remaining(a.w_buf.len()) as u32)),
            )
            &&& !d1 && b1.state == StreamState::FinRecvd && b1.r_buf == b.r_buf
            &&& !c2 && b2.state == StreamState::LastBreath
            &&& b2.outgoing == map_upsert(
                b.outgoing,
                nb,
                fresh_outgoing(fin_segment(nb, remaining(b.w_buf.len()) as u32)),
            )
            &&& !d2 && a2.state == StreamState::Closed
            &&& !c3 && b3.state == StreamState::Closed
            &&& spec_shutdown_step(a2) == (a2, true)
            &&& spec_shutdown_step(b3) == (b3, true)
        }),
{
    let fin = seq![ChunkView::Fin];
    assert(fin.drop_first() =~= Seq::<ChunkView>::empty());
    reveal_with_fuel(spec_apply_chunks, 2);
}

/// No data is handed to the reader twice: a segment below the lowest key
/// that the window expects, one taken out before, is dropped and leaves
/// the stream as it was.
pub proof fn lemma_duplicate_dropped(s: StreamView, seg: Segment)
    requires
        s.order.lowest_key matches Some(l) && (seg.seq_no as usize) < l,
    ensures
        spec_absorb_one(s, seg) == s,
{
}


/// What becomes of an outgoing segment when a segment with `chunks`
/// arrives: it is gone if ACKed, to be resent at once if NAKed, and left
/// alone otherwise.
pub open spec fn after_ack(e: (u32, OutgoingView), chunks: Seq<ChunkView>) -> Option<(u32, OutgoingView)> {
    match segment::spec_ack(chunks, e.0) {
        Some(true) => None,
        Some(false) => Some((e.0, OutgoingView { resend_timeout_set: false, ..e.1 })),
        None => Some(e),
    }
}

/// The sending side keeps a segment until it is ACKed. When a segment with
/// `chunks` arrives, every outgoing segment that it does not ACK stays,
/// those it NAKs to be resent at once, and nothing else is left: in
/// particular no ACKed segment.
pub proof fn lemma_ack_keeps_unacked(s: Seq<(u32, OutgoingView)>, chunks: Seq<ChunkView>)
    ensures
        ({
            let r = map_ack_update(s, chunks);
            &&& forall|j: int|
                0 <= j < r.len() ==> exists|i: int|
                    0 <= i < s.len() && #[trigger] after_ack(s[i], chunks) == Some(#[trigger] r[j])
            &&& forall|i: int|
                0 <= i < s.len() && (#[trigger] after_ack(s[i], chunks)) is Some ==> exists|j: int|
                    0 <= j < r.len() && Some(#[trigger] r[j]) == after_ack(s[i], chunks)
            &&& forall|j: int|
                0 <= j < r.len() ==> segment::spec_ack(chunks, #[trigger] r[j].0) != Some(true)
        }),
    decreases s.len(),
{
    let r = map_ack_update(s, chunks);
    if s.len() > 0 {
        let t = s.drop_first();
        lemma_ack_keeps_unacked(t, chunks);
        let rt = map_ack_update(t, chunks);
        let x = after_ack(s[0], chunks);
        assert(r == match x {
            Some(e) => seq![e] + rt,
            None => rt,
        });
        assert forall|j: int| 0 <= j < r.len() implies exists|i: int|
            0 <= i < s.len() && #[trigger] after_ack(s[i], chunks) == Some(#[trigger] r[j]) by {
            if x is Some && j == 0 {
                assert(after_ack(s[0], chunks) == Some(r[0]));
            } else {
                let jt = if x is Some {
                    j - 1
                } else {
                    j
                };
                assert(r[j] == rt[jt]);
                let it = choose|it: int|
                    0 <= it < t.len() && #[trigger] after_ack(t[it], chunks) == Some(rt[jt]);
                assert(t[it] == s[it + 1]);
                assert(after_ack(s[it + 1], chunks) == Some(r[j]));
            }
        }
        assert forall|i: int| 0 <= i < s.len() && (#[trigger] after_ack(s[i], chunks)) is Some implies exists|j: int|
            0 <= j < r.len() && Some(#[trigger] r[j]) == after_ack(s[i], chunks) by {
            if i == 0 {
                assert(Some(r[0]) == after_ack(s[0], chunks));
            } else {
                assert(t[i - 1] == s[i]);
                assert(after_ack(t[i - 1], chunks) is Some);
                let jt = choose|jt: int| 0 <= jt < rt.len() && Some(rt[jt]) == after_ack(t[i - 1], chunks);
                if x is Some {
                    assert(r[jt + 1] == rt[jt]);
                } else {
                    assert(r[jt] == rt[jt]);
                }
            }
        }
        assert forall|j: int| 0 <= j < r.len() implies segment::spec_ack(chunks, #[trigger] r[j].0)
            != Some(true) by {
            if x is Some && j == 0 {
            } else {
                let jt = if x is Some {
                    j - 1
                } else {
                    j
                };
                assert(r[j] == rt[jt]);
            }
        }
    }
}

/// The data segments that `data` is divided into, numbered on from
/// `seq_no`: each carries the next at most `OUTGOING_PAYLOAD_SIZE` bytes.
pub open spec fn data_segments(seq_no: u32, data: Seq<u8>, window: u32) -> Seq<SegmentView>
    decreases data.len(),
{
    if data.len() == 0 {
        Seq::empty()
    } else {
        let n = if data.len() < OUTGOING_PAYLOAD_SIZE {
            data.len()
        } else {
            OUTGOING_PAYLOAD_SIZE as nat
        };
        seq![data_segment(seq_no, window, data.take(n as int))] + data_segments(
            next_seq_no(seq_no),
            data.skip(n as int),
            window,
        )
    }
}

/// The segment announces `window` and has a single payload chunk of at
/// least one and at most `OUTGOING_PAYLOAD_SIZE` bytes.
pub open spec fn is_data_segment(seg: SegmentView, window: u32) -> bool {
    &&& seg.window_size == window
    &&& seg.chunks.len() == 1
    &&& (seg.chunks[0] matches ChunkView::Payload(p) && 0 < p.len() <= OUTGOING_PAYLOAD_SIZE)
}

/// The payload of a chunk list: the payload chunks' data, one after the
/// other.
pub open spec fn chunks_payload(chunks: Seq<ChunkView>) -> Seq<u8>
    decreases chunks.len(),
{
    if chunks.len() == 0 {
        Seq::empty()
    } else {
        (match chunks[0] {
            ChunkView::Payload(p) => p,
            _ => Seq::empty(),
        }) + chunks_payload(chunks.drop_first())
    }
}

/// The payload that segments carry, one after the other.
pub open spec fn carried(segs: Seq<SegmentView>) -> Seq<u8>
    decreases segs.len(),
{
    if segs.len() == 0 {
        Seq::empty()
    } else {
        chunks_payload(segs[0].chunks) + carried(segs.drop_first())
    }
}

/// The outgoing segments after enqueueing `segs` one after the other.
pub open spec fn enqueue_all(o: Seq<(u32, OutgoingView)>, segs: Seq<SegmentView>) -> Seq<
    (u32, OutgoingView),
>
    decreases segs.len(),
{
    if segs.len() == 0 {
        o
    } else {
        enqueue_all(map_upsert(o, segs[0].seq_no, fresh_outgoing(segs[0])), segs.drop_first())
    }
}

/// Payload goes out in the order it was written. Preparing segments divides
/// the written data into data segments with consecutive sequence numbers,
/// following the stream's local sequence number; each carries at least one
/// and at most `OUTGOING_PAYLOAD_SIZE` bytes, their payloads one after the
/// other are the written data, and they are enqueued in that order; the
/// local sequence number becomes the last one used.
#[verifier::spinoff_prover]
pub proof fn lemma_prepare_in_order(s: StreamView, data: Seq<u8>, window: u32)
    ensures
        ({
            let segs = data_segments(next_seq_no(s.local_seq_no), data, window);
            &&& carried(segs) == data
            &&& forall|i: int| 0 <= i < segs.len() ==> is_data_segment(#[trigger] segs[i], window)
            &&& segs.len() > 0 ==> segs[0].seq_no == next_seq_no(s.local_seq_no)
            &&& forall|i: int|
                0 < i < segs.len() ==> (#[trigger] segs[i]).seq_no == next_seq_no(
                    segs[i - 1].seq_no,
                )
            &&& spec_prepare(s, data, window) == StreamView {
                local_seq_no: if segs.len() == 0 {
                    s.local_seq_no
                } else {
                    segs.last().seq_no
                },
                outgoing: enqueue_all(s.outgoing, segs),
                ..s
            }
        }),
    decreases data.len(),
{
    let segs = data_segments(next_seq_no(s.local_seq_no), data, window);
    if data.len() > 0 {
        let n = if data.len() < OUTGOING_PAYLOAD_SIZE {
            data.len()
        } else {
            OUTGOING_PAYLOAD_SIZE as nat
        };
        let seq_no = next_seq_no(s.local_seq_no);
        let seg = data_segment(seq_no, window, data.take(n as int));
        let s1 = StreamView {
            local_seq_no: seq_no,
            outgoing: map_upsert(s.outgoing, seq_no, fresh_outgoing(seg)),
            ..s
        };
        let rest = data.skip(n as int);
        lemma_prepare_in_order(s1, rest, window);
        let tail = data_segments(next_seq_no(seq_no), rest, window);
        assert(segs == seq![seg] + tail);
        assert(segs.drop_first() =~= tail);
        assert(segs[0] == seg);
        assert(chunks_payload(seg.chunks) == data.take(n as int)) by {
            assert(seg.chunks.drop_first() =~= Seq::<ChunkView>::empty());
            reveal_with_fuel(chunks_payload, 2);
            assert(data.take(n as int) + Seq::<u8>::empty() =~= data.take(n as int));
        }
        assert(data.take(n as int) + rest =~= data);
        assert forall|i: int| 0 <= i < segs.len() implies is_data_segment(#[trigger] segs[i], window) by {
            if i > 0 {
                assert(segs[i] == tail[i - 1]);
            }
        }
        assert forall|i: int| 0 < i < segs.len() implies (#[trigger] segs[i]).seq_no
            == next_seq_no(segs[i - 1].seq_no) by {
            assert(segs[i] == tail[i - 1]);
            if i > 1 {
                assert(segs[i - 1] == tail[i - 2]);
            }
        }
        if tail.len() > 0 {
            assert(segs.last() == tail.last());
        }
        assert(spec_prepare(s, data, window) == spec_prepare(s1, rest, window));
        assert(enqueue_all(s.outgoing, segs) == enqueue_all(s1.outgoing, tail));
        assert(carried(segs) == chunks_payload(seg.chunks) + carried(tail));
    }
}


/// What one side writes, the other side reads. Preparing a write of at
/// most `OUTGOING_PAYLOAD_SIZE` bytes enqueues one data segment under the
/// writer's next sequence number; its bytes on the wire read back as that
/// segment; and a reader expecting that sequence number hands the written
/// data to its user, as far as its read buffer has room.
pub proof fn lemma_write_then_read(a: StreamView, b: StreamView, data: Seq<u8>, window: u32, seg: Segment)
    requires
        b.inv(),
        0 < data.len() <= OUTGOING_PAYLOAD_SIZE,
        expects_next(b, next_seq_no(a.local_seq_no)),
        seg@ == data_segment(next_seq_no(a.local_seq_no), window, data),
    ensures
        ({
            let n = next_seq_no(a.local_seq_no);
            let sent = spec_prepare(a, data, window);
            let (b2, h, na, aborted) = spec_drain(spec_absorb_all(b, seq![seg]), None, false);
            &&& sent.outgoing == map_upsert(a.outgoing, n, fresh_outgoing(seg@))
            &&& segment::spec_read_segment(fresh_outgoing(seg@).data) == segment::SegmentRead::Segment(seg@)
            &&& spec_finish(b2, h, na).r_buf == append_bounded(b.r_buf, data)
        }),
{
    let n = next_seq_no(a.local_seq_no);
    lemma_prepare_in_order(a, data, window);
    let segs = data_segments(n, data, window);
    assert(data.skip(data.len() as int) =~= Seq::<u8>::empty());
    assert(data.take(data.len() as int) =~= data);
    reveal_with_fuel(data_segments, 2);
    assert(segs =~= seq![seg@]);
    assert(segs.drop_first() =~= Seq::<SegmentView>::empty());
    reveal_with_fuel(enqueue_all, 2);
    assert(segment::is_canonical(seg@)) by {
        assert(chunk::is_canonical(seg@.chunks[0]));
    }
    segment::lemma_segment_roundtrip(seg@);
    lemma_in_order_delivery(b, seg, window, data);
}


/// SACK chunks take no effect of their own on the stream.
proof fn lemma_apply_sacks(s: StreamView, chunks: Seq<ChunkView>)
    requires
        segment::all_sack(chunks),
    ensures
        spec_apply_chunks(s, chunks) == (s, false),
    decreases chunks.len(),
{
    if chunks.len() > 0 {
        assert(segment::is_sack(chunks[0]));
        assert forall|i: int| 0 <= i < chunks.drop_first().len() implies segment::is_sack(
            #[trigger] chunks.drop_first()[i],
        ) by {
            assert(chunks.drop_first()[i] == chunks[i + 1]);
        }
        lemma_apply_sacks(s, chunks.drop_first());
    }
}

/// No ACK loops: a segment of nothing but SACK chunks that arrives in
/// order is taken out of the window and takes effect on the outgoing
/// segments, but calls for no ACK, so the stream enqueues nothing in
/// return.
pub proof fn lemma_sack_only_not_acked(s: StreamView, seg: Segment)
    requires
        s.inv(),
        expects_next(s, seg.seq_no),
        segment::all_sack(seg@.chunks),
    ensures
        ({
            let (s2, h, na, aborted) = spec_drain(spec_absorb_all(s, seq![seg]), None, false);
            let s3 = spec_finish(s2, h, na);
            &&& !aborted
            &&& h == Some(seg.seq_no)
            &&& !na
            &&& s3.outgoing == map_ack_update(s.outgoing, seg@.chunks)
            &&& s3.local_seq_no == s.local_seq_no
            &&& s3.remote_seq_no == seg.seq_no
            &&& s3.r_buf == s.r_buf
            &&& s3.state == s.state
            &&& expects_next(s3, next_seq_no(seg.seq_no))
        }),
{
    let key = seg.seq_no as usize;
    let chunks = seg@.chunks;
    let (w1, r1) = s.order.insert(key, seg);
    assert(seq![seg].drop_last() =~= Seq::<Segment>::empty());
    reveal_with_fuel(spec_absorb_all, 2);
    let s1 = spec_absorb_all(s, seq![seg]);
    assert(s1 == StreamView { order: w1, ..s });
    assert forall|i: int| 1 <= i < w1.slots.len() implies #[trigger] w1.slots[i] is None by {
        assert(w1.slots[i] == s.order.slots[i]);
    }
    window::lemma_pop_single(w1, seg);
    let w2 = w1.pop().0;
    let x = StreamView {
        naks: set_remove(s.naks, seg.seq_no),
        outgoing: map_ack_update(s.outgoing, chunks),
        order: w2,
        remote_window_size: seg.window_size,
        ..s
    };
    lemma_apply_sacks(x, chunks);
    assert(spec_handle_segment(StreamView { order: w2, ..s1 }, seg@) == (x, false));
    assert(spec_drain(x, Some(seg.seq_no), false) == (x, Some(seg.seq_no), false, false));
}


/// The window entries of received segments, keyed by sequence number.
pub open spec fn segment_entries(segs: Seq<Segment>) -> Seq<(usize, Segment)> {
    segs.map_values(|g: Segment| (g.seq_no as usize, g))
}

/// Segments under distinct sequence numbers within the capacity above the
/// lowest key of an empty window all enter it.
proof fn lemma_absorb_all_inserts(s: StreamView, l: usize, segs: Seq<Segment>)
    requires
        s.order.lowest_key == Some(l),
        forall|d: int| 0 <= d < s.order.slots.len() ==> #[trigger] s.order.slots[d] is None,
        forall|i: int|
            0 <= i < segs.len() ==> l <= (#[trigger] segs[i]).seq_no < l + s.order.slots.len(),
        forall|i: int, j: int| 0 <= i < j < segs.len() ==> segs[i].seq_no != segs[j].seq_no,
    ensures
        spec_absorb_all(s, segs) == (StreamView {
            order: window::insert_all(s.order, segment_entries(segs)),
            ..s
        }),
    decreases segs.len(),
{
    let entries = segment_entries(segs);
    assert forall|i: int| 0 <= i < entries.len() implies l <= #[trigger] entries[i].0 < l
        + s.order.slots.len() by {
        assert(entries[i] == (segs[i].seq_no as usize, segs[i]));
    }
    assert forall|i: int, j: int| 0 <= i < j < entries.len() implies entries[i].0
        != entries[j].0 by {
        assert(entries[i] == (segs[i].seq_no as usize, segs[i]));
        assert(entries[j] == (segs[j].seq_no as usize, segs[j]));
    }
    if segs.len() > 0 {
        let init = segs.drop_last();
        let last = segs.last();
        assert forall|i: int| 0 <= i < init.len() implies l <= (#[trigger] init[i]).seq_no < l
            + s.order.slots.len() by {
            assert(init[i] == segs[i]);
        }
        assert forall|i: int, j: int| 0 <= i < j < init.len() implies init[i].seq_no
            != init[j].seq_no by {
            assert(init[i] == segs[i]);
            assert(init[j] == segs[j]);
        }
        lemma_absorb_all_inserts(s, l, init);
        let ie = segment_entries(init);
        assert(ie =~= entries.drop_last());
        window::lemma_insert_all_slots(s.order, l, ie);
        let w = window::insert_all(s.order, ie);
        let k = last.seq_no as usize;
        assert forall|i: int| 0 <= i < ie.len() implies #[trigger] ie[i].0 - l != k - l by {
            assert(ie[i] == (init[i].seq_no as usize, init[i]));
            assert(init[i] == segs[i]);
            assert(segs[segs.len() - 1] == last);
        }
        assert(w.slots[k - l] is None);
        assert(entries.last() == (k, last));
    }
}

/// The payload of the segments in the slots, one after the other.
pub open spec fn window_payload(slots: Seq<Option<Segment>>) -> Seq<u8>
    decreases slots.len(),
{
    if slots.len() == 0 {
        Seq::empty()
    } else {
        (match slots[0] {
            Some(g) => chunks_payload(g@.chunks),
            None => Seq::empty(),
        }) + window_payload(slots.drop_first())
    }
}


/// The segment has a single chunk, and it is a payload chunk.
pub open spec fn is_payload_only(g: SegmentView) -> bool {
    g.chunks.len() == 1 && g.chunks[0] is Payload
}

/// Draining a window whose first `m` slots hold data segments and whose
/// other slots are empty hands their payloads to the read buffer, one after
/// the other, and empties the window.
#[verifier::rlimit(100)]
proof fn lemma_drain_data(s: StreamView, m: nat, h: Option<u32>, na: bool)
    requires
        s.inv(),
        m <= s.order.slots.len(),
        m > 0 ==> s.order.lowest_key is Some,
        forall|d: int|
            0 <= d < m ==> ((#[trigger] s.order.slots[d]) matches Some(g) && is_payload_only(g@)),
        forall|d: int| m <= d < s.order.slots.len() ==> #[trigger] s.order.slots[d] is None,
        s.r_buf.len() + window_payload(s.order.slots.take(m as int)).len() <= BUF_SIZE,
    ensures
        ({
            let (s2, h2, na2, aborted) = spec_drain(s, h, na);
            &&& !aborted
            &&& s2.inv()
            &&& s2.r_buf == s.r_buf + window_payload(s.order.slots.take(m as int))
            &&& s2.w_buf == s.w_buf
            &&& s2.state == s.state
            &&& s2.outgoing == s.outgoing
            &&& s2.local_seq_no == s.local_seq_no
            &&& s2.remote_seq_no == s.remote_seq_no
            &&& s2.order.slots.len() == s.order.slots.len()
            &&& forall|d: int|
                0 <= d < s2.order.slots.len() ==> #[trigger] s2.order.slots[d] is None
            &&& m == 0 ==> h2 == h && na2 == na
            &&& m > 0 ==> h2 == Some(s.order.slots[m - 1]->0.seq_no) && na2
        }),
    decreases m,
{
    let slots = s.order.slots;
    if m == 0 {
        assert(slots.take(0) =~= Seq::<Option<Segment>>::empty());
        assert(slots[0] is None);
        assert(s.order.available() == 0);
    } else {
        window::lemma_pop_available(s.order);
        window::lemma_ops_keep_inv(s.order, 0, arbitrary());
        let g0 = slots[0]->0;
        let (w, x) = s.order.pop();
        assert(x == Some(g0));
        assert(w.slots == slots.drop_first().push(None));
        let c0 = g0@.chunks;
        let p = c0[0]->Payload_0;
        assert(c0 =~= seq![ChunkView::Payload(p)]);
        assert(c0.drop_first() =~= Seq::<ChunkView>::empty());
        assert(!segment::all_sack(c0)) by {
            assert(!segment::is_sack(c0[0]));
        }
        assert forall|n: u32| #[trigger] segment::spec_ack(c0, n) is None by {
            reveal_with_fuel(segment::spec_ack, 2);
        }
        lemma_map_ack_update_silent(s.outgoing, c0);
        let rest = slots.take(m as int).drop_first();
        assert(chunks_payload(c0) == p) by {
            reveal_with_fuel(chunks_payload, 2);
            assert(p + Seq::<u8>::empty() =~= p);
        }
        assert(window_payload(slots.take(m as int)) == p + window_payload(rest));
        let x1 = StreamView {
            naks: set_remove(s.naks, g0.seq_no),
            order: w,
            remote_window_size: g0.window_size,
            ..s
        };
        reveal_with_fuel(spec_apply_chunks, 2);
        assert(p.take(p.len() as int) =~= p);
        let s1 = StreamView { r_buf: s.r_buf + p, ..x1 };
        assert(spec_apply_chunks(x1, c0) == (s1, false));
        assert(spec_handle_segment(StreamView { order: w, ..s }, g0@) == (s1, false));
        lemma_set_remove_sorted(s.naks, g0.seq_no);
        assert(w.slots.take(m - 1) =~= rest);
        assert forall|d: int| 0 <= d < m - 1 implies ((#[trigger] w.slots[d]) matches Some(g)
            && is_payload_only(g@)) by {
            assert(w.slots[d] == slots[d + 1]);
        }
        assert forall|d: int| m - 1 <= d < w.slots.len() implies #[trigger] w.slots[d] is None by {
            if d < w.slots.len() - 1 {
                assert(w.slots[d] == slots[d + 1]);
            }
        }
        if m > 1 {
            assert(w.slots[0] is Some);
        }
        lemma_drain_data(s1, (m - 1) as nat, Some(g0.seq_no), true);
        if m > 1 {
            assert(w.slots[m - 2] == slots[m - 1]);
        }
    }
}

/// The payloads of the segments in the slots are those of the segments in
/// order.
proof fn lemma_window_payload_sorted(slots: Seq<Option<Segment>>, sorted: Seq<Segment>)
    requires
        slots.len() == sorted.len(),
        forall|d: int| 0 <= d < slots.len() ==> #[trigger] slots[d] == Some(sorted[d]),
    ensures
        window_payload(slots) == carried(sorted.map_values(|g: Segment| g@)),
    decreases slots.len(),
{
    if slots.len() > 0 {
        assert forall|d: int| 0 <= d < slots.drop_first().len() implies #[trigger] slots.drop_first()[d]
            == Some(sorted.drop_first()[d]) by {
            assert(slots.drop_first()[d] == slots[d + 1]);
        }
        lemma_window_payload_sorted(slots.drop_first(), sorted.drop_first());
        assert(sorted.map_values(|g: Segment| g@).drop_first() =~= sorted.drop_first().map_values(
            |g: Segment| g@,
        ));
        assert(slots[0] == Some(sorted[0]));
    }
}

/// Some segment has sequence number `l + d`.
pub open spec fn seq_present(segs: Seq<Segment>, l: u32, d: int) -> bool {
    exists|i: int| 0 <= i < segs.len() && segs[i].seq_no == l + d
}

/// In-order arrival. Data segments that arrive together, in any order, are
/// read in the order of their sequence numbers. When a stream expecting
/// `l` receives the segments of sequence numbers `l .. l + k`, each once
/// and in whatever order, with `k` at most the window's capacity and room
/// for their data in the read buffer, then their payloads are appended to
/// the read buffer by increasing sequence number, the last of them is the
/// one to name in the ACK, and the buffers, the state, the outgoing
/// segments and the local sequence number stay as they were.
pub proof fn lemma_reordered_delivery(
    s: StreamView,
    l: u32,
    sorted: Seq<Segment>,
    arrival: Seq<Segment>,
)
    requires
        s.inv(),
        expects_next(s, l),
        sorted.len() <= ORDER_BUF_CAPACITY,
        l + sorted.len() <= u32::MAX + 1,
        forall|d: int|
            0 <= d < sorted.len() ==> (#[trigger] sorted[d]).seq_no == l + d && is_payload_only(
                sorted[d]@,
            ),
        arrival.len() == sorted.len(),
        forall|i: int|
            0 <= i < arrival.len() ==> l <= (#[trigger] arrival[i]).seq_no < l + sorted.len()
                && arrival[i] == sorted[arrival[i].seq_no - l],
        forall|i: int, j: int| 0 <= i < j < arrival.len() ==> arrival[i].seq_no != arrival[j].seq_no,
        forall|d: int| 0 <= d < sorted.len() ==> #[trigger] seq_present(arrival, l, d),
        s.r_buf.len() + carried(sorted.map_values(|g: Segment| g@)).len() <= BUF_SIZE,
    ensures
        ({
            let (s2, h, na, aborted) = spec_drain(spec_absorb_all(s, arrival), None, false);
            &&& !aborted
            &&& s2.r_buf == s.r_buf + carried(sorted.map_values(|g: Segment| g@))
            &&& sorted.len() > 0 ==> h == Some((l + sorted.len() - 1) as u32) && na
            &&& s2.w_buf == s.w_buf
            &&& s2.state == s.state
            &&& s2.outgoing == s.outgoing
            &&& s2.local_seq_no == s.local_seq_no
        }),
{
    let k = sorted.len();
    let lk = l as usize;
    let cap = s.order.slots.len();
    assert forall|i: int| 0 <= i < arrival.len() implies lk <= (#[trigger] arrival[i]).seq_no < lk
        + cap by {}
    lemma_absorb_all_inserts(s, lk, arrival);
    let entries = segment_entries(arrival);
    assert forall|i: int| 0 <= i < entries.len() implies lk <= #[trigger] entries[i].0 < lk + cap by {
        assert(entries[i] == (arrival[i].seq_no as usize, arrival[i]));
    }
    assert forall|i: int, j: int| 0 <= i < j < entries.len() implies entries[i].0
        != entries[j].0 by {
        assert(entries[i] == (arrival[i].seq_no as usize, arrival[i]));
        assert(entries[j] == (arrival[j].seq_no as usize, arrival[j]));
    }
    window::lemma_insert_all_slots(s.order, lk, entries);
    let w = window::insert_all(s.order, entries);
    let s1 = StreamView { order: w, ..s };
    assert forall|d: int| 0 <= d < k implies #[trigger] w.slots[d] == Some(sorted[d]) by {
        assert(seq_present(arrival, l, d));
        let i = choose|i: int| 0 <= i < arrival.len() && arrival[i].seq_no == l + d;
        assert(entries[i] == (arrival[i].seq_no as usize, arrival[i]));
        assert(w.slots[entries[i].0 - lk] == Some(entries[i].1));
    }
    assert forall|d: int| k <= d < w.slots.len() implies #[trigger] w.slots[d] is None by {
        assert forall|i: int| 0 <= i < entries.len() implies #[trigger] entries[i].0 - lk != d by {
            assert(entries[i] == (arrival[i].seq_no as usize, arrival[i]));
        }
    }
    assert forall|d: int| 0 <= d < k implies ((#[trigger] w.slots[d]) matches Some(g)
        && is_payload_only(g@)) by {
        assert(w.slots[d] == Some(sorted[d]));
    }
    assert forall|d: int| 0 <= d < w.slots.take(k as int).len() implies #[trigger] w.slots.take(
        k as int,
    )[d] == Some(sorted[d]) by {
        assert(w.slots[d] == Some(sorted[d]));
    }
    lemma_window_payload_sorted(w.slots.take(k as int), sorted);
    window::lemma_ops_keep_inv(s.order, 0, arbitrary());
    assert(s1.order.inv()) by {
        if k > 0 {
            assert(w.lowest_key is Some);
        } else {
            assert(w.lowest_key == Some(lk));
        }
    }
    lemma_drain_data(s1, k, None, false);
    if k > 0 {
        assert(w.slots[k - 1] == Some(sorted[k - 1]));
    }
}

/// The first of the arriving segments, in the order of arrival, whose
/// sequence number is `key`.
pub open spec fn first_with_key(arrival: Seq<Segment>, key: int) -> Option<Segment>
    decreases arrival.len(),
{
    if arrival.len() == 0 {
        None
    } else {
        let r = first_with_key(arrival.drop_last(), key);
        if r is Some {
            r
        } else if arrival.last().seq_no == key {
            Some(arrival.last())
        } else {
            None
        }
    }
}

/// `first_with_key` finds a segment exactly when one of that sequence
/// number arrived, and then the earliest arrival of it.
pub proof fn lemma_first_with_key(arrival: Seq<Segment>, key: int)
    ensures
        (first_with_key(arrival, key) is Some) == (exists|i: int|
            0 <= i < arrival.len() && (#[trigger] arrival[i]).seq_no == key),
        first_with_key(arrival, key) matches Some(g) ==> exists|i: int|
            0 <= i < arrival.len() && #[trigger] arrival[i] == g && g.seq_no == key && forall|j: int|
                0 <= j < i ==> (#[trigger] arrival[j]).seq_no != key,
    decreases arrival.len(),
{
    if arrival.len() > 0 {
        let init = arrival.drop_last();
        lemma_first_with_key(init, key);
        if first_with_key(init, key) is Some {
            let g = first_with_key(init, key)->0;
            let i = choose|i: int|
                0 <= i < init.len() && #[trigger] init[i] == g && g.seq_no == key && forall|j: int|
                    0 <= j < i ==> (#[trigger] init[j]).seq_no != key;
            assert(arrival[i] == init[i]);
            assert forall|j: int| 0 <= j < i implies (#[trigger] arrival[j]).seq_no != key by {
                assert(arrival[j] == init[j]);
            }
        } else {
            assert forall|j: int| 0 <= j < arrival.len() - 1 implies (#[trigger] arrival[j]).seq_no
                != key by {
                assert(arrival[j] == init[j]);
            }
            if exists|i: int| 0 <= i < arrival.len() && (#[trigger] arrival[i]).seq_no == key {
                let i = choose|i: int| 0 <= i < arrival.len() && (#[trigger] arrival[i]).seq_no == key;
                assert(i == arrival.len() - 1);
            }
        }
    }
}

/// The reorder window after segments arrive at a window whose lowest key is
/// set: each empty slot receives the first arriving segment of its key.
pub open spec fn arrival_window(v: WindowView<Segment>, arrival: Seq<Segment>) -> WindowView<
    Segment,
> {
    WindowView {
        slots: Seq::new(
            v.slots.len(),
            |d: int|
                if v.slots[d] is Some {
                    v.slots[d]
                } else {
                    first_with_key(arrival, v.lowest_key->0 + d)
                },
        ),
        lowest_key: v.lowest_key,
    }
}

/// Absorbing arriving segments fills the window as `arrival_window` says,
/// NAKs the others, and changes nothing else.
proof fn lemma_absorb_all_window(s: StreamView, arrival: Seq<Segment>)
    requires
        s.inv(),
        s.order.lowest_key is Some,
    ensures
        ({
            let r = spec_absorb_all(s, arrival);
            &&& r.inv()
            &&& r.order == arrival_window(s.order, arrival)
            &&& r == (StreamView { naks: r.naks, order: r.order, ..s })
        }),
    decreases arrival.len(),
{
    let w = arrival_window(s.order, arrival);
    let l = s.order.lowest_key->0;
    if arrival.len() == 0 {
        assert(w.slots =~= s.order.slots);
    } else {
        let init = arrival.drop_last();
        let g = arrival.last();
        lemma_absorb_all_window(s, init);
        let r0 = spec_absorb_all(s, init);
        let w0 = arrival_window(s.order, init);
        let key = g.seq_no as usize;
        assert forall|d: int| 0 <= d < w.slots.len() && g.seq_no != l + d implies #[trigger] w.slots[d]
            == w0.slots[d] by {}
        if already_taken(r0, g.seq_no) {
            assert(w.slots =~= w0.slots);
        } else {
            let (wi, res) = r0.order.insert(key, g);
            if res is Ok {
                assert(wi.slots =~= w.slots);
            } else {
                lemma_set_insert_elems(r0.naks, g.seq_no);
                assert(w.slots =~= w0.slots);
            }
        }
    }
}

/// The state after the receiving side learns of the remote FIN: a stream
/// whose own FIN is out closes; any other has its receiving half closed.
pub open spec fn after_fin(st: StreamState) -> StreamState {
    if st == StreamState::FinSent || st == StreamState::LastBreath {
        StreamState::Closed
    } else {
        StreamState::FinRecvd
    }
}

/// The state after the FIN chunks among `chunks` take effect in turn.
pub open spec fn state_after_chunks(st: StreamState, chunks: Seq<ChunkView>) -> StreamState
    decreases chunks.len(),
{
    if chunks.len() == 0 {
        st
    } else {
        state_after_chunks(
            if chunks[0] is Fin {
                after_fin(st)
            } else {
                st
            },
            chunks.drop_first(),
        )
    }
}

/// The state after the chunks of the segments in the slots take effect, one
/// segment after the other.
pub open spec fn state_after_slots(st: StreamState, slots: Seq<Option<Segment>>) -> StreamState
    decreases slots.len(),
{
    if slots.len() == 0 {
        st
    } else {
        state_after_slots(
            match slots[0] {
                Some(g) => state_after_chunks(st, g@.chunks),
                None => st,
            },
            slots.drop_first(),
        )
    }
}

/// The chunks of a segment without an ABRT chunk, with room for their
/// payload, append that payload to the read buffer, in the order written.
proof fn lemma_apply_chunks_payload(s: StreamView, chunks: Seq<ChunkView>)
    requires
        s.inv(),
        !segment::contains_abrt(chunks),
        s.r_buf.len() + chunks_payload(chunks).len() <= BUF_SIZE,
    ensures
        ({
            let (r, aborted) = spec_apply_chunks(s, chunks);
            &&& !aborted
            &&& r.r_buf == s.r_buf + chunks_payload(chunks)
            &&& r.w_buf == s.w_buf
            &&& r.state == state_after_chunks(s.state, chunks)
        }),
    decreases chunks.len(),
{
    lemma_abort_closes(s, chunks);
    if chunks.len() > 0 {
        let t = chunks.drop_first();
        assert(!segment::contains_abrt(t)) by {
            if segment::contains_abrt(t) {
                let i = choose|i: int| 0 <= i < t.len() && segment::is_abrt(#[trigger] t[i]);
                assert(chunks[i + 1] == t[i]);
            }
        }
        match chunks[0] {
            ChunkView::Abort => {},
            ChunkView::Fin => {
                let s1 = StreamView {
                    state: if s.state == StreamState::FinSent || s.state == StreamState::LastBreath {
                        StreamState::Closed
                    } else {
                        StreamState::FinRecvd
                    },
                    ..s
                };
                lemma_apply_chunks_payload(s1, t);
            },
            ChunkView::Payload(p) => {
                assert(p.take(p.len() as int) =~= p);
                let s1 = StreamView { r_buf: s.r_buf + p, ..s };
                lemma_apply_chunks_payload(s1, t);
                assert(s.r_buf + p + chunks_payload(t) =~= s.r_buf + (p + chunks_payload(t)));
            },
            _ => {
                lemma_apply_chunks_payload(s, t);
                assert(chunks_payload(chunks) =~= chunks_payload(t));
            },
        }
    }
}

/// Draining takes the gap-free run at the head of the window: when none of
/// its segments aborts and the read buffer has room, their payloads are
/// appended in slot order, and the slots behind the run move to the head.
proof fn lemma_drain_run(s: StreamView, h: Option<u32>, na: bool)
    requires
        s.inv(),
        forall|d: int|
            0 <= d < s.order.available() ==> !segment::contains_abrt(
                (#[trigger] s.order.slots[d])->0@.chunks,
            ),
        s.r_buf.len() + window_payload(s.order.slots.take(s.order.available() as int)).len()
            <= BUF_SIZE,
    ensures
        ({
            let a = s.order.available();
            let (s2, h2, na2, aborted) = spec_drain(s, h, na);
            &&& !aborted
            &&& s2.inv()
            &&& s2.r_buf == s.r_buf + window_payload(s.order.slots.take(a as int))
            &&& s2.w_buf == s.w_buf
            &&& s2.state == state_after_slots(s.state, s.order.slots.take(a as int))
            &&& s2.order.slots == s.order.slots.skip(a as int) + Seq::new(
                a,
                |i: int| None::<Segment>,
            )
            &&& a == 0 ==> h2 == h && na2 == na
            &&& a > 0 ==> h2 == Some(s.order.slots[a - 1]->0.seq_no)
            &&& a == 0 ==> s2.order.lowest_key == s.order.lowest_key
            &&& a > 0 ==> (s2.order.lowest_key == if s2.order.count() == 0 {
                None
            } else {
                Some((s.order.lowest_key->0 + a) as usize)
            })
        }),
    decreases s.order.available(),
{
    let slots = s.order.slots;
    let a = s.order.available();
    window::lemma_available_slots(s.order);
    if a == 0 {
        assert(slots.take(0) =~= Seq::<Option<Segment>>::empty());
        assert(slots.skip(0) + Seq::new(0, |i: int| None::<Segment>) =~= slots);
    } else {
        window::lemma_pop_available(s.order);
        window::lemma_ops_keep_inv(s.order, 0, arbitrary());
        let g0 = slots[0]->0;
        let (w, x) = s.order.pop();
        assert(w.slots == slots.drop_first().push(None));
        let c0 = g0@.chunks;
        let run = slots.take(a as int);
        assert(window_payload(run) == chunks_payload(c0) + window_payload(run.drop_first()));
        let x1 = StreamView {
            naks: set_remove(s.naks, g0.seq_no),
            outgoing: map_ack_update(s.outgoing, c0),
            order: w,
            remote_window_size: g0.window_size,
            ..s
        };
        lemma_set_remove_sorted(s.naks, g0.seq_no);
        lemma_map_ack_update_sorted(s.outgoing, c0);
        assert(x1.inv());
        assert(!segment::contains_abrt(c0)) by {
            assert(slots[0] == Some(g0));
        }
        lemma_apply_chunks_payload(x1, c0);
        lemma_apply_chunks_frame(x1, c0);
        let s1 = spec_apply_chunks(x1, c0).0;
        assert(spec_handle_segment(StreamView { order: w, ..s }, g0@) == spec_apply_chunks(x1, c0));
        assert(w.slots.take(a - 1) =~= run.drop_first());
        assert forall|d: int| 0 <= d < s1.order.available() implies !segment::contains_abrt(
            (#[trigger] s1.order.slots[d])->0@.chunks,
        ) by {
            assert(w.slots[d] == slots[d + 1]);
        }
        lemma_drain_run(s1, Some(g0.seq_no), na || !segment::all_sack(c0));
        let l = s.order.lowest_key->0;
        window::lemma_empty_iff_no_element(w);
        if w.count() > 0 {
            assert(exists|d: int| 0 <= d < w.slots.len() && #[trigger] w.slots[d] is Some);
            let d = choose|d: int| 0 <= d < w.slots.len() && #[trigger] w.slots[d] is Some;
            assert(w.slots[d] == slots[d + 1]);
            assert(slots[d + 1]->0.seq_no == l + d + 1);
            assert(w.lowest_key == Some((l + 1) as usize));
        }
        if a > 1 {
            assert(w.slots[0] == slots[1]);
        }
        assert(s.r_buf + chunks_payload(c0) + window_payload(run.drop_first()) =~= s.r_buf
            + window_payload(run));
        assert(w.slots.skip(a - 1) + Seq::new((a - 1) as nat, |i: int| None::<Segment>) =~= slots.skip(
            a as int,
        ) + Seq::new(a, |i: int| None::<Segment>));
        if a > 1 {
            assert(w.slots[a - 2] == slots[a - 1]);
        }
    }
}

/// In-order, exactly-once delivery. Segments arrive at a stream whose
/// reorder window expects sequence number `l` (every stream's window holds
/// each waiting segment in the slot of its sequence number), in any order,
/// any number of times, gaps and segments taken out before included. Each
/// empty slot of the window then receives the first arriving segment of its
/// sequence number, and later copies are dropped. Draining hands the reader
/// the payloads of the gap-free run of slots from `l` on, each segment once,
/// by increasing sequence number, and the payload chunks of each segment in
/// the order written; it names the last of the run as the highest one taken
/// out, and the segments behind the first gap stay in the window. The FIN
/// chunks of the run take effect on the state in turn. Afterwards the
/// stream names the last of the run as the highest consecutively received
/// segment and expects its successor, so that a later copy of any segment
/// of the run is dropped (unless the sequence numbers wrap around in
/// between). This holds where no segment of the run aborts the connection
/// and the read buffer has room for the run's payload.
pub proof fn lemma_delivery(s: StreamView, arrival: Seq<Segment>)
    requires
        s.inv(),
        s.order.lowest_key is Some,
        forall|d: int|
            0 <= d < arrival_window(s.order, arrival).available() ==> !segment::contains_abrt(
                (#[trigger] arrival_window(s.order, arrival).slots[d])->0@.chunks,
            ),
        s.r_buf.len() + window_payload(
            arrival_window(s.order, arrival).slots.take(
                arrival_window(s.order, arrival).available() as int,
            ),
        ).len() <= BUF_SIZE,
    ensures
        ({
            let w = arrival_window(s.order, arrival);
            let a = w.available();
            let l = s.order.lowest_key->0;
            let s1 = spec_absorb_all(s, arrival);
            let (s2, h, na, aborted) = spec_drain(s1, None, false);
            &&& s1.order == w
            &&& keyed(w)
            &&& forall|d: int|
                0 <= d < a ==> (#[trigger] w.slots[d]) is Some && w.slots[d]->0.seq_no == l + d
            &&& !aborted
            &&& s2.r_buf == s.r_buf + window_payload(w.slots.take(a as int))
            &&& s2.w_buf == s.w_buf
            &&& s2.state == state_after_slots(s.state, w.slots.take(a as int))
            &&& s2.order.slots == w.slots.skip(a as int) + Seq::new(a, |i: int| None::<Segment>)
            &&& a == 0 ==> h is None && !na
            &&& a > 0 ==> (h matches Some(q) && q == l + a - 1)
            &&& a > 0 ==> ({
                let s3 = spec_finish(s2, h, na);
                &&& s3.remote_seq_no == l + a - 1
                &&& s3.order.lowest_key == Some(next_seq_no((l + a - 1) as u32) as usize)
                &&& l + a <= u32::MAX ==> forall|g: Segment|
                    l <= g.seq_no < l + a ==> #[trigger] spec_absorb_one(s3, g) == s3
            })
        }),
{
    let w = arrival_window(s.order, arrival);
    let l = s.order.lowest_key->0;
    lemma_absorb_all_window(s, arrival);
    assert forall|d: int| 0 <= d < w.slots.len() && (#[trigger] w.slots[d]) is Some implies w.lowest_key
        is Some && w.slots[d]->0.seq_no == w.lowest_key->0 + d by {
        if s.order.slots[d] is None {
            lemma_first_with_key(arrival, l + d);
        }
    }
    window::lemma_available_slots(w);
    let s1 = spec_absorb_all(s, arrival);
    lemma_drain_run(s1, None, false);
    let (s2, h, na, aborted) = spec_drain(s1, None, false);
    let a = w.available();
    if a > 0 {
        window::lemma_empty_iff_no_element(s2.order);
        if s2.order.count() > 0 {
            assert(exists|d: int| 0 <= d < s2.order.slots.len() && #[trigger] s2.order.slots[d] is Some);
            let d = choose|d: int| 0 <= d < s2.order.slots.len() && #[trigger] s2.order.slots[d] is Some;
            assert(s2.order.slots[d]->0.seq_no == l + a + d);
        }
    }
}

/// Draining ends in an abort exactly when a segment of the gap-free run at
/// the head of the window holds an ABRT chunk, and then the stream is
/// closed with its buffers and outgoing segments dropped.
proof fn lemma_drain_abort(s: StreamView, h: Option<u32>, na: bool)
    requires
        s.inv(),
    ensures
        ({
            let (s2, h2, na2, aborted) = spec_drain(s, h, na);
            &&& aborted == exists|d: int|
                0 <= d < s.order.available() && segment::contains_abrt(
                    (#[trigger] s.order.slots[d])->0@.chunks,
                )
            &&& aborted ==> s2.state == StreamState::Closed && s2.r_buf.len() == 0
                && s2.w_buf.len() == 0 && s2.outgoing.len() == 0
        }),
    decreases s.order.available(),
{
    let a = s.order.available();
    let slots = s.order.slots;
    window::lemma_available_slots(s.order);
    if a > 0 {
        window::lemma_pop_available(s.order);
        window::lemma_ops_keep_inv(s.order, 0, arbitrary());
        let g0 = slots[0]->0;
        let (w, x) = s.order.pop();
        assert(w.slots == slots.drop_first().push(None));
        let c0 = g0@.chunks;
        let x1 = StreamView {
            naks: set_remove(s.naks, g0.seq_no),
            outgoing: map_ack_update(s.outgoing, c0),
            order: w,
            remote_window_size: g0.window_size,
            ..s
        };
        lemma_set_remove_sorted(s.naks, g0.seq_no);
        lemma_map_ack_update_sorted(s.outgoing, c0);
        lemma_abort_closes(x1, c0);
        lemma_apply_chunks_frame(x1, c0);
        assert(spec_handle_segment(StreamView { order: w, ..s }, g0@) == spec_apply_chunks(x1, c0));
        if segment::contains_abrt(c0) {
            assert(slots[0] == Some(g0));
        } else {
            let s1 = spec_apply_chunks(x1, c0).0;
            lemma_drain_abort(s1, Some(g0.seq_no), na || !segment::all_sack(c0));
            if exists|d: int|
                0 <= d < a && segment::contains_abrt((#[trigger] slots[d])->0@.chunks) {
                let d = choose|d: int|
                    0 <= d < a && segment::contains_abrt((#[trigger] slots[d])->0@.chunks);
                assert(d != 0);
                assert(w.slots[d - 1] == slots[d]);
            }
            if exists|d: int|
                0 <= d < a - 1 && segment::contains_abrt((#[trigger] w.slots[d])->0@.chunks) {
                let d = choose|d: int|
                    0 <= d < a - 1 && segment::contains_abrt((#[trigger] w.slots[d])->0@.chunks);
                assert(w.slots[d] == slots[d + 1]);
            }
        }
    }
}

/// An ABRT chunk at the stream call. When segments arrive, in any order,
/// at a stream whose reorder window has its lowest key set, handling them
/// fails with an abort exactly when a segment of the gap-free run that
/// they complete holds an ABRT chunk; the stream is then closed, and its
/// read buffer, write buffer and outgoing segments are dropped.
pub proof fn lemma_abort_at_stream_call(s: StreamView, arrival: Seq<Segment>)
    requires
        s.inv(),
        s.order.lowest_key is Some,
    ensures
        ({
            let w = arrival_window(s.order, arrival);
            let (s2, h, na, aborted) = spec_drain(spec_absorb_all(s, arrival), None, false);
            &&& aborted == exists|d: int|
                0 <= d < w.available() && segment::contains_abrt(
                    (#[trigger] w.slots[d])->0@.chunks,
                )
            &&& aborted ==> s2.state == StreamState::Closed && s2.r_buf.len() == 0
                && s2.w_buf.len() == 0 && s2.outgoing.len() == 0
        }),
{
    lemma_absorb_all_window(s, arrival);
    lemma_drain_abort(spec_absorb_all(s, arrival), None, false);
}

} // verus!

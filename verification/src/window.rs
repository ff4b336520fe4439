//! A sorted sliding-window buffer used to bring segments into order.

use vstd::prelude::*;

verus! {

/// The number of filled (`Some`) slots in `s`.
pub open spec fn some_count<T>(s: Seq<Option<T>>) -> nat
    decreases s.len(),
{
    if s.len() == 0 {
        0
    } else {
        some_count(s.drop_last()) + if s.last() is Some {
            1nat
        } else {
            0nat
        }
    }
}

/// The length of the run of filled slots at the front of `s`.
pub open spec fn leading_some<T>(s: Seq<Option<T>>) -> nat
    decreases s.len(),
{
    if s.len() == 0 || s[0] is None {
        0
    } else {
        1 + leading_some(s.drop_first())
    }
}

/// `l + 1`, wrapping around to zero after `usize::MAX`.
pub open spec fn next_key(l: usize) -> usize {
    if l == usize::MAX {
        0
    } else {
        (l + 1) as usize
    }
}

/// The abstract state of a sliding window.
///
/// `slots[d]` is the slot of key `lowest_key + d`; slot 0 is the head.
pub struct WindowView<T> {
    pub slots: Seq<Option<T>>,
    pub lowest_key: Option<usize>,
}

impl<T> WindowView<T> {
    /// The number of slots.
    pub open spec fn capacity(self) -> nat {
        self.slots.len()
    }

    /// The window stores no element.
    pub open spec fn is_empty(self) -> bool {
        self.count() == 0
    }

    /// An element can be popped: there is a lowest key and the head slot is
    /// filled. A window can hold elements behind a hole at its head.
    pub open spec fn can_pop(self) -> bool {
        self.lowest_key is Some && self.slots[0] is Some
    }

    /// The number of elements that `pop` hands out before it returns `None`.
    pub open spec fn available(self) -> nat {
        leading_some(self.slots)
    }

    /// The number of filled slots.
    pub open spec fn count(self) -> nat {
        some_count(self.slots)
    }

    /// What every window satisfies: at least one slot, and no filled slot
    /// without a lowest key.
    pub open spec fn inv(self) -> bool {
        &&& self.slots.len() > 0
        &&& self.lowest_key is None ==> forall|i: int|
            0 <= i < self.slots.len() ==> #[trigger] self.slots[i] is None
    }

    /// The window after inserting `val` under `key`, and the result of the insertion.
    pub open spec fn insert(self, key: usize, val: T) -> (WindowView<T>, Result<(), InsertError<T>>) {
        match self.lowest_key {
            None => (
                WindowView { slots: self.slots.update(0, Some(val)), lowest_key: Some(key) },
                Ok(()),
            ),
            Some(l) => if key < l {
                if self.count() == 0 {
                    (
                        WindowView { slots: self.slots.update(0, Some(val)), lowest_key: Some(key) },
                        Ok(()),
                    )
                } else {
                    (self, Err(InsertError::KeyTooLow(val)))
                }
            } else if key - l >= self.slots.len() {
                (self, Err(InsertError::DistanceTooLarge(val)))
            } else if self.slots[key - l] is Some {
                (self, Err(InsertError::WouldOverwrite(val)))
            } else {
                (
                    WindowView { slots: self.slots.update(key - l, Some(val)), lowest_key: Some(l) },
                    Ok(()),
                )
            },
        }
    }

    /// The window after popping, and the popped element.
    pub open spec fn pop(self) -> (WindowView<T>, Option<T>) {
        if !self.can_pop() {
            (self, None)
        } else {
            let slots = self.slots.drop_first().push(None);
            (
                WindowView {
                    slots,
                    lowest_key: if some_count(slots) == 0 {
                        None
                    } else {
                        Some(next_key(self.lowest_key.unwrap()))
                    },
                },
                self.slots[0],
            )
        }
    }
}

/// A sorted sliding-window buffer.
///
/// This buffer represents a sorted sliding window of slots that can be either
/// filled or empty. When an element is inserted, its position is computed
/// from its key relative to the lowest stored key.
///
/// Values can only be removed from the "start" of the window in ascending
/// position. Additionally, values can only be removed until the first "hole"
/// is reached. The hole needs to be filled before access to the other values
/// is possible.
#[derive(Debug)]
pub struct Window<T> {
    buf: Vec<Option<T>>,
    head: usize,
    lowest_key: Option<usize>,
    /// The number of filled slots.
    len: usize,
}

/// Repeatedly pops elements off a sliding window.
#[derive(Debug)]
pub struct Drain<'a, T> {
    pub buf: &'a mut Window<T>,
}

/// The error that can occur while inserting a value into the sliding window.
#[derive(Clone, Debug, PartialEq, Eq)]
pub enum InsertError<T> {
    /// The distance of the key to the lowest key is not below the capacity.
    DistanceTooLarge(T),
    /// The key is below the lowest key while the window stores elements.
    /// Inserting into a window that stores nothing never gives this error.
    KeyTooLow(T),
    /// The slot of the key is already filled.
    WouldOverwrite(T),
}

/// Relates the position of `d` relative to the head to its index in the buffer.
pub open spec fn rotate<T>(buf: Seq<Option<T>>, head: int) -> Seq<Option<T>> {
    buf.subrange(head, buf.len() as int) + buf.subrange(0, head)
}

proof fn lemma_some_count_add<T>(a: Seq<Option<T>>, b: Seq<Option<T>>)
    ensures
        some_count(a + b) == some_count(a) + some_count(b),
    decreases b.len(),
{
    if b.len() == 0 {
        assert(a + b =~= a);
    } else {
        lemma_some_count_add(a, b.drop_last());
        assert((a + b).drop_last() =~= a + b.drop_last());
    }
}

proof fn lemma_some_count_zero<T>(s: Seq<Option<T>>)
    ensures
        some_count(s) == 0 <==> forall|i: int| 0 <= i < s.len() ==> #[trigger] s[i] is None,
        some_count(s) <= s.len(),
    decreases s.len(),
{
    if s.len() > 0 {
        lemma_some_count_zero(s.drop_last());
        if some_count(s) == 0 {
            assert forall|i: int| 0 <= i < s.len() implies #[trigger] s[i] is None by {
                if i < s.len() - 1 {
                    assert(s.drop_last()[i] == s[i]);
                }
            }
        }
        if forall|i: int| 0 <= i < s.len() ==> #[trigger] s[i] is None {
            assert forall|i: int| 0 <= i < s.drop_last().len() implies #[trigger] s.drop_last()[i] is None by {
                assert(s.drop_last()[i] == s[i]);
            }
            assert(s[s.len() - 1] is None);
        }
    }
}

proof fn lemma_rotate_count<T>(buf: Seq<Option<T>>, head: int)
    requires
        0 <= head <= buf.len(),
    ensures
        some_count(rotate(buf, head)) == some_count(buf),
{
    lemma_some_count_add(buf.subrange(head, buf.len() as int), buf.subrange(0, head));
    lemma_some_count_add(buf.subrange(0, head), buf.subrange(head, buf.len() as int));
    assert(buf.subrange(0, head) + buf.subrange(head, buf.len() as int) =~= buf);
}

proof fn lemma_leading_some<T>(s: Seq<Option<T>>, i: int)
    requires
        0 <= i <= s.len(),
        forall|j: int| 0 <= j < i ==> #[trigger] s[j] is Some,
        i == s.len() || s[i] is None,
    ensures
        leading_some(s) == i,
    decreases i,
{
    if i > 0 {
        let t = s.drop_first();
        assert forall|j: int| 0 <= j < i - 1 implies #[trigger] t[j] is Some by {
            assert(t[j] == s[j + 1]);
        }
        if i < s.len() {
            assert(t[i - 1] == s[i]);
        }
        lemma_leading_some(t, i - 1);
    }
}

proof fn lemma_leading_some_bound<T>(s: Seq<Option<T>>)
    ensures
        leading_some(s) <= s.len(),
        leading_some(s) <= some_count(s),
    decreases s.len(),
{
    if s.len() > 0 && s[0] is Some {
        let t = s.drop_first();
        lemma_leading_some_bound(t);
        lemma_some_count_add(seq![s[0]], t);
        assert(seq![s[0]] + t =~= s);
        assert(some_count(seq![s[0]]) == 1) by {
            reveal_with_fuel(some_count, 2);
            assert(seq![s[0]].drop_last() =~= Seq::<Option<T>>::empty());
        }
    }
}

proof fn lemma_leading_some_push_none<T>(s: Seq<Option<T>>)
    ensures
        leading_some(s.push(None)) == leading_some(s),
    decreases s.len(),
{
    if s.len() > 0 && s[0] is Some {
        lemma_leading_some_push_none(s.drop_first());
        assert(s.push(None).drop_first() =~= s.drop_first().push(None));
    }
}

/// Every operation keeps the window's invariant.
pub proof fn lemma_ops_keep_inv<T>(v: WindowView<T>, key: usize, val: T)
    requires
        v.inv(),
    ensures
        v.insert(key, val).0.inv(),
        v.pop().0.inv(),
{
    if v.can_pop() {
        let slots = v.slots.drop_first().push(None);
        lemma_some_count_zero(slots);
    }
}

/// A window stores no element exactly when every slot is empty.
pub proof fn lemma_empty_iff_no_element<T>(v: WindowView<T>)
    ensures
        v.is_empty() <==> forall|i: int| 0 <= i < v.slots.len() ==> #[trigger] v.slots[i] is None,
{
    lemma_some_count_zero(v.slots);
}

/// `KeyTooLow` arises only while the window stores elements: inserting into
/// a window that stores nothing never gives it.
pub proof fn lemma_key_too_low_needs_elements<T>(v: WindowView<T>, key: usize, val: T)
    ensures
        v.insert(key, val).1 is Err && (v.insert(key, val).1->Err_0 is KeyTooLow) ==> !v.is_empty(),
{
}

/// Draining is exact: `pop` yields an element precisely when `available`
/// is positive, and each such pop lowers `available` by one.
pub proof fn lemma_pop_available<T>(v: WindowView<T>)
    requires
        v.inv(),
    ensures
        (v.pop().1 is Some) == (v.available() > 0),
        v.available() > 0 ==> v.pop().0.available() == v.available() - 1,
{
    if v.lowest_key is None {
        assert(v.slots[0] is None);
    }
    if v.available() > 0 {
        lemma_leading_some_push_none(v.slots.drop_first());
    }
}

/// The elements that `pop` hands out are those of the filled slots at the
/// front, up to the first empty slot.
pub proof fn lemma_available_slots<T>(v: WindowView<T>)
    ensures
        v.available() <= v.slots.len(),
        forall|d: int| 0 <= d < v.available() ==> #[trigger] v.slots[d] is Some,
        v.available() < v.slots.len() ==> v.slots[v.available() as int] is None,
    decreases v.slots.len(),
{
    lemma_leading_some_bound(v.slots);
    if v.slots.len() > 0 && v.slots[0] is Some {
        let t = WindowView { slots: v.slots.drop_first(), lowest_key: v.lowest_key };
        lemma_available_slots(t);
        assert forall|d: int| 0 <= d < v.available() implies #[trigger] v.slots[d] is Some by {
            if d > 0 {
                assert(v.slots[d] == t.slots[d - 1]);
            }
        }
        if v.available() < v.slots.len() {
            assert(v.slots[v.available() as int] == t.slots[t.available() as int]);
        }
    }
}

proof fn lemma_some_count_single<T>(x: Option<T>)
    ensures
        some_count(seq![x]) == if x is Some {
            1nat
        } else {
            0nat
        },
{
    reveal_with_fuel(some_count, 2);
    assert(seq![x].drop_last() =~= Seq::<Option<T>>::empty());
}

proof fn lemma_some_count_fill<T>(s: Seq<Option<T>>, i: int, x: T)
    requires
        0 <= i < s.len(),
        s[i] is None,
    ensures
        some_count(s.update(i, Some(x))) == some_count(s) + 1,
{
    let u = s.update(i, Some(x));
    let a = s.take(i);
    let b = s.skip(i + 1);
    assert(s =~= a + seq![s[i]] + b);
    assert(u =~= a + seq![Some(x)] + b);
    lemma_some_count_add(a + seq![s[i]], b);
    lemma_some_count_add(a, seq![s[i]]);
    lemma_some_count_add(a + seq![Some(x)], b);
    lemma_some_count_add(a, seq![Some(x)]);
    lemma_some_count_single(s[i]);
    lemma_some_count_single(Some(x));
}

/// How each operation changes the number of stored elements: an insert
/// that succeeds adds one, one that fails adds none; a pop that yields an
/// element removes one, one that yields none removes none. The available
/// elements never outnumber the stored ones, nor these the slots.
pub proof fn lemma_count_steps<T>(v: WindowView<T>, key: usize, val: T)
    requires
        v.inv(),
    ensures
        v.insert(key, val).1 is Ok ==> v.insert(key, val).0.count() == v.count() + 1,
        v.insert(key, val).1 is Err ==> v.insert(key, val).0.count() == v.count(),
        v.pop().1 is Some ==> v.pop().0.count() + 1 == v.count(),
        v.pop().1 is None ==> v.pop().0.count() == v.count(),
        v.available() <= v.count() <= v.capacity(),
{
    lemma_available_count_capacity(v);
    if v.insert(key, val).1 is Ok {
        match v.lowest_key {
            None => {
                assert(v.slots[0] is None);
                lemma_some_count_fill(v.slots, 0, val);
            },
            Some(l) => {
                if key < l {
                    lemma_some_count_zero(v.slots);
                    lemma_some_count_fill(v.slots, 0, val);
                } else {
                    lemma_some_count_fill(v.slots, key - l, val);
                }
            },
        }
    }
    if v.can_pop() {
        let t = v.slots.drop_first();
        assert(v.slots =~= seq![v.slots[0]] + t);
        lemma_some_count_add(seq![v.slots[0]], t);
        lemma_some_count_single(v.slots[0]);
        assert(t.push(None).drop_last() =~= t);
    }
}

/// An operation performed on a window through its methods.
pub enum WindowOp<T> {
    Insert(usize, T),
    Pop,
    SetLowestKey(usize),
    Clear,
}

/// The window after an operation.
pub open spec fn step<T>(v: WindowView<T>, op: WindowOp<T>) -> WindowView<T> {
    match op {
        WindowOp::Insert(key, val) => v.insert(key, val).0,
        WindowOp::Pop => v.pop().0,
        WindowOp::SetLowestKey(key) => WindowView { lowest_key: Some(key), ..v },
        WindowOp::Clear => WindowView {
            slots: Seq::new(v.slots.len(), |i: int| None::<T>),
            lowest_key: None,
        },
    }
}

/// The window after the operations, one after the other.
pub open spec fn run<T>(v: WindowView<T>, ops: Seq<WindowOp<T>>) -> WindowView<T>
    decreases ops.len(),
{
    if ops.len() == 0 {
        v
    } else {
        step(run(v, ops.drop_last()), ops.last())
    }
}

/// The elements stored at the start, plus the inserts that succeeded, less
/// the pops that yielded an element, counting from the last clear.
pub open spec fn net_count<T>(v: WindowView<T>, ops: Seq<WindowOp<T>>) -> int
    decreases ops.len(),
{
    if ops.len() == 0 {
        v.count() as int
    } else {
        let before = run(v, ops.drop_last());
        let n = net_count(v, ops.drop_last());
        match ops.last() {
            WindowOp::Insert(key, val) => if before.insert(key, val).1 is Ok {
                n + 1
            } else {
                n
            },
            WindowOp::Pop => if before.pop().1 is Some {
                n - 1
            } else {
                n
            },
            WindowOp::SetLowestKey(_) => n,
            WindowOp::Clear => 0,
        }
    }
}

/// The count over a history of calls: after any operations on a window,
/// it stores as many elements as it did at the start, plus the successful
/// inserts, less the pops that yielded an element, counting from the last
/// clear; failed inserts, empty pops and setting the lowest key change
/// nothing. Throughout, the available elements are at most the stored
/// ones, and these at most the capacity, which never changes.
pub proof fn lemma_count_history<T>(v: WindowView<T>, ops: Seq<WindowOp<T>>)
    requires
        v.inv(),
    ensures
        run(v, ops).inv(),
        run(v, ops).count() == net_count(v, ops),
        run(v, ops).available() <= run(v, ops).count() <= run(v, ops).capacity(),
        run(v, ops).capacity() == v.capacity(),
    decreases ops.len(),
{
    if ops.len() > 0 {
        let before = run(v, ops.drop_last());
        lemma_count_history(v, ops.drop_last());
        match ops.last() {
            WindowOp::Insert(key, val) => {
                lemma_count_steps(before, key, val);
                lemma_ops_keep_inv(before, key, val);
            },
            WindowOp::Pop => {
                lemma_count_steps(before, 0, arbitrary());
                lemma_ops_keep_inv(before, 0, arbitrary());
            },
            WindowOp::SetLowestKey(_) => {},
            WindowOp::Clear => {
                let c = Seq::new(before.slots.len(), |i: int| None::<T>);
                lemma_some_count_zero(c);
            },
        }
    }
    lemma_available_count_capacity(run(v, ops));
}

/// The filled slots bound the poppable ones, and the capacity bounds the
/// filled ones.
pub proof fn lemma_available_count_capacity<T>(v: WindowView<T>)
    ensures
        v.available() <= v.count(),
        v.count() <= v.capacity(),
{
    lemma_leading_some_bound(v.slots);
    lemma_some_count_zero(v.slots);
}

/// An element inserted under the lowest expected key of an empty window is
/// the next one popped.
pub proof fn lemma_insert_lowest_then_pop<T>(v: WindowView<T>, key: usize, val: T)
    requires
        v.inv(),
        v.is_empty(),
        v.lowest_key is None || v.lowest_key == Some(key),
    ensures
        v.insert(key, val).1 is Ok,
        v.insert(key, val).0.pop().1 == Some(val),
{
    lemma_some_count_zero(v.slots);
}

/// Elements arriving out of order leave the window in key order: after
/// inserting the element of key `l + 1` and then that of key `l` into an
/// empty window expecting `l`, the pops yield `a` and then `b`.
pub proof fn lemma_out_of_order_delivery<T>(v: WindowView<T>, l: usize, a: T, b: T)
    requires
        v.inv(),
        v.lowest_key == Some(l),
        l < usize::MAX,
        v.capacity() >= 2,
        v.slots[0] is None,
        v.slots[1] is None,
    ensures
        ({
            let (v1, r1) = v.insert((l + 1) as usize, b);
            let (v2, r2) = v1.insert(l, a);
            let (v3, x) = v2.pop();
            let (v4, y) = v3.pop();
            &&& r1 is Ok
            &&& r2 is Ok
            &&& x == Some(a)
            &&& y == Some(b)
            &&& v3.lowest_key == Some((l + 1) as usize)
        }),
{
    let (v1, r1) = v.insert((l + 1) as usize, b);
    let (v2, r2) = v1.insert(l, a);
    let (v3, x) = v2.pop();
    let slots = v2.slots.drop_first().push(None);
    assert(slots[0] == Some(b));
    lemma_some_count_zero(slots);
}

/// A window whose only element sits in the head slot hands out exactly that
/// element, and is then empty, with no lowest key.
pub proof fn lemma_pop_single<T>(v: WindowView<T>, val: T)
    requires
        v.lowest_key is Some,
        v.slots.len() > 0,
        v.slots[0] == Some(val),
        forall|i: int| 1 <= i < v.slots.len() ==> #[trigger] v.slots[i] is None,
    ensures
        v.inv(),
        v.available() == 1,
        v.pop().1 == Some(val),
        v.pop().0.lowest_key is None,
        v.pop().0.slots.len() == v.slots.len(),
        forall|i: int| 0 <= i < v.pop().0.slots.len() ==> #[trigger] v.pop().0.slots[i] is None,
        v.pop().0.available() == 0,
{
    lemma_leading_some(v.slots, 1);
    let slots = v.slots.drop_first().push(None);
    assert forall|i: int| 0 <= i < slots.len() implies #[trigger] slots[i] is None by {
        if i < slots.len() - 1 {
            assert(slots[i] == v.slots[i + 1]);
        }
    }
    lemma_some_count_zero(slots);
}

/// The window after inserting the entries, one after the other.
pub open spec fn insert_all<T>(v: WindowView<T>, entries: Seq<(usize, T)>) -> WindowView<T>
    decreases entries.len(),
{
    if entries.len() == 0 {
        v
    } else {
        insert_all(v, entries.drop_last()).insert(entries.last().0, entries.last().1).0
    }
}

/// Pops `n` times: the window afterwards, and the elements popped.
pub open spec fn pop_n<T>(v: WindowView<T>, n: nat) -> (WindowView<T>, Seq<T>)
    decreases n,
{
    if n == 0 {
        (v, Seq::empty())
    } else {
        let (w, x) = v.pop();
        let (w2, rest) = pop_n(w, (n - 1) as nat);
        (
            w2,
            match x {
                Some(e) => seq![e] + rest,
                None => rest,
            },
        )
    }
}

/// Entries under distinct keys at most a capacity above `l` land in the slot
/// of their key, and the other slots stay empty.
pub proof fn lemma_insert_all_slots<T>(v: WindowView<T>, l: usize, entries: Seq<(usize, T)>)
    requires
        v.lowest_key == Some(l),
        forall|d: int| 0 <= d < v.slots.len() ==> #[trigger] v.slots[d] is None,
        forall|i: int| 0 <= i < entries.len() ==> l <= #[trigger] entries[i].0 < l + v.slots.len(),
        forall|i: int, j: int| 0 <= i < j < entries.len() ==> entries[i].0 != entries[j].0,
    ensures
        insert_all(v, entries).lowest_key == Some(l),
        insert_all(v, entries).slots.len() == v.slots.len(),
        forall|i: int|
            0 <= i < entries.len() ==> insert_all(v, entries).slots[#[trigger] entries[i].0 - l]
                == Some(entries[i].1),
        forall|d: int|
            0 <= d < v.slots.len() && (forall|i: int| 0 <= i < entries.len() ==> #[trigger] entries[i].0 - l != d)
                ==> (#[trigger] insert_all(v, entries).slots[d]) is None,
    decreases entries.len(),
{
    if entries.len() > 0 {
        let init = entries.drop_last();
        assert forall|i: int, j: int| 0 <= i < j < init.len() implies init[i].0 != init[j].0 by {
            assert(init[i] == entries[i]);
            assert(init[j] == entries[j]);
        }
        assert forall|i: int| 0 <= i < init.len() implies l <= #[trigger] init[i].0 < l + v.slots.len() by {
            assert(init[i] == entries[i]);
        }
        lemma_insert_all_slots(v, l, init);
        let w = insert_all(v, init);
        let last = entries.last();
        let n = entries.len() - 1;
        assert(entries[n] == last);
        assert forall|i: int| 0 <= i < init.len() implies #[trigger] init[i].0 - l != last.0 - l by {
            assert(init[i] == entries[i]);
        }
        assert(w.slots[last.0 - l] is None);
        let r = w.insert(last.0, last.1).0;
        assert(r.slots == w.slots.update(last.0 - l, Some(last.1)));
        assert forall|i: int| 0 <= i < entries.len() implies r.slots[#[trigger] entries[i].0 - l]
            == Some(entries[i].1) by {
            if i < n {
                assert(init[i] == entries[i]);
                assert(w.slots[init[i].0 - l] == Some(init[i].1));
            }
        }
        assert forall|d: int|
            0 <= d < v.slots.len() && (forall|i: int| 0 <= i < entries.len() ==> #[trigger] entries[i].0 - l != d)
                implies (#[trigger] r.slots[d]) is None by {
            assert(entries[n].0 - l != d);
            assert forall|i: int| 0 <= i < init.len() implies #[trigger] init[i].0 - l != d by {
                assert(init[i] == entries[i]);
                assert(entries[i].0 - l != d);
            }
        }
    }
}

/// Popping `k` times from a window whose first `k` slots are filled hands
/// out their elements in slot order.
pub proof fn lemma_pop_n_prefix<T>(v: WindowView<T>, k: nat)
    requires
        v.lowest_key is Some,
        k <= v.slots.len(),
        forall|d: int| 0 <= d < k ==> #[trigger] v.slots[d] is Some,
    ensures
        pop_n(v, k).1.len() == k,
        forall|d: int| 0 <= d < k ==> Some(#[trigger] pop_n(v, k).1[d]) == v.slots[d],
    decreases k,
{
    if k > 0 {
        assert(v.slots[0] is Some);
        let (w, x) = v.pop();
        let rest = pop_n(w, (k - 1) as nat).1;
        if k > 1 {
            assert(w.slots[0] == v.slots[1]);
            lemma_some_count_zero(w.slots);
            assert forall|d: int| 0 <= d < k - 1 implies #[trigger] w.slots[d] is Some by {
                assert(w.slots[d] == v.slots[d + 1]);
            }
            lemma_pop_n_prefix(w, (k - 1) as nat);
            assert forall|d: int| 0 <= d < k implies Some(#[trigger] pop_n(v, k).1[d])
                == v.slots[d] by {
                if d > 0 {
                    assert(pop_n(v, k).1[d] == rest[d - 1]);
                    assert(w.slots[d - 1] == v.slots[d]);
                }
            }
        }
    }
}

/// Some entry has the key `l + d`.
pub open spec fn key_present<T>(entries: Seq<(usize, T)>, l: usize, d: int) -> bool {
    exists|i: int| 0 <= i < entries.len() && #[trigger] entries[i].0 == l + d
}

/// Elements leave the window in key order, whatever order they arrived in.
/// Inserting elements under the keys `l .. l + k`, each once and in any
/// order, into an empty window of capacity at least `k` that expects `l`,
/// lands each in its slot; then `k` pops hand them out by increasing key.
pub proof fn lemma_window_sorts<T>(v: WindowView<T>, l: usize, entries: Seq<(usize, T)>)
    requires
        v.lowest_key == Some(l),
        forall|d: int| 0 <= d < v.slots.len() ==> #[trigger] v.slots[d] is None,
        entries.len() <= v.slots.len(),
        forall|i: int| 0 <= i < entries.len() ==> l <= #[trigger] entries[i].0 < l + entries.len(),
        forall|i: int, j: int| 0 <= i < j < entries.len() ==> entries[i].0 != entries[j].0,
        forall|d: int| 0 <= d < entries.len() ==> #[trigger] key_present(entries, l, d),
    ensures
        ({
            let out = pop_n(insert_all(v, entries), entries.len()).1;
            &&& out.len() == entries.len()
            &&& forall|i: int| 0 <= i < entries.len() ==> out[#[trigger] entries[i].0 - l] == entries[i].1
        }),
{
    let k = entries.len();
    lemma_insert_all_slots(v, l, entries);
    let w = insert_all(v, entries);
    assert forall|d: int| 0 <= d < k implies #[trigger] w.slots[d] is Some by {
        assert(key_present(entries, l, d));
        let i = choose|i: int| 0 <= i < k && #[trigger] entries[i].0 == l + d;
        assert(w.slots[entries[i].0 - l] == Some(entries[i].1));
    }
    lemma_pop_n_prefix(w, k);
    let out = pop_n(w, k).1;
    assert forall|i: int| 0 <= i < k implies out[#[trigger] entries[i].0 - l] == entries[i].1 by {
        assert(w.slots[entries[i].0 - l] == Some(entries[i].1));
        assert(Some(out[entries[i].0 - l]) == w.slots[entries[i].0 - l]);
    }
}

impl<T> View for Window<T> {
    type V = WindowView<T>;

    closed spec fn view(&self) -> WindowView<T> {
        WindowView { slots: rotate(self.buf@, self.head as int), lowest_key: self.lowest_key }
    }
}

impl<T> Window<T> {
    /// The representation invariant: the head is a valid index, an unset
    /// lowest key means that every slot is empty, and the number of filled
    /// slots is kept.
    pub closed spec fn wf(&self) -> bool {
        &&& self.buf@.len() > 0
        &&& self.head < self.buf@.len()
        &&& self.len == some_count(self.buf@)
        &&& self.lowest_key is None ==> forall|i: int|
            0 <= i < self.buf@.len() ==> #[trigger] self.buf@[i] is None
    }

    /// A well-formed window satisfies the invariant of its view.
    pub proof fn lemma_wf_inv(&self)
        requires
            self.wf(),
        ensures
            self@.inv(),
    {
        let s = self@.slots;
        if self.lowest_key is None {
            assert forall|i: int| 0 <= i < s.len() implies #[trigger] s[i] is None by {
                if i < self.buf@.len() - self.head {
                    assert(s[i] == self.buf@[self.head + i]);
                } else {
                    assert(s[i] == self.buf@[i - (self.buf@.len() - self.head)]);
                }
            }
        }
    }

    /// A window that stores nothing, whether or not it has a lowest key,
    /// holds nothing in any buffer slot.
    proof fn lemma_buf_empty(&self)
        requires
            self.wf(),
            self@.is_empty() || self.lowest_key is None,
        ensures
            forall|j: int| 0 <= j < self.buf@.len() ==> #[trigger] self.buf@[j] is None,
    {
        if self.lowest_key is Some {
            lemma_rotate_count(self.buf@, self.head as int);
            lemma_some_count_zero(self.buf@);
        }
    }

    /// The buffer index of the slot `d` places after the head.
    fn position(&self, d: usize) -> (p: usize)
        requires
            self.wf(),
            d < self.buf@.len(),
        ensures
            p < self.buf@.len(),
            p == if d < self.buf@.len() - self.head {
                self.head + d
            } else {
                d - (self.buf@.len() - self.head)
            },
            self@.slots[d as int] == self.buf@[p as int],
    {
        let n = self.buf.len();
        if d < n - self.head {
            self.head + d
        } else {
            d - (n - self.head)
        }
    }

    /// Creates a new sliding window with `capacity` empty slots.
    pub fn new(capacity: usize) -> (w: Self)
        requires
            capacity > 0,
        ensures
            w.wf(),
            w@.slots == Seq::new(capacity as nat, |i: int| None::<T>),
            w@.lowest_key is None,
    {
        let mut vec: Vec<Option<T>> = Vec::new();
        let mut i: usize = 0;
        while i < capacity
            invariant
                i <= capacity,
                vec@.len() == i,
                forall|j: int| 0 <= j < i ==> #[trigger] vec@[j] is None,
            decreases capacity - i,
        {
            vec.push(None);
            i = i + 1;
        }
        proof {
            lemma_some_count_zero(vec@);
        }
        let w = Window { buf: vec, head: 0, lowest_key: None, len: 0 };
        assert(w@.slots =~= Seq::new(capacity as nat, |i: int| None::<T>));
        w
    }

    /// Creates a new sliding window and sets the lowest key.
    pub fn with_lowest_key(capacity: usize, lowest_key: usize) -> (w: Self)
        requires
            capacity > 0,
        ensures
            w.wf(),
            w@.slots == Seq::new(capacity as nat, |i: int| None::<T>),
            w@.lowest_key == Some(lowest_key),
    {
        let mut buf = Self::new(capacity);
        proof {
            lemma_some_count_zero(buf@.slots);
        }
        buf.set_lowest_key(lowest_key);
        buf
    }

    /// Returns the amount of elements that can be `pop`ped without
    /// receiving `None`.
    pub fn available(&self) -> (n: usize)
        requires
            self.wf(),
        ensures
            n == self@.available(),
    {
        let cap = self.buf.len();
        let mut i: usize = 0;
        while i < cap && self.buf[self.position(i)].is_some()
            invariant
                self.wf(),
                cap == self.buf@.len(),
                i <= cap,
                forall|j: int| 0 <= j < i ==> #[trigger] self@.slots[j] is Some,
            decreases cap - i,
        {
            i = i + 1;
        }
        proof {
            lemma_leading_some(self@.slots, i as int);
        }
        i
    }

    /// The lowest (expected) key, if one is set.
    pub fn lowest_key(&self) -> (k: Option<usize>)
        requires
            self.wf(),
        ensures
            k == self@.lowest_key,
    {
        self.lowest_key
    }

    /// Returns the capacity of the buffer.
    pub fn capacity(&self) -> (n: usize)
        requires
            self.wf(),
        ensures
            n == self@.capacity(),
    {
        self.buf.len()
    }

    /// The amount of slots filled.
    ///
    /// Note that the elements aren't necessarily `pop`able due to possible
    /// holes in the buffer.
    pub fn count(&self) -> (n: usize)
        requires
            self.wf(),
        ensures
            n == self@.count(),
    {
        proof {
            lemma_rotate_count(self.buf@, self.head as int);
        }
        self.len
    }

    /// Resets the sliding window to its initial state.
    pub fn clear(&mut self)
        requires
            old(self).wf(),
        ensures
            final(self).wf(),
            final(self)@.slots == Seq::new(old(self)@.slots.len(), |i: int| None::<T>),
            final(self)@.lowest_key is None,
    {
        let mut i: usize = 0;
        while i < self.buf.len()
            invariant
                i <= self.buf@.len(),
                self.buf@.len() == old(self).buf@.len(),
                self.head == old(self).head,
                forall|j: int| 0 <= j < i ==> #[trigger] self.buf@[j] is None,
            decreases self.buf@.len() - i,
        {
            self.buf.set(i, None);
            i = i + 1;
        }
        self.lowest_key = None;
        self.head = 0;
        self.len = 0;
        proof {
            lemma_some_count_zero(self.buf@);
        }
        assert(self@.slots =~= Seq::new(old(self)@.slots.len(), |i: int| None::<T>));
    }

    /// Checks whether the sliding window is empty: it stores no element.
    pub fn is_empty(&self) -> (b: bool)
        requires
            self.wf(),
        ensures
            b == self@.is_empty(),
            b == (self@.count() == 0),
    {
        self.count() == 0
    }

    /// Sets the lowest (expected) key.
    ///
    /// This can be used to avoid situations in which the (by order of keys)
    /// second element is inserted first and would otherwise prevent the
    /// insertion of the actual first element. The window must be empty.
    pub fn set_lowest_key(&mut self, key: usize)
        requires
            old(self).wf(),
            old(self)@.is_empty(),
        ensures
            final(self).wf(),
            final(self)@.slots == old(self)@.slots,
            final(self)@.lowest_key == Some(key),
    {
        self.lowest_key = Some(key);
    }

    /// Obtains a draining handle that repeatedly pops.
    pub fn drain(&mut self) -> (d: Drain<'_, T>)
        requires
            old(self).wf(),
        ensures
            *d.buf == *old(self),
            *final(d.buf) == *final(self),
    {
        Drain { buf: self }
    }

    /// Inserts an element into the sliding window under `key`.
    pub fn insert(&mut self, key: usize, val: T) -> (r: Result<(), InsertError<T>>)
        requires
            old(self).wf(),
        ensures
            final(self).wf(),
            (final(self)@, r) == old(self)@.insert(key, val),
    {
        let insert_pos = match self.lowest_key {
            Some(lowest_key) => {
                if key < lowest_key {
                    if self.count() != 0 {
                        return Err(InsertError::KeyTooLow(val));
                    }
                    // Nothing is stored: the key becomes the lowest one.
                    self.head = 0;
                    self.lowest_key = Some(key);
                    0
                } else {
                    let distance_from_lowest = key - lowest_key;
                    if distance_from_lowest >= self.buf.len() {
                        return Err(InsertError::DistanceTooLarge(val));
                    }
                    self.position(distance_from_lowest)
                }
            },
            None => {
                self.head = 0;
                self.lowest_key = Some(key);
                0
            },
        };
        let ghost reset = old(self).lowest_key is None || key < old(self).lowest_key.unwrap();
        proof {
            if reset {
                old(self).lemma_buf_empty();
            }
        }
        if self.buf[insert_pos].is_some() {
            return Err(InsertError::WouldOverwrite(val));
        }
        let ghost pre = self.buf@;
        self.buf.set(insert_pos, Some(val));
        proof {
            lemma_some_count_fill(pre, insert_pos as int, val);
            lemma_some_count_zero(self.buf@);
        }
        self.len = self.len + 1;
        proof {
            let d: int = if reset { 0 } else { key - old(self).lowest_key.unwrap() };
            let n = self.buf@.len();
            let h = self.head as int;
            assert(rotate(self.buf@, h) =~= rotate(pre, h).update(d, Some(val))) by {
                assert forall|j: int| 0 <= j < n implies #[trigger] rotate(self.buf@, h)[j] == rotate(pre, h).update(d, Some(val))[j] by {
                    if j < n - h {
                        assert(rotate(self.buf@, h)[j] == self.buf@[h + j]);
                        assert(rotate(pre, h)[j] == pre[h + j]);
                    } else {
                        assert(rotate(self.buf@, h)[j] == self.buf@[j - (n - h)]);
                        assert(rotate(pre, h)[j] == pre[j - (n - h)]);
                    }
                }
            }
            if reset {
                lemma_some_count_zero(old(self)@.slots);
                assert(rotate(pre, 0) =~= old(self)@.slots) by {
                    assert forall|j: int| 0 <= j < n implies #[trigger] rotate(pre, 0)[j] == old(self)@.slots[j] by {
                        old(self).lemma_wf_inv();
                    }
                }
            }
        }
        Ok(())
    }

    /// Returns a reference to the smallest element in the sliding window
    /// without removing it from the buffer.
    pub fn peek(&self) -> (r: Option<&T>)
        requires
            self.wf(),
        ensures
            r is Some <==> self@.slots[0] is Some,
            r is Some ==> *r.unwrap() == self@.slots[0].unwrap(),
    {
        let p = self.position(0);
        self.buf[p].as_ref()
    }

    /// Attempts to remove the "smallest" item from the sliding window.
    ///
    /// Returns `None` if the buffer is empty or if there is a hole at the
    /// current position.
    pub fn pop(&mut self) -> (r: Option<T>)
        requires
            old(self).wf(),
        ensures
            final(self).wf(),
            (final(self)@, r) == old(self)@.pop(),
    {
        let p = self.position(0);
        if self.lowest_key.is_none() || self.buf[p].is_none() {
            return None;
        }
        let head = self.head;
        let ghost pre = self.buf@;
        let mut element: Option<T> = None;
        self.buf.set_and_swap(head, &mut element);
        let n = self.buf.len();
        // Advance the head past the removed element.
        self.head = if element.is_some() {
            if head + 1 == n {
                0
            } else {
                head + 1
            }
        } else {
            head
        };
        proof {
            assert(pre[head as int] is Some) by {
                old(self).lemma_wf_inv();
            }
            let x = pre[head as int]->0;
            assert(self.buf@.update(head as int, Some(x)) =~= pre);
            lemma_some_count_fill(self.buf@, head as int, x);
            lemma_some_count_zero(self.buf@);
        }
        self.len = self.len - 1;
        let all_none = self.len == 0;
        let ghost new_slots = rotate(self.buf@, self.head as int);
        proof {
            let h = head as int;
            let old_slots = rotate(pre, h);
            assert(new_slots =~= old_slots.drop_first().push(None)) by {
                assert forall|j: int| 0 <= j < n implies #[trigger] new_slots[j] == old_slots.drop_first().push(None)[j] by {
                    if j == n - 1 {
                        if h + 1 == n {
                            assert(new_slots[j] == self.buf@[j]);
                        } else {
                            assert(new_slots[j] == self.buf@[j - (n - (h + 1))]);
                        }
                    } else if h + 1 == n {
                        assert(new_slots[j] == self.buf@[j]);
                        assert(old_slots[j + 1] == pre[j]);
                    } else if j < n - (h + 1) {
                        assert(new_slots[j] == self.buf@[h + 1 + j]);
                        assert(old_slots[j + 1] == pre[h + 1 + j]);
                    } else {
                        assert(new_slots[j] == self.buf@[j - (n - (h + 1))]);
                        assert(old_slots[j + 1] == pre[j + 1 - (n - h)]);
                    }
                }
            }
            lemma_rotate_count(self.buf@, self.head as int);
            lemma_some_count_zero(self.buf@);
        }
        self.lowest_key = if element.is_none() {
            self.lowest_key
        } else if all_none {
            None
        } else {
            match self.lowest_key {
                Some(l) => Some(l.wrapping_add(1)),
                None => None,
            }
        };
        element
    }
}

impl<'a, T> Drain<'a, T> {
    /// Pops the next element off the underlying window.
    pub fn next(&mut self) -> (r: Option<T>)
        requires
            old(self).buf.wf(),
        ensures
            final(self).buf.wf(),
            (final(self).buf@, r) == old(self).buf@.pop(),
    {
        self.buf.pop()
    }

    /// The exact number of elements that `next` will still hand out.
    pub fn size_hint(&self) -> (r: (usize, Option<usize>))
        requires
            old(self.buf).wf(),
        ensures
            r == (old(self.buf)@.available() as usize, Some(old(self.buf)@.available() as usize)),
    {
        let available = self.buf.available();
        (available, Some(available))
    }
}

/// The human-readable description of an insertion error.
pub open spec fn insert_error_text<T>(e: InsertError<T>) -> Seq<char> {
    match e {
        InsertError::DistanceTooLarge(_) => "cannot insert element, the distance to the other elements is too large"@,
        InsertError::KeyTooLow(_) => "cannot insert element because the key is too low"@,
        InsertError::WouldOverwrite(_) => "cannot insert element because it would overwrite another element"@,
    }
}

impl<T> InsertError<T> {
    /// The human-readable description of the error.
    pub fn to_string(&self) -> (s: String)
        ensures
            s@ == insert_error_text(*self),
    {
        match self {
            InsertError::DistanceTooLarge(_) => String::from_str(
                "cannot insert element, the distance to the other elements is too large",
            ),
            InsertError::KeyTooLow(_) => String::from_str(
                "cannot insert element because the key is too low",
            ),
            InsertError::WouldOverwrite(_) => String::from_str(
                "cannot insert element because it would overwrite another element",
            ),
        }
    }
    /// Checks if the error represents the "distance too large" variant.
    pub fn is_distance_too_large(&self) -> (b: bool)
        ensures
            b == self is DistanceTooLarge,
    {
        match self {
            InsertError::DistanceTooLarge(_) => true,
            _ => false,
        }
    }

    /// Checks if the error represents the "key too low" variant.
    pub fn is_key_too_low(&self) -> (b: bool)
        ensures
            b == self is KeyTooLow,
    {
        match self {
            InsertError::KeyTooLow(_) => true,
            _ => false,
        }
    }

    /// Checks if the error represents the "would overwrite" variant.
    pub fn is_would_overwrite(&self) -> (b: bool)
        ensures
            b == self is WouldOverwrite,
    {
        match self {
            InsertError::WouldOverwrite(_) => true,
            _ => false,
        }
    }
}

} // verus!

//! Bounded retention ring buffer: holds the last `capacity` entries pushed,
//! evicting the oldest as new ones arrive past capacity. Used for the
//! tick-hash retention window.
use vstd::prelude::*;
use std::collections::VecDeque;
use std::collections::vec_deque::Iter;

verus! {

broadcast use vstd::std_specs::vecdeque::group_vec_dequeue_axioms;

/// The last `n` items of `s` (all of `s` when it is shorter).
pub open spec fn keep_last<T>(s: Seq<T>, n: nat) -> Seq<T> {
    if s.len() <= n {
        s
    } else {
        s.subrange(s.len() - n, s.len() as int)
    }
}

/// A ring buffer of at most `capacity` items, oldest first.
#[derive(Debug)]
pub struct RingBuffer<T> {
    capacity: usize,
    items: VecDeque<T>,
}

impl<T> View for RingBuffer<T> {
    type V = Seq<T>;

    /// The retained items, oldest first.
    closed spec fn view(&self) -> Seq<T> {
        self.items@
    }
}

impl<T> RingBuffer<T> {
    #[verifier::type_invariant]
    spec fn inv(&self) -> bool {
        self.items@.len() <= self.capacity
    }

    /// The maximum number of items retained.
    pub closed spec fn spec_capacity(&self) -> nat {
        self.capacity as nat
    }

    /// `capacity == 0` is valid: every push is dropped at once, so the
    /// buffer always reports empty.
    pub fn new(capacity: usize) -> (r: Self)
        ensures
            r@ == Seq::<T>::empty(),
            r.spec_capacity() == capacity,
    {
        let reserve = if capacity < 1024 {
            capacity
        } else {
            1024
        };
        RingBuffer { capacity, items: VecDeque::with_capacity(reserve) }
    }

    /// Appends `item`, evicting the oldest item first when the buffer is
    /// full.
    pub fn push(&mut self, item: T)
        ensures
            final(self)@ == keep_last(old(self)@.push(item), old(self).spec_capacity()),
            final(self).spec_capacity() == old(self).spec_capacity(),
            final(self)@.len() <= final(self).spec_capacity(),
    {
        proof {
            use_type_invariant(&*self);
        }
        if self.capacity == 0 {
            return;
        }
        let mut items = VecDeque::new();
        std::mem::swap(&mut items, &mut self.items);
        let ghost before = items@;
        if items.len() == self.capacity {
            items.pop_front();
        }
        items.push_back(item);
        assert(items@ =~= keep_last(before.push(item), self.capacity as nat));
        self.items = items;
    }

    pub fn len(&self) -> (n: usize)
        ensures
            n == self@.len(),
            n <= self.spec_capacity(),
    {
        proof {
            use_type_invariant(self);
        }
        self.items.len()
    }

    pub fn is_empty(&self) -> (b: bool)
        ensures
            b == (self@.len() == 0),
    {
        self.items.len() == 0
    }

    pub fn capacity(&self) -> (c: usize)
        ensures
            c == self.spec_capacity(),
    {
        self.capacity
    }

    /// The retained items, oldest first.
    pub fn iter(&self) -> (it: Iter<'_, T>)
        ensures
            vstd::std_specs::iter::IteratorSpec::remaining(&it) == self@.as_ref(),
    {
        self.items.iter()
    }

    /// The most recently pushed item still retained.
    pub fn back(&self) -> (r: Option<&T>)
        ensures
            match r {
                Some(x) => self@.len() > 0 && *x == self@.last(),
                None => self@.len() == 0,
            },
    {
        let n = self.items.len();
        if n == 0 {
            None
        } else {
            Some(&self.items[n - 1])
        }
    }
}

/// Pushing onto a buffer that holds the last `n` items of a history leaves
/// it holding the last `n` items of the history extended by the new item:
/// so a buffer fed the items of any sequence, starting empty, holds exactly
/// that sequence's last `n` items.
pub proof fn lemma_keep_last_push<T>(history: Seq<T>, x: T, n: nat)
    ensures
        keep_last(keep_last(history, n).push(x), n) == keep_last(history.push(x), n),
{
    assert(keep_last(keep_last(history, n).push(x), n) =~= keep_last(history.push(x), n));
}

/// Whatever was pushed, a buffer never holds more than its capacity.
pub proof fn lemma_keep_last_bounded<T>(s: Seq<T>, n: nat)
    ensures
        keep_last(s, n).len() <= n,
        keep_last(s, n).len() == if s.len() <= n { s.len() } else { n },
{
}

/// `s` without the reports for tick `t`, in order.
pub open spec fn without_tick(s: Seq<(u64, u64)>, t: u64) -> Seq<(u64, u64)>
    decreases s.len(),
{
    if s.len() == 0 {
        seq![]
    } else if s.last().0 == t {
        without_tick(s.drop_last(), t)
    } else {
        without_tick(s.drop_last(), t).push(s.last())
    }
}

/// One report arriving at a window of at most `n` ticks that holds the
/// ticks `w.0`, in the order they entered, and their reports `w.1`: a
/// report for a tick already in the window joins it; a report for a new
/// tick enters it, and when that makes more than `n` ticks the oldest tick
/// leaves with all its reports.
pub open spec fn window_step(w: (Seq<u64>, Seq<(u64, u64)>), p: (u64, u64), n: nat) -> (
    Seq<u64>,
    Seq<(u64, u64)>,
) {
    if w.0.contains(p.0) {
        (w.0, w.1.push(p))
    } else if w.0.len() < n {
        (w.0.push(p.0), w.1.push(p))
    } else if n == 0 {
        w
    } else {
        (w.0.drop_first().push(p.0), without_tick(w.1.push(p), w.0[0]))
    }
}

/// The window of at most `n` ticks after the reports `hs`, in order: the
/// most recent `n` ticks to have entered it, and all their reports since,
/// oldest first.
pub open spec fn tick_window(hs: Seq<(u64, u64)>, n: nat) -> (Seq<u64>, Seq<(u64, u64)>)
    decreases hs.len(),
{
    if hs.len() == 0 {
        (seq![], seq![])
    } else {
        window_step(tick_window(hs.drop_last(), n), hs.last(), n)
    }
}

/// The reports a window of at most `n` ticks retains after the reports
/// `hs`.
pub open spec fn keep_last_ticks(hs: Seq<(u64, u64)>, n: nat) -> Seq<(u64, u64)> {
    tick_window(hs, n).1
}

/// A retention window measured in ticks: the reports of the most recent
/// `capacity` ticks, however many reports each tick has.
#[derive(Debug)]
pub struct TickWindow {
    capacity: usize,
    ticks: VecDeque<u64>,
    reports: VecDeque<(u64, u64)>,
}

impl TickWindow {
    #[verifier::type_invariant]
    spec fn inv(&self) -> bool {
        self.ticks@.len() <= self.capacity
    }

    /// The ticks in the window, in the order they entered it, and their
    /// retained reports, oldest first.
    pub closed spec fn contents(&self) -> (Seq<u64>, Seq<(u64, u64)>) {
        (self.ticks@, self.reports@)
    }

    /// The most ticks the window keeps.
    pub closed spec fn spec_capacity(&self) -> nat {
        self.capacity as nat
    }

    /// An empty window of at most `capacity` ticks.
    pub fn new(capacity: usize) -> (r: Self)
        ensures
            r.contents() == tick_window(seq![], capacity as nat),
            r.spec_capacity() == capacity,
    {
        TickWindow { capacity, ticks: VecDeque::new(), reports: VecDeque::new() }
    }

    /// Takes in one report.
    pub fn push(&mut self, p: (u64, u64))
        ensures
            final(self).contents() == window_step(old(self).contents(), p, old(self).spec_capacity()),
            final(self).spec_capacity() == old(self).spec_capacity(),
    {
        proof {
            use_type_invariant(&*self);
        }
        let mut i: usize = 0;
        let mut present = false;
        while i < self.ticks.len()
            invariant
                i <= self.ticks@.len(),
                present <==> exists|k: int| 0 <= k < i && #[trigger] self.ticks@[k] == p.0,
            decreases self.ticks@.len() - i,
        {
            if self.ticks[i] == p.0 {
                present = true;
            }
            i = i + 1;
        }
        proof {
            if self.ticks@.contains(p.0) {
                let k = choose|k: int| 0 <= k < self.ticks@.len() && self.ticks@[k] == p.0;
                assert(present);
            }
        }
        let mut ticks = VecDeque::new();
        let mut reports = VecDeque::new();
        std::mem::swap(&mut ticks, &mut self.ticks);
        std::mem::swap(&mut reports, &mut self.reports);
        let ghost w = (ticks@, reports@);
        if present {
            reports.push_back(p);
        } else if ticks.len() < self.capacity {
            ticks.push_back(p.0);
            reports.push_back(p);
        } else if self.capacity > 0 {
            let gone = ticks[0];
            ticks.pop_front();
            ticks.push_back(p.0);
            reports.push_back(p);
            reports = drop_tick(&reports, gone);
            assert(ticks@ =~= w.0.drop_first().push(p.0));
        }
        assert((ticks@, reports@) == window_step(w, p, self.capacity as nat));
        self.ticks = ticks;
        self.reports = reports;
    }

    /// The retained reports, oldest first.
    pub fn iter(&self) -> (it: Iter<'_, (u64, u64)>)
        ensures
            vstd::std_specs::iter::IteratorSpec::remaining(&it) == self.contents().1.as_ref(),
    {
        self.reports.iter()
    }
}

/// `s` without the reports for tick `t`.
fn drop_tick(s: &VecDeque<(u64, u64)>, t: u64) -> (r: VecDeque<(u64, u64)>)
    ensures
        r@ == without_tick(s@, t),
{
    let mut out: VecDeque<(u64, u64)> = VecDeque::new();
    let mut i: usize = 0;
    while i < s.len()
        invariant
            i <= s@.len(),
            out@ == without_tick(s@.take(i as int), t),
        decreases s@.len() - i,
    {
        let q = s[i];
        assert(s@.take(i + 1).drop_last() =~= s@.take(i as int));
        if q.0 != t {
            out.push_back(q);
        }
        i = i + 1;
    }
    assert(s@.take(s@.len() as int) =~= s@);
    out
}

/// Every retained report belongs to a tick in the window.
pub open spec fn reports_in_window(w: (Seq<u64>, Seq<(u64, u64)>)) -> bool {
    forall|k: int| 0 <= k < w.1.len() ==> w.0.contains(#[trigger] w.1[k].0)
}

proof fn lemma_without_tick(s: Seq<(u64, u64)>, t: u64)
    ensures
        forall|k: int|
            0 <= k < without_tick(s, t).len() ==> (#[trigger] without_tick(s, t)[k]).0 != t
                && s.contains(without_tick(s, t)[k]),
    decreases s.len(),
{
    if s.len() > 0 {
        lemma_without_tick(s.drop_last(), t);
        let prev = without_tick(s.drop_last(), t);
        assert forall|k: int| 0 <= k < without_tick(s, t).len() implies (#[trigger] without_tick(
            s,
            t,
        )[k]).0 != t && s.contains(without_tick(s, t)[k]) by {
            if k < prev.len() {
                assert(without_tick(s, t)[k] == prev[k]);
                let j = choose|j: int| 0 <= j < s.drop_last().len() && s.drop_last()[j] == prev[k];
                assert(s[j] == prev[k]);
            } else {
                assert(without_tick(s, t)[k] == s.last());
                assert(s[s.len() - 1] == s.last());
            }
        }
    }
}

/// However many peers report each tick, the window holds at most `n`
/// distinct ticks, each once, and only reports of those ticks.
pub proof fn lemma_tick_window_bounded(hs: Seq<(u64, u64)>, n: nat)
    ensures
        tick_window(hs, n).0.len() <= n,
        tick_window(hs, n).0.no_duplicates(),
        reports_in_window(tick_window(hs, n)),
    decreases hs.len(),
{
    if hs.len() > 0 {
        lemma_tick_window_bounded(hs.drop_last(), n);
        let w = tick_window(hs.drop_last(), n);
        let p = hs.last();
        if w.0.contains(p.0) {
            assert forall|k: int| 0 <= k < w.1.push(p).len() implies w.0.contains(
                #[trigger] w.1.push(p)[k].0,
            ) by {
                if k < w.1.len() {
                    assert(w.1.push(p)[k] == w.1[k]);
                }
            }
        } else if w.0.len() < n {
            let t2 = w.0.push(p.0);
            assert forall|a: int, b: int| 0 <= a < t2.len() && 0 <= b < t2.len() && a != b implies t2[a]
                != t2[b] by {
                if a < w.0.len() && b < w.0.len() {
                } else if a < w.0.len() {
                    assert(w.0.contains(t2[a]));
                } else {
                    assert(w.0.contains(t2[b]));
                }
            }
            assert forall|k: int| 0 <= k < w.1.push(p).len() implies t2.contains(
                #[trigger] w.1.push(p)[k].0,
            ) by {
                if k < w.1.len() {
                    assert(w.1.push(p)[k] == w.1[k]);
                    assert(w.0.contains(w.1[k].0));
                    let j = choose|j: int| 0 <= j < w.0.len() && w.0[j] == w.1[k].0;
                    assert(t2[j] == w.0[j]);
                } else {
                    assert(t2[w.0.len() as int] == p.0);
                }
            }
        } else if n > 0 {
            let gone = w.0[0];
            let t2 = w.0.drop_first().push(p.0);
            let s2 = w.1.push(p);
            lemma_without_tick(s2, gone);
            assert forall|a: int, b: int| 0 <= a < t2.len() && 0 <= b < t2.len() && a != b implies t2[a]
                != t2[b] by {
                if a < t2.len() - 1 && b < t2.len() - 1 {
                    assert(t2[a] == w.0[a + 1] && t2[b] == w.0[b + 1]);
                } else if a < t2.len() - 1 {
                    assert(t2[a] == w.0[a + 1]);
                    assert(w.0.contains(t2[a]));
                } else {
                    assert(t2[b] == w.0[b + 1]);
                    assert(w.0.contains(t2[b]));
                }
            }
            let r2 = without_tick(s2, gone);
            assert forall|k: int| 0 <= k < r2.len() implies t2.contains(#[trigger] r2[k].0) by {
                assert(r2[k] == without_tick(s2, gone)[k]);
                assert(r2[k].0 != gone && s2.contains(r2[k]));
                let j = choose|j: int| 0 <= j < s2.len() && s2[j] == r2[k];
                if j < w.1.len() {
                    assert(s2[j] == w.1[j]);
                    assert(w.0.contains(w.1[j].0));
                    let m = choose|m: int| 0 <= m < w.0.len() && w.0[m] == w.1[j].0;
                    assert(m != 0);
                    assert(t2[m - 1] == w.0[m]);
                } else {
                    assert(t2[t2.len() - 1] == p.0);
                }
            }
        }
    }
}

} // verus!

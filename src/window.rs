//! The sliding window of recent readings and the displacement transform.
use vstd::prelude::*;
use std::collections::VecDeque;
use crate::codec::Reading;

verus! {

/// How many readings the window keeps by default.
pub const MAX_SAMPLES: usize = 60;

/// The window after `r` is pushed onto `w` with room for `cap` readings:
/// the oldest reading leaves first once the window is full.
pub open spec fn pushed(w: Seq<Reading>, cap: nat, r: Reading) -> Seq<Reading> {
    if w.len() >= cap {
        w.drop_first().push(r)
    } else {
        w.push(r)
    }
}

/// The window after each of `xs` is pushed in turn.
pub open spec fn pushed_all(w: Seq<Reading>, cap: nat, xs: Seq<Reading>) -> Seq<Reading>
    decreases xs.len(),
{
    if xs.len() == 0 {
        w
    } else {
        pushed(pushed_all(w, cap, xs.drop_last()), cap, xs.last())
    }
}

/// The `total_displacement` that the next reading is measured against: that of
/// the newest reading in the window, or zero when the window is empty.
pub open spec fn baseline(w: Seq<Reading>) -> int {
    if w.len() == 0 {
        0
    } else {
        w.last().total_displacement as int
    }
}

/// `raw` with its displacement set to the change of its counter since `w`'s
/// newest reading, times `scale`.
pub open spec fn transformed(w: Seq<Reading>, raw: Reading, scale: i64) -> Reading {
    Reading {
        displacement: ((raw.total_displacement as int - baseline(w)) * scale as int) as i128,
        ..raw
    }
}

/// Which quantity a plot of the window shows.
#[derive(Clone, Copy, Debug, PartialEq, Eq, Structural)]
pub enum Plotting {
    Reference,
    Measured,
    Displacement,
    Velocity,
}

pub open spec fn plotted(r: Reading, which: Plotting) -> i128 {
    match which {
        Plotting::Reference => r.reference as i128,
        Plotting::Measured => r.measured as i128,
        Plotting::Velocity => r.velocity as i128,
        Plotting::Displacement => r.displacement,
    }
}

/// A bounded FIFO of the most recent readings, oldest first.
pub struct SlidingWindow {
    readings: VecDeque<Reading>,
    capacity: usize,
}

impl View for SlidingWindow {
    type V = Seq<Reading>;

    closed spec fn view(&self) -> Seq<Reading> {
        self.readings@
    }
}

impl SlidingWindow {
    pub closed spec fn cap(&self) -> nat {
        self.capacity as nat
    }

    /// Room for at least one reading, and never more readings than room.
    pub open spec fn wf(&self) -> bool {
        &&& self.cap() >= 1
        &&& self@.len() <= self.cap()
    }

    /// An empty window with room for `capacity` readings.
    pub fn new(capacity: usize) -> (w: SlidingWindow)
        requires
            capacity >= 1,
        ensures
            w.wf(),
            w@ == Seq::<Reading>::empty(),
            w.cap() == capacity,
    {
        SlidingWindow { readings: VecDeque::new(), capacity }
    }

    pub fn capacity(&self) -> (r: usize)
        ensures
            r == self.cap(),
    {
        self.capacity
    }

    pub fn len(&self) -> (r: usize)
        ensures
            r == self@.len(),
    {
        self.readings.len()
    }

    /// The `i`-th reading, oldest first.
    pub fn get(&self, i: usize) -> (r: Reading)
        requires
            i < self@.len(),
        ensures
            r == self@[i as int],
    {
        self.readings[i]
    }

    /// The newest reading, if any.
    pub fn last(&self) -> (r: Option<Reading>)
        ensures
            self@.len() == 0 ==> r is None,
            self@.len() > 0 ==> r == Some(self@.last()),
    {
        let n = self.readings.len();
        if n == 0 {
            None
        } else {
            Some(self.readings[n - 1])
        }
    }

    /// Appends a reading, first evicting the oldest one if the window is full.
    pub fn push(&mut self, r: Reading)
        requires
            old(self).wf(),
        ensures
            final(self).wf(),
            final(self).cap() == old(self).cap(),
            final(self)@ == pushed(old(self)@, old(self).cap(), r),
    {
        if self.readings.len() >= self.capacity {
            let _ = self.readings.pop_front();
        }
        self.readings.push_back(r);
    }

    /// Sets the displacement of a freshly decoded reading from the newest
    /// buffered one (or from zero on an empty window), pushes it, and returns it.
    pub fn record(&mut self, raw: Reading, scale: i64) -> (r: Reading)
        requires
            old(self).wf(),
        ensures
            r == transformed(old(self)@, raw, scale),
            final(self).wf(),
            final(self).cap() == old(self).cap(),
            final(self)@ == pushed(old(self)@, old(self).cap(), r),
    {
        let prev: i64 = match self.last() {
            Some(p) => p.total_displacement,
            None => 0,
        };
        let delta: i128 = raw.total_displacement as i128 - prev as i128;
        assert(-0x1_0000_0000_0000_0000 < delta < 0x1_0000_0000_0000_0000);
        assert(-0x8000_0000_0000_0000 <= scale < 0x8000_0000_0000_0000);
        assert(-0x8000_0000_0000_0000_0000_0000_0000_0000 < delta * scale
            < 0x8000_0000_0000_0000_0000_0000_0000_0000) by (nonlinear_arith)
            requires
                -0x1_0000_0000_0000_0000 < delta < 0x1_0000_0000_0000_0000,
                -0x8000_0000_0000_0000 <= scale < 0x8000_0000_0000_0000,
        ;
        let r = Reading { displacement: delta * scale as i128, ..raw };
        self.push(r);
        r
    }

    /// The chosen quantity of each reading, oldest first: the points of a plot
    /// whose x coordinate is the index.
    pub fn series(&self, which: Plotting) -> (r: Vec<i128>)
        ensures
            r@.len() == self@.len(),
            forall|i: int| 0 <= i < r@.len() ==> #[trigger] r@[i] == plotted(self@[i], which),
    {
        let mut out: Vec<i128> = Vec::new();
        let mut i: usize = 0;
        while i < self.readings.len()
            invariant
                i <= self@.len(),
                out@.len() == i,
                forall|j: int| 0 <= j < i ==> #[trigger] out@[j] == plotted(self@[j], which),
            decreases self@.len() - i,
        {
            let r = self.readings[i];
            let v: i128 = match which {
                Plotting::Reference => r.reference as i128,
                Plotting::Measured => r.measured as i128,
                Plotting::Velocity => r.velocity as i128,
                Plotting::Displacement => r.displacement,
            };
            out.push(v);
            i += 1;
        }
        out
    }
}

/// The first reading on an empty window measures its counter from zero;
/// every later one measures it from the newest buffered reading.
pub proof fn lemma_displacement_deltas(w: Seq<Reading>, raw: Reading, scale: i64)
    ensures
        w.len() == 0 ==> transformed(w, raw, scale).displacement == raw.total_displacement as int
            * scale as int,
        w.len() > 0 ==> transformed(w, raw, scale).displacement == (raw.total_displacement as int
            - w.last().total_displacement as int) * scale as int,
        transformed(w, raw, scale) == (Reading { displacement: transformed(w, raw, scale).displacement, ..raw }),
{
    let d = raw.total_displacement as int - baseline(w);
    assert(-0x1_0000_0000_0000_0000 < d < 0x1_0000_0000_0000_0000);
    assert(-0x8000_0000_0000_0000_0000_0000_0000_0000 < d * scale
        < 0x8000_0000_0000_0000_0000_0000_0000_0000) by (nonlinear_arith)
        requires
            -0x1_0000_0000_0000_0000 < d < 0x1_0000_0000_0000_0000,
            -0x8000_0000_0000_0000 <= scale < 0x8000_0000_0000_0000,
    ;
}

/// Pushing `x` and then `xs` is pushing `x` first, then each of `xs`.
pub proof fn lemma_pushed_all_first(w: Seq<Reading>, cap: nat, x: Reading, xs: Seq<Reading>)
    ensures
        pushed_all(w, cap, seq![x] + xs) == pushed_all(pushed(w, cap, x), cap, xs),
    decreases xs.len(),
{
    let all = seq![x] + xs;
    if xs.len() == 0 {
        assert(all.drop_last() =~= Seq::<Reading>::empty());
        assert(all.last() == x);
        assert(pushed_all(w, cap, all) == pushed(pushed_all(w, cap, all.drop_last()), cap, x));
    } else {
        assert(all.drop_last() =~= seq![x] + xs.drop_last());
        assert(all.last() == xs.last());
        lemma_pushed_all_first(w, cap, x, xs.drop_last());
        assert(pushed_all(w, cap, all) == pushed(
            pushed_all(w, cap, all.drop_last()),
            cap,
            all.last(),
        ));
    }
}

/// Pushing readings onto an empty window keeps exactly the last `cap` of them
/// (all of them while fewer), oldest first; in particular `cap + 1` pushes
/// evict exactly the first reading.
pub proof fn lemma_window_fifo(cap: nat, xs: Seq<Reading>)
    requires
        cap >= 1,
    ensures
        pushed_all(Seq::empty(), cap, xs) == xs.subrange(
            if xs.len() > cap { xs.len() - cap } else { 0 },
            xs.len() as int,
        ),
        xs.len() == cap + 1 ==> pushed_all(Seq::empty(), cap, xs) == xs.drop_first(),
    decreases xs.len(),
{
    if xs.len() > 0 {
        let init = xs.drop_last();
        lemma_window_fifo(cap, init);
        let start: int = if xs.len() > cap { xs.len() - cap } else { 0 };
        let prev_start: int = if init.len() > cap { init.len() - cap } else { 0 };
        let prev = init.subrange(prev_start, init.len() as int);
        if prev.len() >= cap {
            assert(prev.drop_first().push(xs.last()) =~= xs.subrange(start, xs.len() as int));
        } else {
            assert(prev.push(xs.last()) =~= xs.subrange(start, xs.len() as int));
        }
    } else {
        assert(xs.subrange(0, 0) =~= Seq::<Reading>::empty());
    }
    if xs.len() == cap + 1 {
        assert(xs.subrange(1, xs.len() as int) =~= xs.drop_first());
    }
}

} // verus!

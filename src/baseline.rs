use vstd::prelude::*;

use std::collections::VecDeque;

use crate::stats::{
    bounded_by, lemma_products_drop_first, lemma_products_push, lemma_spread_nonneg,
    lemma_sum_drop_first, lemma_sum_push, lemma_sums_bounds, products, sum, sum_sq,
};

verus! {

/// Largest window that a baseline may span; its sums then fit in machine words.
pub const MAX_WINDOW: usize = 1024;

/// Largest metric reading.
pub open spec fn reading_max() -> int {
    0xffff_ffff
}

/// One sampling interval's readings, one per metric, in a fixed metric order.
#[derive(Clone, Debug)]
pub struct Sample {
    pub timestamp: u64,
    pub values: Vec<u32>,
}

/// A snapshot of the rolling statistics: for each metric, the sum and the sum of squares of its
/// readings over the last `count` samples, of a window of `window` samples.
#[derive(Clone, Debug)]
pub struct BaselineState {
    pub window: usize,
    pub count: usize,
    pub sums: Vec<u64>,
    pub sq_sums: Vec<u128>,
}

impl BaselineState {
    /// The sums are those of `count` readings, so that the variance is never negative.
    pub open spec fn wf(&self) -> bool {
        &&& 1 <= self.window <= MAX_WINDOW
        &&& self.count <= self.window
        &&& self.sums@.len() == self.sq_sums@.len()
        &&& forall|m: int|
            0 <= m < self.sums@.len() ==> {
                &&& #[trigger] self.sums@[m] <= self.count * reading_max()
                &&& self.sq_sums@[m] <= self.count * (reading_max() * reading_max())
                &&& self.count * self.sq_sums@[m] >= self.sums@[m] * self.sums@[m]
            }
    }

    /// The window has filled: the warm-up is over.
    pub open spec fn is_warm(&self) -> bool {
        self.count >= self.window
    }

    pub open spec fn sum_seq(&self) -> Seq<int> {
        self.sums@.map_values(|x: u64| x as int)
    }

    pub open spec fn sq_sum_seq(&self) -> Seq<int> {
        self.sq_sums@.map_values(|x: u128| x as int)
    }
}

/// The readings of metric `m` across a sequence of samples.
pub open spec fn column(w: Seq<Seq<u32>>, m: int) -> Seq<int> {
    Seq::new(w.len(), |i: int| w[i][m] as int)
}

/// Per metric, the sum of its readings.
pub open spec fn column_sums(w: Seq<Seq<u32>>, metric_count: nat) -> Seq<int> {
    Seq::new(metric_count, |m: int| sum(column(w, m)))
}

/// Per metric, the sum of the squares of its readings.
pub open spec fn column_sq_sums(w: Seq<Seq<u32>>, metric_count: nat) -> Seq<int> {
    Seq::new(metric_count, |m: int| sum_sq(column(w, m)))
}

/// The window after one more sample: the sample is appended and, once the window is full, the
/// oldest one leaves.
pub open spec fn rolled(w: Seq<Seq<u32>>, window: nat, values: Seq<u32>) -> Seq<Seq<u32>> {
    if w.len() < window {
        w.push(values)
    } else {
        w.drop_first().push(values)
    }
}

/// Rolling per-metric statistics over the last `window` samples.
pub struct BaselineModel {
    window: usize,
    metric_count: usize,
    recent: VecDeque<Vec<u32>>,
    sums: Vec<u64>,
    sq_sums: Vec<u128>,
}

impl BaselineModel {
    /// The samples in the window, oldest first.
    pub closed spec fn recent(&self) -> Seq<Seq<u32>> {
        self.recent@.map_values(|v: Vec<u32>| v@)
    }

    pub closed spec fn window(&self) -> nat {
        self.window as nat
    }

    pub closed spec fn metric_count(&self) -> nat {
        self.metric_count as nat
    }

    pub closed spec fn wf(&self) -> bool {
        &&& 1 <= self.window <= MAX_WINDOW
        &&& self.recent@.len() <= self.window
        &&& forall|i: int|
            0 <= i < self.recent@.len() ==> (#[trigger] self.recent@[i])@.len()
                == self.metric_count
        &&& self.sums@.len() == self.metric_count
        &&& self.sq_sums@.len() == self.metric_count
        &&& forall|m: int|
            0 <= m < self.metric_count ==> #[trigger] self.sums@[m] == sum(column(self.recent(), m))
        &&& forall|m: int|
            0 <= m < self.metric_count ==> #[trigger] self.sq_sums@[m] == sum_sq(
                column(self.recent(), m),
            )
    }

    /// An empty baseline over windows of `window` samples of `metric_count` metrics.
    pub fn new(window: usize, metric_count: usize) -> (r: Self)
        requires
            1 <= window <= MAX_WINDOW,
        ensures
            r.wf(),
            r.window() == window,
            r.metric_count() == metric_count,
            r.recent() == Seq::<Seq<u32>>::empty(),
    {
        let mut sums: Vec<u64> = Vec::new();
        let mut sq_sums: Vec<u128> = Vec::new();
        let mut m: usize = 0;
        while m < metric_count
            invariant
                m <= metric_count,
                sums@.len() == m,
                sq_sums@.len() == m,
                forall|k: int| 0 <= k < m ==> #[trigger] sums@[k] == 0,
                forall|k: int| 0 <= k < m ==> #[trigger] sq_sums@[k] == 0,
            decreases metric_count - m,
        {
            sums.push(0);
            sq_sums.push(0);
            m = m + 1;
        }
        let r = BaselineModel { window, metric_count, recent: VecDeque::new(), sums, sq_sums };
        assert(r.recent() =~= Seq::<Seq<u32>>::empty());
        r
    }

    /// Number of samples in the window.
    pub fn len(&self) -> (r: usize)
        requires
            self.wf(),
        ensures
            r == self.recent().len(),
    {
        self.recent.len()
    }

    /// The window has filled.
    pub fn is_warm(&self) -> (r: bool)
        requires
            self.wf(),
        ensures
            r == (self.recent().len() >= self.window()),
    {
        self.recent.len() >= self.window
    }

    /// A read-only copy of the current statistics.
    pub fn current(&self) -> (st: BaselineState)
        requires
            self.wf(),
        ensures
            st.wf(),
            st.window == self.window(),
            st.count == self.recent().len(),
            st.sum_seq() == column_sums(self.recent(), self.metric_count()),
            st.sq_sum_seq() == column_sq_sums(self.recent(), self.metric_count()),
    {
        let st = BaselineState {
            window: self.window,
            count: self.recent.len(),
            sums: self.sums.clone(),
            sq_sums: self.sq_sums.clone(),
        };
        assert(st.sums@ =~= self.sums@);
        assert(st.sq_sums@ =~= self.sq_sums@);
        assert forall|m: int| 0 <= m < st.sums@.len() implies {
            &&& #[trigger] st.sums@[m] <= st.count * reading_max()
            &&& st.sq_sums@[m] <= st.count * (reading_max() * reading_max())
            &&& st.count * st.sq_sums@[m] >= st.sums@[m] * st.sums@[m]
        } by {
            let c = column(self.recent(), m);
            assert(self.sums@[m] == sum(c));
            assert(self.sq_sums@[m] == sum_sq(c));
            assert(bounded_by(c, reading_max()));
            lemma_sums_bounds(c, reading_max());
            lemma_spread_nonneg(c);
        }
        assert(st.sum_seq() =~= column_sums(self.recent(), self.metric_count()));
        assert(st.sq_sum_seq() =~= column_sq_sums(self.recent(), self.metric_count()));
        st
    }

    /// Adds a sample to the window, dropping the oldest once the window is full. The sums are
    /// adjusted by the readings that enter and leave, in constant time per metric.
    pub fn update(&mut self, sample: &Sample)
        requires
            old(self).wf(),
            sample.values@.len() == old(self).metric_count(),
        ensures
            final(self).wf(),
            final(self).window() == old(self).window(),
            final(self).metric_count() == old(self).metric_count(),
            final(self).recent() == rolled(old(self).recent(), old(self).window(), sample.values@),
    {
        let ghost w0 = self.recent();
        let ghost w1 = rolled(w0, self.window as nat, sample.values@);
        let full = self.recent.len() >= self.window;
        let leaving: Vec<u32> = if full {
            match self.recent.pop_front() {
                Some(v) => v,
                None => Vec::new(),
            }
        } else {
            Vec::new()
        };
        assert(self.recent() =~= if full { w0.drop_first() } else { w0 });
        self.recent.push_back(sample.values.clone());
        assert(self.recent() =~= w1);
        assert(full ==> leaving@ == w0[0]);
        let mut sums: Vec<u64> = Vec::new();
        let mut sq_sums: Vec<u128> = Vec::new();
        let mut m: usize = 0;
        while m < self.metric_count
            invariant
                self.recent() == w1,
                w1 == rolled(w0, self.window as nat, sample.values@),
                1 <= self.window <= MAX_WINDOW,
                w0.len() <= self.window,
                full == (w0.len() >= self.window),
                full ==> leaving@ == w0[0],
                forall|i: int| 0 <= i < w0.len() ==> (#[trigger] w0[i]).len() == self.metric_count,
                sample.values@.len() == self.metric_count,
                self.sums@.len() == self.metric_count,
                self.sq_sums@.len() == self.metric_count,
                forall|k: int|
                    0 <= k < self.metric_count ==> #[trigger] self.sums@[k] == sum(column(w0, k)),
                forall|k: int|
                    0 <= k < self.metric_count ==> #[trigger] self.sq_sums@[k] == sum_sq(
                        column(w0, k),
                    ),
                m <= self.metric_count,
                sums@.len() == m,
                sq_sums@.len() == m,
                forall|k: int| 0 <= k < m ==> #[trigger] sums@[k] == sum(column(w1, k)),
                forall|k: int| 0 <= k < m ==> #[trigger] sq_sums@[k] == sum_sq(column(w1, k)),
            decreases self.metric_count - m,
        {
            let v: u32 = sample.values[m];
            let c0 = Ghost(column(w0, m as int));
            proof {
                let c1 = column(w1, m as int);
                assert(bounded_by(c0@, reading_max()));
                assert(bounded_by(c1, reading_max()));
                lemma_sums_bounds(c1, reading_max());
                assert(c1.len() * reading_max() <= MAX_WINDOW * reading_max()) by (nonlinear_arith)
                    requires
                        c1.len() <= MAX_WINDOW,
                ;
                assert(c1.len() * (reading_max() * reading_max()) <= MAX_WINDOW * (reading_max()
                    * reading_max())) by (nonlinear_arith)
                    requires
                        c1.len() <= MAX_WINDOW,
                ;
                if full {
                    assert(c1 =~= c0@.drop_first().push(v as int));
                    lemma_sum_drop_first(c0@);
                    lemma_sum_push(c0@.drop_first(), v as int);
                    lemma_products_drop_first(c0@, c0@);
                    lemma_products_push(c0@.drop_first(), c0@.drop_first(), v as int, v as int);
                    lemma_sum_drop_first(products(c0@, c0@));
                    lemma_sum_push(products(c0@.drop_first(), c0@.drop_first()), v * v);
                    lemma_sums_bounds(c0@.drop_first(), reading_max());
                    assert(leaving@[m as int] == c0@[0]);
                } else {
                    assert(c1 =~= c0@.push(v as int));
                    lemma_sum_push(c0@, v as int);
                    lemma_products_push(c0@, c0@, v as int, v as int);
                    lemma_sum_push(products(c0@, c0@), v * v);
                }
            }
            let s: u64 = self.sums[m];
            let q: u128 = self.sq_sums[m];
            if full {
                let out: u32 = leaving[m];
                sums.push(s - out as u64 + v as u64);
                sq_sums.push(q - (out as u128) * (out as u128) + (v as u128) * (v as u128));
            } else {
                sums.push(s + v as u64);
                sq_sums.push(q + (v as u128) * (v as u128));
            }
            m = m + 1;
        }
        self.sums = sums;
        self.sq_sums = sq_sums;
    }
}

} // verus!

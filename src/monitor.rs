use vstd::prelude::*;

use crate::baseline::{
    column_sq_sums, column_sums, rolled, BaselineModel, BaselineState, Sample, MAX_WINDOW,
};
use crate::detector::{events_ok, AnomalyEvent, Detector};

verus! {

/// One monitoring pipeline: a baseline and a detector fed the same samples. Each sample is
/// checked against the baseline as it stood before the sample, and only then added to it.
pub struct Monitor {
    baseline: BaselineModel,
    detector: Detector,
}

impl Monitor {
    pub closed spec fn wf(&self) -> bool {
        self.baseline.wf() && self.detector.wf()
    }

    /// The samples in the baseline's window, oldest first.
    pub closed spec fn recent(&self) -> Seq<Seq<u32>> {
        self.baseline.recent()
    }

    pub closed spec fn window(&self) -> nat {
        self.baseline.window()
    }

    pub closed spec fn metric_count(&self) -> nat {
        self.baseline.metric_count()
    }

    pub closed spec fn threshold(&self) -> nat {
        self.detector.threshold()
    }

    pub fn new(window: usize, metric_count: usize, detector: Detector) -> (r: Self)
        requires
            1 <= window <= MAX_WINDOW,
            detector.wf(),
        ensures
            r.wf(),
            r.window() == window,
            r.metric_count() == metric_count,
            r.threshold() == detector.threshold(),
            r.recent() == Seq::<Seq<u32>>::empty(),
    {
        Monitor { baseline: BaselineModel::new(window, metric_count), detector }
    }

    /// A snapshot of the baseline.
    pub fn baseline(&self) -> (st: BaselineState)
        requires
            self.wf(),
        ensures
            st.wf(),
            st.window == self.window(),
            st.count == self.recent().len(),
            st.sum_seq() == column_sums(self.recent(), self.metric_count()),
            st.sq_sum_seq() == column_sq_sums(self.recent(), self.metric_count()),
    {
        self.baseline.current()
    }

    /// Evaluates `sample` against the baseline, then adds it to the baseline. Returns the events
    /// raised; none while the window is still filling.
    pub fn observe(&mut self, sample: &Sample) -> (r: Vec<AnomalyEvent>)
        requires
            old(self).wf(),
            sample.values@.len() == old(self).metric_count(),
        ensures
            final(self).wf(),
            final(self).window() == old(self).window(),
            final(self).metric_count() == old(self).metric_count(),
            final(self).threshold() == old(self).threshold(),
            final(self).recent() == rolled(old(self).recent(), old(self).window(), sample.values@),
            events_ok(
                r@,
                sample.values@,
                sample.timestamp,
                old(self).recent().len() >= old(self).window(),
                old(self).recent().len() as int,
                column_sums(old(self).recent(), old(self).metric_count()),
                column_sq_sums(old(self).recent(), old(self).metric_count()),
                old(self).threshold() as int,
            ),
            old(self).recent().len() < old(self).window() ==> r@.len() == 0,
    {
        let st = self.baseline.current();
        assert(st.sum_seq().len() == st.sums@.len());
        let events = self.detector.evaluate(sample, &st);
        self.baseline.update(sample);
        events
    }
}

} // verus!

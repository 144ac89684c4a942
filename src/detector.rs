use vstd::prelude::*;

use crate::baseline::{reading_max, BaselineState, Sample, MAX_WINDOW};
use crate::isqrt::{is_isqrt, isqrt_u128};

verus! {

/// Default threshold: three standard deviations, in thousandths.
pub const DEFAULT_THRESHOLD_MILLI: u32 = 3000;

/// Largest threshold accepted, in thousandths of a standard deviation.
pub const MAX_THRESHOLD_MILLI: u32 = 1_000_000;

/// The z-score reported, in thousandths, when the baseline has no spread but the reading differs
/// from the mean.
pub const Z_CAP_MILLI: i64 = 9_223_372_036_854_775_807;

/// A metric whose reading lies too far from its baseline.
#[derive(Clone, Copy, Debug, PartialEq, Eq)]
pub struct AnomalyEvent {
    /// Position of the metric in the sample.
    pub metric: usize,
    pub value: u32,
    /// The z-score in thousandths, rounded away from zero.
    pub z_milli: i64,
    pub timestamp: u64,
}

/// Flags readings whose z-score exceeds a threshold.
#[derive(Clone, Copy, Debug, PartialEq, Eq)]
pub struct Detector {
    threshold_milli: u32,
}

/// `n * (v - mean)`, for a metric of `n` readings that sum to `s`.
pub open spec fn deviation(n: int, s: int, v: int) -> int {
    n * v - s
}

/// `n^2 * variance`, for `n` readings with sum `s` and sum of squares `q`.
pub open spec fn spread_of(n: int, s: int, q: int) -> int {
    n * q - s * s
}

/// `|z| > t / 1000`, where `z = dev / sqrt(spread)`. With no spread, any deviation counts.
pub open spec fn exceeds(dev: int, spread: int, t: int) -> bool {
    if spread == 0 {
        dev != 0
    } else {
        1_000_000 * dev * dev > t * t * spread
    }
}

/// `k` is `ceil(1000 * |dev| / sqrt(spread))`: the least `k` with `k^2 * spread >= 10^6 * dev^2`.
pub open spec fn z_magnitude_ok(dev: int, spread: int, k: int) -> bool {
    &&& k >= 0
    &&& k * k * spread >= 1_000_000 * dev * dev
    &&& (k == 0 || (k - 1) * (k - 1) * spread < 1_000_000 * dev * dev)
}

/// `z` is the z-score of a deviation in thousandths, rounded away from zero; with no spread, the
/// capped stand-in for infinity wherever the reading differs from the mean.
pub open spec fn z_ok(dev: int, spread: int, z: int) -> bool {
    if spread == 0 {
        z == (if dev != 0 {
            Z_CAP_MILLI as int
        } else {
            0
        })
    } else {
        &&& dev >= 0 ==> z >= 0 && z_magnitude_ok(dev, spread, z)
        &&& dev < 0 ==> z <= 0 && z_magnitude_ok(dev, spread, -z)
    }
}

/// Indices, in order, of the metrics among the first `k` whose reading exceeds the threshold.
pub open spec fn flagged(
    values: Seq<u32>,
    n: int,
    sums: Seq<int>,
    sq_sums: Seq<int>,
    t: int,
    k: int,
) -> Seq<int>
    decreases k,
{
    if k <= 0 {
        Seq::empty()
    } else {
        let prev = flagged(values, n, sums, sq_sums, t, k - 1);
        let m = k - 1;
        if exceeds(deviation(n, sums[m], values[m] as int), spread_of(n, sums[m], sq_sums[m]), t) {
            prev.push(m)
        } else {
            prev
        }
    }
}

/// `events` are what a detector of threshold `t` reports for a sample against statistics of `n`
/// readings per metric: nothing during warm-up, and afterwards one event per metric over the
/// threshold, in metric order.
pub open spec fn events_ok(
    events: Seq<AnomalyEvent>,
    values: Seq<u32>,
    timestamp: u64,
    warm: bool,
    n: int,
    sums: Seq<int>,
    sq_sums: Seq<int>,
    t: int,
) -> bool {
    if !warm {
        events.len() == 0
    } else {
        let idx = flagged(values, n, sums, sq_sums, t, values.len() as int);
        &&& events.len() == idx.len()
        &&& forall|j: int|
            0 <= j < events.len() ==> {
                let m = idx[j];
                &&& (#[trigger] events[j]).metric == m
                &&& events[j].value == values[m]
                &&& events[j].timestamp == timestamp
                &&& z_ok(
                    deviation(n, sums[m], values[m] as int),
                    spread_of(n, sums[m], sq_sums[m]),
                    events[j].z_milli as int,
                )
            }
    }
}

/// With `c = ceil(a / d)`, `j * d >= a` exactly when `j >= c`.
proof fn lemma_ceil_div(a: int, d: int, j: int)
    requires
        a >= 0,
        d > 0,
        j >= 0,
    ensures
        (j * d >= a) == (j >= (a + d - 1) / d),
{
    let c = (a + d - 1) / d;
    let r = (a + d - 1) % d;
    assert(a + d - 1 == c * d + r && 0 <= r < d) by {
        vstd::arithmetic::div_mod::lemma_fundamental_div_mod(a + d - 1, d);
        assert(d * c == c * d) by (nonlinear_arith);
    }
    assert((j * d >= a) == (j >= c)) by (nonlinear_arith)
        requires
            a + d - 1 == c * d + r,
            0 <= r < d,
            d > 0,
    ;
}

/// Laws on the z-score: where the baseline has spread, its sign is that of the reading minus
/// the mean.
pub proof fn lemma_z_sign(n: int, s: int, q: int, v: int, z: int)
    requires
        spread_of(n, s, q) > 0,
        z_ok(deviation(n, s, v), spread_of(n, s, q), z),
    ensures
        (z > 0) == (n * v > s),
        (z < 0) == (n * v < s),
        (z == 0) == (n * v == s),
{
    let d = deviation(n, s, v);
    let sp = spread_of(n, s, q);
    if d != 0 {
        assert(1_000_000 * d * d > 0) by (nonlinear_arith)
            requires
                d != 0,
        ;
        if z == 0 {
            assert(z * z * sp == 0 && -z * -z * sp == 0) by (nonlinear_arith)
                requires
                    z == 0,
            ;
        }
    }
}

/// The magnitude of the deviation, its direction, and the spread, of reading `v` against `n`
/// readings with sum `s` and sum of squares `q`, with the bounds that keep later products in
/// 128 bits.
fn deviation_parts(n: usize, s: u64, q: u128, v: u32) -> (res: (u128, bool, u128))
    requires
        n <= MAX_WINDOW,
        s <= n * reading_max(),
        q <= n * (reading_max() * reading_max()),
        n * q >= s * s,
    ensures
        ({
            let (mag, above, spread) = res;
            let d = deviation(n as int, s as int, v as int);
            &&& above == (d >= 0)
            &&& mag == (if d >= 0 { d } else { -d })
            &&& mag * mag == d * d
            &&& mag * mag < 0x10_0000_0000_0000_0000_0000
            &&& spread == spread_of(n as int, s as int, q as int)
            &&& spread <= 0x10_0000_0000_0000_0000_0000
        }),
{
    let ghost d = deviation(n as int, s as int, v as int);
    proof {
        assert(n * (v as int) <= MAX_WINDOW * reading_max()) by (nonlinear_arith)
            requires
                n <= MAX_WINDOW,
                v <= reading_max(),
        ;
        assert(n * (q as int) <= MAX_WINDOW * (MAX_WINDOW * (reading_max() * reading_max())))
            by (nonlinear_arith)
            requires
                n <= MAX_WINDOW,
                q <= n * (reading_max() * reading_max()),
        ;
    }
    let nv: u128 = (n as u128) * (v as u128);
    let spread: u128 = (n as u128) * q - (s as u128) * (s as u128);
    let above = nv >= s as u128;
    let mag: u128 = if above { nv - s as u128 } else { s as u128 - nv };
    proof {
        assert(mag * mag < 0x10_0000_0000_0000_0000_0000) by (nonlinear_arith)
            requires
                mag < 0x400_0000_0000,
        ;
        assert(mag * mag == d * d) by (nonlinear_arith)
            requires
                mag == d || mag == -d,
        ;
    }
    (mag, above, spread)
}

/// The z-score, in thousandths, of reading `v` against `n` readings with sum `s` and sum of
/// squares `q`.
pub fn z_score_milli(n: usize, s: u64, q: u128, v: u32) -> (z: i64)
    requires
        n <= MAX_WINDOW,
        s <= n * reading_max(),
        q <= n * (reading_max() * reading_max()),
        n * q >= s * s,
    ensures
        z_ok(deviation(n as int, s as int, v as int), spread_of(n as int, s as int, q as int), z as int),
{
    let ghost d = deviation(n as int, s as int, v as int);
    let (mag, above, spread) = deviation_parts(n, s, q, v);
    if spread == 0 {
        return if mag != 0 { Z_CAP_MILLI } else { 0 };
    }
    // least k with k^2 * spread >= a, through c = ceil(a / spread)
    let a: u128 = 1_000_000 * (mag * mag);
    let c: u128 = (a + spread - 1) / spread;
    assert(a < 0x100_0000_0000_0000_0000_0000_0000);
    proof {
        assert(c <= a) by (nonlinear_arith)
            requires
                spread >= 1,
                c == (a + spread - 1) as int / spread as int,
                a >= 0,
        ;
    }
    let r: u128 = isqrt_u128(c);
    assert(r * r <= c);
    assert(r <= 0x10_0000_0000_0000) by (nonlinear_arith)
        requires
            r * r <= c,
            c < 0x100_0000_0000_0000_0000_0000_0000,
            r >= 0,
    ;
    let k: u128 = if r * r == c { r } else { r + 1 };
    proof {
        let ki = k as int;
        assert(ki * ki >= c && (ki == 0 || (ki - 1) * (ki - 1) < c)) by (nonlinear_arith)
            requires
                is_isqrt(c as int, r as int),
                ki == (if r * r == c { r as int } else { r + 1 }),
        ;
        assert(ki * ki >= 0 && (ki - 1) * (ki - 1) >= 0) by (nonlinear_arith);
        lemma_ceil_div(a as int, spread as int, ki * ki);
        assert(ki * ki * spread == (ki * ki) * spread) by (nonlinear_arith);
        if ki > 0 {
            lemma_ceil_div(a as int, spread as int, (ki - 1) * (ki - 1));
            assert((ki - 1) * (ki - 1) * spread == ((ki - 1) * (ki - 1)) * spread) by (nonlinear_arith);
        }
        assert(a == 1_000_000 * d * d) by (nonlinear_arith)
            requires
                a == 1_000_000 * (mag * mag),
                mag * mag == d * d,
        ;
        assert(-(ki as int) * -(ki as int) == ki * ki) by (nonlinear_arith);
        assert((-(ki as int) - 1) * (-(ki as int) - 1) == (ki + 1) * (ki + 1)) by (nonlinear_arith);
    }
    if above {
        k as i64
    } else {
        -(k as i64)
    }
}

/// Whether reading `v` lies more than `t` thousandths of a standard deviation from the mean of
/// `n` readings with sum `s` and sum of squares `q`.
pub fn exceeds_threshold(n: usize, s: u64, q: u128, v: u32, t: u32) -> (r: bool)
    requires
        n <= MAX_WINDOW,
        s <= n * reading_max(),
        q <= n * (reading_max() * reading_max()),
        n * q >= s * s,
        t <= MAX_THRESHOLD_MILLI,
    ensures
        r == exceeds(deviation(n as int, s as int, v as int), spread_of(n as int, s as int, q as int), t as int),
{
    let (mag, above, spread) = deviation_parts(n, s, q, v);
    if spread == 0 {
        return mag != 0;
    }
    proof {
        assert((t as int) * (t as int) <= 1_000_000 * 1_000_000) by (nonlinear_arith)
            requires
                t <= 1_000_000,
        ;
        assert((t as int) * (t as int) * spread <= 1_000_000 * 1_000_000 * 0x10_0000_0000_0000_0000_0000)
            by (nonlinear_arith)
            requires
                (t as int) * (t as int) <= 1_000_000 * 1_000_000,
                0 < spread <= 0x10_0000_0000_0000_0000_0000,
        ;
        let d = deviation(n as int, s as int, v as int);
        assert(1_000_000 * d * d == 1_000_000 * (mag * mag)) by (nonlinear_arith)
            requires
                mag * mag == d * d,
        ;
    }
    1_000_000 * (mag * mag) > (t as u128) * (t as u128) * spread
}

impl Detector {
    /// Threshold on `|z|`, in thousandths of a standard deviation.
    pub closed spec fn threshold(&self) -> nat {
        self.threshold_milli as nat
    }

    pub closed spec fn wf(&self) -> bool {
        self.threshold_milli <= MAX_THRESHOLD_MILLI
    }

    /// A detector with the given threshold; `None` if it exceeds `MAX_THRESHOLD_MILLI`.
    pub fn new(threshold_milli: u32) -> (r: Option<Detector>)
        ensures
            r is Some <==> threshold_milli <= MAX_THRESHOLD_MILLI,
            r matches Some(d) ==> d.wf() && d.threshold() == threshold_milli,
    {
        if threshold_milli <= MAX_THRESHOLD_MILLI {
            Some(Detector { threshold_milli })
        } else {
            None
        }
    }

    pub fn threshold_milli(&self) -> (r: u32)
        ensures
            r == self.threshold(),
    {
        self.threshold_milli
    }

    /// Compares each metric of `sample` with its baseline. During warm-up nothing is reported;
    /// afterwards each metric whose `|z|` exceeds the threshold gives one event.
    pub fn evaluate(&self, sample: &Sample, state: &BaselineState) -> (r: Vec<AnomalyEvent>)
        requires
            self.wf(),
            state.wf(),
            sample.values@.len() == state.sums@.len(),
        ensures
            events_ok(
                r@,
                sample.values@,
                sample.timestamp,
                state.is_warm(),
                state.count as int,
                state.sum_seq(),
                state.sq_sum_seq(),
                self.threshold() as int,
            ),
            !state.is_warm() ==> r@.len() == 0,
    {
        let mut out: Vec<AnomalyEvent> = Vec::new();
        if state.count < state.window {
            return out;
        }
        let ghost sums = state.sum_seq();
        let ghost sqs = state.sq_sum_seq();
        let ghost n = state.count as int;
        let ghost t = self.threshold() as int;
        let ghost values = sample.values@;
        let mut m: usize = 0;
        while m < sample.values.len()
            invariant
                self.wf(),
                state.wf(),
                sums == state.sum_seq(),
                sqs == state.sq_sum_seq(),
                n == state.count,
                t == self.threshold(),
                values == sample.values@,
                values.len() == state.sums@.len(),
                m <= values.len(),
                out@.len() == flagged(values, n, sums, sqs, t, m as int).len(),
                forall|j: int|
                    0 <= j < out@.len() ==> {
                        let k = flagged(values, n, sums, sqs, t, m as int)[j];
                        &&& (#[trigger] out@[j]).metric == k
                        &&& out@[j].value == values[k]
                        &&& out@[j].timestamp == sample.timestamp
                        &&& z_ok(
                            deviation(n, sums[k], values[k] as int),
                            spread_of(n, sums[k], sqs[k]),
                            out@[j].z_milli as int,
                        )
                    },
            decreases values.len() - m,
        {
            let v: u32 = sample.values[m];
            let s: u64 = state.sums[m];
            let q: u128 = state.sq_sums[m];
            assert(s <= state.count * reading_max());
            if exceeds_threshold(state.count, s, q, v, self.threshold_milli) {
                let z = z_score_milli(state.count, s, q, v);
                out.push(AnomalyEvent { metric: m, value: v, z_milli: z, timestamp: sample.timestamp });
            }
            m = m + 1;
        }
        out
    }
}

impl Default for Detector {
    /// A detector with the default threshold of three standard deviations.
    fn default() -> (r: Detector)
        ensures
            r.wf(),
            r.threshold() == DEFAULT_THRESHOLD_MILLI,
    {
        Detector { threshold_milli: DEFAULT_THRESHOLD_MILLI }
    }
}

} // verus!

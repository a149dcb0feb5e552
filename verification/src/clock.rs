//! Mapping of device timestamps onto the monotonic host clock.

use vstd::prelude::*;

verus! {

/// One calibration point: the same instant on both clocks.
#[derive(Clone, Copy, Debug, Default, PartialEq, Eq, Structural)]
pub struct ClockPair {
    pub cupti_ns: u64,
    pub monotonic_ns: u64,
    pub uncertainty_ns: u64,
}

/// The affine map through a calibration point at the start and one at the end
/// of a capture.
#[derive(Clone, Copy, Debug, PartialEq, Eq, Structural)]
pub struct ClockMap {
    pub start: ClockPair,
    pub end: ClockPair,
}

/// The timestamp cannot be mapped: the calibration interval is empty on one of
/// the clocks, or the timestamp lies outside it.
#[derive(Clone, Copy, Debug, PartialEq, Eq, Structural)]
pub struct OutsideCalibration;

impl ClockPair {
    /// How far the monotonic clock is ahead.
    pub fn offset_ns(self) -> (offset: i128)
        ensures
            offset == self.monotonic_ns - self.cupti_ns,
    {
        self.monotonic_ns as i128 - self.cupti_ns as i128
    }
}

impl ClockMap {
    /// Whether time advances on both clocks between the calibration points.
    pub open spec fn calibrated(self) -> bool {
        self.start.cupti_ns < self.end.cupti_ns && self.start.monotonic_ns < self.end.monotonic_ns
    }

    /// Whether the map is defined at the timestamp.
    pub open spec fn spans(self, timestamp_ns: u64) -> bool {
        self.calibrated() && self.start.cupti_ns <= timestamp_ns <= self.end.cupti_ns
    }

    /// The timestamp on the monotonic clock, rounded down.
    pub open spec fn mapped(self, timestamp_ns: u64) -> int {
        self.start.monotonic_ns + ((timestamp_ns - self.start.cupti_ns) * (self.end.monotonic_ns
            - self.start.monotonic_ns)) / (self.end.cupti_ns - self.start.cupti_ns)
    }

    /// How far the offset between the clocks moved over the capture.
    pub fn offset_drift_ns(self) -> (drift: i128)
        ensures
            drift == (self.end.monotonic_ns - self.end.cupti_ns) - (self.start.monotonic_ns
                - self.start.cupti_ns),
    {
        self.end.offset_ns() - self.start.offset_ns()
    }

    /// The timestamp on the monotonic clock.
    pub fn normalize(self, timestamp_ns: u64) -> (r: Result<u64, OutsideCalibration>)
        ensures
            r is Ok <==> self.spans(timestamp_ns),
            r matches Ok(mapped) ==> mapped == self.mapped(timestamp_ns),
    {
        if self.start.cupti_ns >= self.end.cupti_ns || self.start.monotonic_ns
            >= self.end.monotonic_ns || timestamp_ns < self.start.cupti_ns || timestamp_ns
            > self.end.cupti_ns {
            return Err(OutsideCalibration);
        }
        let x: u128 = (timestamp_ns - self.start.cupti_ns) as u128;
        let x_span: u128 = (self.end.cupti_ns - self.start.cupti_ns) as u128;
        let y_span: u128 = (self.end.monotonic_ns - self.start.monotonic_ns) as u128;
        proof {
            assert(x * y_span <= 0xffff_ffff_ffff_ffff * 0xffff_ffff_ffff_ffff) by (nonlinear_arith)
                requires
                    0 <= x <= 0xffff_ffff_ffff_ffff,
                    0 <= y_span <= 0xffff_ffff_ffff_ffff,
            ;
            mapped_is_inside(self, timestamp_ns);
        }
        let scaled: u128 = x * y_span / x_span;
        Ok(self.start.monotonic_ns + scaled as u64)
    }
}

/// A mapped timestamp lies between the calibration points.
pub proof fn mapped_is_inside(clock: ClockMap, timestamp_ns: u64)
    requires
        clock.spans(timestamp_ns),
    ensures
        clock.start.monotonic_ns <= clock.mapped(timestamp_ns) <= clock.end.monotonic_ns,
{
    let x = timestamp_ns - clock.start.cupti_ns;
    let x_span = clock.end.cupti_ns - clock.start.cupti_ns;
    let y_span = clock.end.monotonic_ns - clock.start.monotonic_ns;
    assert(0 <= (x * y_span) / x_span <= y_span) by (nonlinear_arith)
        requires
            0 <= x <= x_span,
            0 < x_span,
            0 < y_span,
    ;
}

/// The map keeps the order of timestamps.
pub proof fn mapping_is_monotone(clock: ClockMap, earlier: u64, later: u64)
    requires
        clock.spans(earlier),
        clock.spans(later),
        earlier <= later,
    ensures
        clock.mapped(earlier) <= clock.mapped(later),
{
    let a = earlier - clock.start.cupti_ns;
    let b = later - clock.start.cupti_ns;
    let x_span = clock.end.cupti_ns - clock.start.cupti_ns;
    let y_span = clock.end.monotonic_ns - clock.start.monotonic_ns;
    assert(a * y_span <= b * y_span) by (nonlinear_arith)
        requires
            a <= b,
            0 < y_span,
    ;
    vstd::arithmetic::div_mod::lemma_div_is_ordered(a * y_span, b * y_span, x_span);
}

/// The map interpolates: the mapped timestamp is the last nanosecond that does
/// not lie behind the straight line through the calibration points.
pub proof fn mapping_interpolates(clock: ClockMap, timestamp_ns: u64)
    requires
        clock.spans(timestamp_ns),
    ensures
        ({
            let run = clock.end.cupti_ns - clock.start.cupti_ns;
            let rise = clock.end.monotonic_ns - clock.start.monotonic_ns;
            let done = clock.mapped(timestamp_ns) - clock.start.monotonic_ns;
            done * run <= (timestamp_ns - clock.start.cupti_ns) * rise < (done + 1) * run
        }),
        clock.end.cupti_ns - clock.start.cupti_ns == clock.end.monotonic_ns
            - clock.start.monotonic_ns ==> clock.mapped(timestamp_ns) - timestamp_ns
            == clock.start.monotonic_ns - clock.start.cupti_ns,
{
    let x = timestamp_ns - clock.start.cupti_ns;
    let run = clock.end.cupti_ns - clock.start.cupti_ns;
    let rise = clock.end.monotonic_ns - clock.start.monotonic_ns;
    let n = x * rise;
    vstd::arithmetic::div_mod::lemma_fundamental_div_mod(n, run);
    let done = n / run;
    assert(0 <= n % run < run) by (nonlinear_arith)
        requires
            run > 0,
    ;
    assert(run * done == done * run) by (nonlinear_arith);
    assert((done + 1) * run == done * run + run) by (nonlinear_arith);
    if run == rise {
        vstd::arithmetic::div_mod::lemma_div_multiples_vanish(x, run);
        assert(x * run == run * x) by (nonlinear_arith);
    }
}

/// The calibration points map onto each other.
pub proof fn calibration_points_map_exactly(clock: ClockMap)
    requires
        clock.calibrated(),
    ensures
        clock.mapped(clock.start.cupti_ns) == clock.start.monotonic_ns,
        clock.mapped(clock.end.cupti_ns) == clock.end.monotonic_ns,
{
    let x_span = clock.end.cupti_ns - clock.start.cupti_ns;
    let y_span = clock.end.monotonic_ns - clock.start.monotonic_ns;
    assert((0 * y_span) / x_span == 0) by (nonlinear_arith)
        requires
            0 < x_span,
    ;
    assert((x_span * y_span) / x_span == y_span) by (nonlinear_arith)
        requires
            0 < x_span,
    ;
}

/// The signed distance from `right` to `left`.
pub fn signed_delta(left: u64, right: u64) -> (delta: i128)
    ensures
        delta == left - right,
{
    left as i128 - right as i128
}

} // verus!

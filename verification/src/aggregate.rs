//! Summing a record up: the mean of a series of readings, held exactly, the first and the
//! last time of day, and the points of the chart.

use vstd::arithmetic::div_mod::lemma_fundamental_div_mod_converse;
use vstd::prelude::*;

use crate::decimal::{
    decimal_text, lemma_pow10_gap, lemma_pow10_grows, pow10, power_of_ten, raise, readings,
    write_decimal, Decimal, Reading,
};
use crate::chars::texts;
use crate::metric::{Metric, TimeOfDay};
use crate::probe::Label;

verus! {

/// Why a series has no mean.
#[derive(Clone, Copy, Debug, PartialEq, Eq, Structural)]
pub enum AverageError {
    /// The series is empty.
    NoData,
    /// The sum of the series is too large to be held.
    Overflow,
}

/// The largest scale among the readings; 0 for none.
pub open spec fn max_scale(rs: Seq<Reading>) -> nat
    decreases rs.len(),
{
    if rs.len() == 0 {
        0
    } else if rs.last().scale > max_scale(rs.drop_last()) {
        rs.last().scale
    } else {
        max_scale(rs.drop_last())
    }
}

/// The digits of `r` when it is written with `scale` digits behind the point.
pub open spec fn raised(r: Reading, scale: nat) -> nat {
    r.magnitude * pow10((scale - r.scale) as nat)
}

/// The sum of the readings that are not negative, each written with `scale` digits
/// behind the point.
pub open spec fn gains(rs: Seq<Reading>, scale: nat) -> nat
    decreases rs.len(),
{
    if rs.len() == 0 {
        0
    } else if rs.last().negative {
        gains(rs.drop_last(), scale)
    } else {
        gains(rs.drop_last(), scale) + raised(rs.last(), scale)
    }
}

/// The sum of the negative readings without their signs, each written with `scale`
/// digits behind the point.
pub open spec fn losses(rs: Seq<Reading>, scale: nat) -> nat
    decreases rs.len(),
{
    if rs.len() == 0 {
        0
    } else if rs.last().negative {
        losses(rs.drop_last(), scale) + raised(rs.last(), scale)
    } else {
        losses(rs.drop_last(), scale)
    }
}

/// A mean as mathematics sees it: the number `total / (count * 10^scale)`, negated where
/// `negative` holds. Nothing is divided, so nothing is lost.
pub ghost struct Fraction {
    pub negative: bool,
    pub total: nat,
    pub count: nat,
    pub scale: nat,
}

impl Fraction {
    /// The digits of the mean when it is written with `extra` digits behind its scale,
    /// rounded to the nearest, a half away from zero.
    pub open spec fn nearest(self, extra: nat) -> nat {
        (2 * (self.total * pow10(extra)) + self.count) / (2 * self.count)
    }

    /// Whether the mean can be rounded with `extra` digits behind its scale and held.
    pub open spec fn can_round(self, extra: nat) -> bool {
        &&& self.count > 0
        &&& self.total * pow10(extra) <= u128::MAX
        &&& self.scale + extra <= usize::MAX
    }

    /// The mean rounded to `extra` digits behind its scale, a half away from zero. A mean
    /// that rounds to zero has no sign.
    pub open spec fn rounded(self, extra: nat) -> Reading {
        Reading {
            negative: self.negative && self.nearest(extra) > 0,
            magnitude: self.nearest(extra),
            scale: self.scale + extra,
        }
    }
}

/// The mean of a series, held exactly: the number `total / (count * 10^scale)`, negated
/// where `negative` holds.
#[derive(Clone, Copy, Debug, PartialEq, Eq)]
pub struct Mean {
    pub negative: bool,
    pub total: u128,
    pub count: usize,
    pub scale: usize,
}

impl View for Mean {
    type V = Fraction;

    open spec fn view(&self) -> Fraction {
        Fraction {
            negative: self.negative,
            total: self.total as nat,
            count: self.count as nat,
            scale: self.scale as nat,
        }
    }
}

/// The sum of a series without its sign, written with the largest scale of the series:
/// the distance between the sum of the readings that are not negative and the sum of
/// those that are.
pub open spec fn balance(rs: Seq<Reading>) -> nat {
    let up = gains(rs, max_scale(rs));
    let down = losses(rs, max_scale(rs));
    if down > up {
        (down - up) as nat
    } else {
        (up - down) as nat
    }
}

/// The mean of a series: the sum divided by the count. The sum is written with the
/// largest scale of the series; it is negative where the negative readings outweigh the
/// others.
pub open spec fn mean_of(rs: Seq<Reading>) -> Fraction {
    Fraction {
        negative: losses(rs, max_scale(rs)) > gains(rs, max_scale(rs)),
        total: balance(rs),
        count: rs.len(),
        scale: max_scale(rs),
    }
}

/// How many digits behind the scale of a mean the report shows.
pub const REPORT_DIGITS: usize = 3;

/// The mean of a series, or why it has none.
pub open spec fn average_of(rs: Seq<Reading>) -> Result<Fraction, AverageError> {
    if rs.len() == 0 {
        Err(AverageError::NoData)
    } else if gains(rs, max_scale(rs)) > u128::MAX || losses(rs, max_scale(rs)) > u128::MAX {
        Err(AverageError::Overflow)
    } else {
        Ok(mean_of(rs))
    }
}

/// The reading rounded to a whole number, a half rounded away from zero.
pub open spec fn round_of(r: Reading) -> Reading {
    Reading {
        negative: r.negative,
        magnitude: (2 * r.magnitude + pow10(r.scale)) / (2 * pow10(r.scale)),
        scale: 0,
    }
}

/// The time of day rounded to whole hours, a half hour rounded up.
pub open spec fn round_hours(t: TimeOfDay) -> nat {
    (t.minutes() + 30) / 60
}

/// No reading of a series has a larger scale than the largest.
pub proof fn lemma_max_scale(rs: Seq<Reading>, i: int)
    requires
        0 <= i < rs.len(),
    ensures
        rs[i].scale <= max_scale(rs),
    decreases rs.len(),
{
    if i < rs.len() - 1 {
        lemma_max_scale(rs.drop_last(), i);
    }
}

/// The sums over the first `k` readings are no larger than the sums over all.
pub proof fn lemma_sums_grow(rs: Seq<Reading>, scale: nat, k: int)
    requires
        0 <= k <= rs.len(),
    ensures
        gains(rs.take(k), scale) <= gains(rs, scale),
        losses(rs.take(k), scale) <= losses(rs, scale),
    decreases rs.len() - k,
{
    if k < rs.len() {
        lemma_sums_grow(rs, scale, k + 1);
        assert(rs.take(k + 1).drop_last() =~= rs.take(k));
    } else {
        assert(rs.take(k) =~= rs);
    }
}

/// Rounding by quotient and remainder: the quotient, and one more where twice the
/// remainder reaches the divisor.
pub proof fn lemma_round_split(m: nat, p: nat, q: nat, rem: nat)
    requires
        p > 0,
        rem < p,
        m == q * p + rem,
    ensures
        (2 * m + p) / (2 * p) == if 2 * rem >= p {
            q + 1
        } else {
            q
        },
{
    let d = (2 * p) as int;
    if 2 * rem >= p {
        let r = (2 * rem - p) as int;
        assert((2 * m + p) as int == (q + 1) * d + r) by (nonlinear_arith)
            requires
                m == q * p + rem,
                d == 2 * p,
                r == 2 * rem - p,
        ;
        lemma_fundamental_div_mod_converse((2 * m + p) as int, d, (q + 1) as int, r);
    } else {
        let r = (2 * rem + p) as int;
        assert((2 * m + p) as int == q * d + r) by (nonlinear_arith)
            requires
                m == q * p + rem,
                d == 2 * p,
                r == 2 * rem + p,
        ;
        lemma_fundamental_div_mod_converse((2 * m + p) as int, d, q as int, r);
    }
}

/// Finds the largest scale among the values.
pub fn finest_scale(values: &Vec<Decimal>) -> (scale: usize)
    ensures
        scale == max_scale(readings(values@)),
{
    let ghost rs = readings(values@);
    let mut scale: usize = 0;
    let mut i: usize = 0;
    assert(rs.take(0) =~= Seq::<Reading>::empty());
    while i < values.len()
        invariant
            i <= values.len(),
            rs == readings(values@),
            scale == max_scale(rs.take(i as int)),
        decreases values.len() - i,
    {
        assert(rs.take(i + 1).drop_last() =~= rs.take(i as int));
        assert(rs.take(i + 1).last() == values@[i as int]@);
        if values[i].scale > scale {
            scale = values[i].scale;
        }
        i = i + 1;
    }
    assert(rs.take(i as int) =~= rs);
    scale
}

/// Computes the mean of a series of readings: the sum divided by the count, held as the
/// sum and the count, so that it is exact. An empty series has no mean, nor has one whose
/// sum cannot be held.
pub fn calculate_average(values: &Vec<Decimal>) -> (r: Result<Mean, AverageError>)
    ensures
        match r {
            Ok(mean) => average_of(readings(values@)) == Ok::<Fraction, AverageError>(mean@),
            Err(e) => average_of(readings(values@)) == Err::<Fraction, AverageError>(e),
        },
{
    if values.len() == 0 {
        return Err(AverageError::NoData);
    }
    let ghost rs = readings(values@);
    let scale = finest_scale(values);
    let mut up: u128 = 0;
    let mut down: u128 = 0;
    let mut i: usize = 0;
    assert(rs.take(0) =~= Seq::<Reading>::empty());
    while i < values.len()
        invariant
            i <= values.len(),
            rs == readings(values@),
            scale == max_scale(rs),
            up == gains(rs.take(i as int), scale as nat),
            down == losses(rs.take(i as int), scale as nat),
        decreases values.len() - i,
    {
        let v = values[i];
        proof {
            assert(rs.take(i + 1).drop_last() =~= rs.take(i as int));
            assert(rs.take(i + 1).last() == v@);
            lemma_max_scale(rs, i as int);
            lemma_sums_grow(rs, scale as nat, i + 1);
        }
        match raise(v.magnitude, scale - v.scale) {
            None => {
                return Err(AverageError::Overflow);
            },
            Some(x) => {
                if v.negative {
                    if down > u128::MAX - x {
                        return Err(AverageError::Overflow);
                    }
                    down = down + x;
                } else {
                    if up > u128::MAX - x {
                        return Err(AverageError::Overflow);
                    }
                    up = up + x;
                }
            },
        }
        i = i + 1;
    }
    assert(rs.take(i as int) =~= rs);
    let diff = if down > up {
        down - up
    } else {
        up - down
    };
    Ok(Mean { negative: down > up, total: diff, count: values.len(), scale })
}

impl Mean {
    /// Rounds the mean to `extra` digits behind its scale, a half away from zero. `None`
    /// where the count is 0 or the rounded mean cannot be held.
    pub fn rounded(&self, extra: usize) -> (r: Option<Decimal>)
        ensures
            r is Some == self@.can_round(extra as nat),
            r is Some ==> r->0@ == self@.rounded(extra as nat),
    {
        if self.count == 0 || extra > usize::MAX - self.scale {
            return None;
        }
        match raise(self.total, extra) {
            None => None,
            Some(t) => {
                let c = self.count as u128;
                let q = t / c;
                let rem = t % c;
                proof {
                    assert(t == q * c + rem) by (nonlinear_arith)
                        requires
                            c > 0,
                            q == t / c,
                            rem == t % c,
                    ;
                    lemma_round_split(t as nat, c as nat, q as nat, rem as nat);
                    assert(q * c <= t) by (nonlinear_arith)
                        requires
                            t == q * c + rem,
                    ;
                }
                let magnitude = if rem >= c - rem {
                    assert(c >= 2);
                    assert(q < u128::MAX) by (nonlinear_arith)
                        requires
                            q * c <= t,
                            t <= u128::MAX,
                            c >= 2,
                            q >= 0,
                    ;
                    q + 1
                } else {
                    q
                };
                Some(
                    Decimal {
                        negative: self.negative && magnitude > 0,
                        magnitude,
                        scale: self.scale + extra,
                    },
                )
            },
        }
    }
}

/// The first and the last time of day of a record, in the order of the log; `None` for
/// a record without times.
pub fn time_range(metric: &Metric) -> (r: Option<(TimeOfDay, TimeOfDay)>)
    ensures
        metric@.time.len() == 0 ==> r is None,
        metric@.time.len() > 0 ==> r == Some((metric@.time.first(), metric@.time.last())),
{
    if metric.time.len() == 0 {
        None
    } else {
        Some((metric.time[0], metric.time[metric.time.len() - 1]))
    }
}

/// What is shown of a record: the mean of each measurement, or why it has none, and the
/// first and last time of day where the record holds times.
#[derive(Clone, Copy, Debug, PartialEq, Eq)]
pub struct Summary {
    pub latency: Result<Mean, AverageError>,
    pub download: Result<Mean, AverageError>,
    pub upload: Result<Mean, AverageError>,
    pub span: Option<(TimeOfDay, TimeOfDay)>,
}

/// Whether `r` is the mean of `rs`, or the reason why `rs` has none.
pub open spec fn is_average(r: Result<Mean, AverageError>, rs: Seq<Reading>) -> bool {
    match r {
        Ok(mean) => average_of(rs) == Ok::<Fraction, AverageError>(mean@),
        Err(e) => average_of(rs) == Err::<Fraction, AverageError>(e),
    }
}

/// Sums a record up.
pub fn average_metrics(metric: &Metric) -> (s: Summary)
    ensures
        is_average(s.latency, metric@.latency),
        is_average(s.download, metric@.download),
        is_average(s.upload, metric@.upload),
        metric@.time.len() == 0 ==> s.span is None,
        metric@.time.len() > 0 ==> s.span == Some((metric@.time.first(), metric@.time.last())),
{
    Summary {
        latency: calculate_average(&metric.latency),
        download: calculate_average(&metric.download),
        upload: calculate_average(&metric.upload),
        span: time_range(metric),
    }
}

/// Rounds a reading to a whole number, a half away from zero.
pub fn round(d: Decimal) -> (r: Decimal)
    ensures
        r@ == round_of(d@),
{
    let ghost p = pow10(d.scale as nat);
    let ghost m = d.magnitude as nat;
    proof {
        lemma_pow10_grows(0, d.scale as nat);
    }
    let magnitude: u128 = match power_of_ten(d.scale) {
        Some(ten) => {
            let q = d.magnitude / ten;
            let rem = d.magnitude % ten;
            proof {
                assert(m == q * p + rem) by (nonlinear_arith)
                    requires
                        p > 0,
                        q == m / p,
                        rem == m % p,
                ;
                lemma_round_split(m, p, q as nat, rem as nat);
                assert(q * p <= m) by (nonlinear_arith)
                    requires
                        m == q * p + rem,
                ;
            }
            if rem >= ten - rem {
                assert(p >= 2);
                assert(q < u128::MAX) by (nonlinear_arith)
                    requires
                        q * p <= m,
                        m <= u128::MAX,
                        p >= 2,
                        q >= 0,
                ;
                q + 1
            } else {
                q
            }
        },
        None => {
            proof {
                lemma_pow10_gap(d.scale as nat);
                lemma_fundamental_div_mod_converse(
                    (2 * m + p) as int,
                    (2 * p) as int,
                    0,
                    (2 * m + p) as int,
                );
            }
            0
        },
    };
    Decimal { negative: d.negative, magnitude, scale: 0 }
}

/// One point of the chart: whole hours against a whole rate.
#[derive(Clone, Copy, Debug, PartialEq, Eq)]
pub struct Point {
    pub hour: u32,
    pub rate: Decimal,
}

/// Rounds a time of day to whole hours, a half hour up.
pub fn round_time(t: TimeOfDay) -> (h: u32)
    ensures
        h == round_hours(t),
{
    (t.total_minutes() + 30) / 60
}

/// Computes the points of the chart of download rate against time: the time and the
/// download reading at the same place of the record make one point, both rounded to
/// whole numbers; the longer of the two series is cut to the length of the shorter.
pub fn create_graphic_metric(metric: &Metric) -> (points: Vec<Point>)
    ensures
        points.len() == if metric@.time.len() <= metric@.download.len() {
            metric@.time.len()
        } else {
            metric@.download.len()
        },
        forall|i: int|
            0 <= i < points.len() ==> {
                &&& (#[trigger] points[i]).hour == round_hours(metric@.time[i])
                &&& points[i].rate@ == round_of(metric@.download[i])
            },
{
    let n = if metric.time.len() <= metric.download.len() {
        metric.time.len()
    } else {
        metric.download.len()
    };
    let mut points: Vec<Point> = Vec::new();
    let mut i: usize = 0;
    while i < n
        invariant
            i <= n,
            n <= metric.time.len(),
            n <= metric.download.len(),
            points.len() == i,
            forall|j: int|
                0 <= j < i ==> {
                    &&& (#[trigger] points[j]).hour == round_hours(metric@.time[j])
                    &&& points[j].rate@ == round_of(metric@.download[j])
                },
        decreases n - i,
    {
        let point = Point { hour: round_time(metric.time[i]), rate: round(metric.download[i]) };
        points.push(point);
        i = i + 1;
    }
    points
}

/// A mean as the report shows it: rounded to three digits behind its scale, or the words
/// `out of range` where it cannot be rounded so and held.
pub open spec fn mean_text(mean: Fraction) -> Seq<char> {
    if mean.can_round(REPORT_DIGITS as nat) {
        decimal_text(mean.rounded(REPORT_DIGITS as nat))
    } else {
        "out of range"@
    }
}

/// The line that shows the mean of a measurement: the word of the measurement, then
/// ` average: `, then the mean as the report shows it, or why there is none.
pub open spec fn average_text(label: Label, r: Result<Mean, AverageError>) -> Seq<char> {
    label.text() + " average: "@ + match r {
        Ok(mean) => mean_text(mean@),
        Err(AverageError::NoData) => "no data"@,
        Err(AverageError::Overflow) => "out of range"@,
    }
}

/// The lines that show a summary: the three means, and then, where the record holds times,
/// the first and the last of them.
pub open spec fn report_text(s: Summary) -> Seq<Seq<char>> {
    seq![
        average_text(Label::Latency, s.latency),
        average_text(Label::Download, s.download),
        average_text(Label::Upload, s.upload),
    ] + match s.span {
        Some((start, end)) => seq!["Time start "@ + start.text(), "Time end "@ + end.text()],
        None => Seq::empty(),
    }
}

/// Writes the line that shows the mean of a measurement.
pub fn write_average(label: Label, r: &Result<Mean, AverageError>) -> (line: String)
    ensures
        line@ == average_text(label, *r),
{
    let mut line = String::from_str(label.name());
    line.append(" average: ");
    match r {
        Ok(mean) => {
            match mean.rounded(REPORT_DIGITS) {
                Some(shown) => {
                    let text = write_decimal(&shown);
                    line.append(text.as_str());
                },
                None => {
                    line.append("out of range");
                },
            }
        },
        Err(AverageError::NoData) => {
            line.append("no data");
        },
        Err(AverageError::Overflow) => {
            line.append("out of range");
        },
    }
    line
}

/// Writes the lines that show a summary.
pub fn report(summary: &Summary) -> (lines: Vec<String>)
    ensures
        texts(lines@) == report_text(*summary),
{
    let mut lines: Vec<String> = Vec::new();
    lines.push(write_average(Label::Latency, &summary.latency));
    lines.push(write_average(Label::Download, &summary.download));
    lines.push(write_average(Label::Upload, &summary.upload));
    match summary.span {
        Some((start, end)) => {
            let mut first = String::from_str("Time start ");
            start.write(&mut first);
            lines.push(first);
            let mut last = String::from_str("Time end ");
            end.write(&mut last);
            lines.push(last);
            assert(texts(lines@) =~= report_text(*summary));
        },
        None => {
            assert(texts(lines@) =~= report_text(*summary));
        },
    }
    lines
}

} // verus!

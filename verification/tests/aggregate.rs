use speed_probe::aggregate::{
    average_metrics, calculate_average, create_graphic_metric, round, round_time, time_range,
    AverageError, Mean, Point,
};
use speed_probe::decimal::{raise, Decimal};
use speed_probe::log::get_infomation_file;
use speed_probe::metric::{Metric, TimeOfDay};

fn dec(magnitude: u128, scale: usize) -> Decimal {
    Decimal { negative: false, magnitude, scale }
}

fn neg(magnitude: u128, scale: usize) -> Decimal {
    Decimal { negative: true, magnitude, scale }
}

fn as_float(d: &Decimal) -> f64 {
    let value = d.magnitude as f64 / 10f64.powi(d.scale as i32);
    if d.negative {
        -value
    } else {
        value
    }
}

fn at(hour: u8, minute: u8) -> TimeOfDay {
    TimeOfDay { hour, minute }
}

fn mean(negative: bool, total: u128, count: usize, scale: usize) -> Mean {
    Mean { negative, total, count, scale }
}

fn mean_as_float(m: &Mean) -> f64 {
    let value = m.total as f64 / 10f64.powi(m.scale as i32) / m.count as f64;
    if m.negative {
        -value
    } else {
        value
    }
}

fn average(values: &[Decimal]) -> Result<Mean, AverageError> {
    calculate_average(&values.to_vec())
}

#[test]
fn average_of_ten_twenty_thirty_is_twenty() {
    let m = average(&[dec(100, 1), dec(200, 1), dec(300, 1)]).unwrap();
    assert_eq!(m, mean(false, 600, 3, 1));
    assert_eq!(mean_as_float(&m), 20.0);
    assert_eq!(m.rounded(0), Some(dec(200, 1)));
    assert_eq!(as_float(&m.rounded(0).unwrap()), 20.0);
    assert_eq!(as_float(&m.rounded(3).unwrap()), 20.0);
}

#[test]
fn average_of_nothing_is_no_data() {
    assert_eq!(calculate_average(&Vec::new()), Err(AverageError::NoData));
}

#[test]
fn average_of_one_value_is_the_value() {
    let m = average(&[dec(1234, 2)]).unwrap();
    assert_eq!(m, mean(false, 1234, 1, 2));
    assert_eq!(m.rounded(0), Some(dec(1234, 2)));
    assert_eq!(mean_as_float(&m), 12.34);
}

#[test]
fn average_is_held_with_the_finest_scale() {
    let m = average(&[dec(15, 1), dec(225, 2), dec(3, 0)]).unwrap();
    assert_eq!(m, mean(false, 675, 3, 2));
    assert_eq!(m.rounded(0), Some(dec(225, 2)));
    assert_eq!(mean_as_float(&m), 2.25);
}

#[test]
fn average_keeps_what_a_division_would_lose() {
    let m = average(&[dec(1, 1), dec(2, 1)]).unwrap();
    assert_eq!(m, mean(false, 3, 2, 1));
    assert_eq!(m.rounded(1), Some(dec(15, 2)));
    assert_eq!(as_float(&m.rounded(1).unwrap()), 0.15);
    let m = average(&[dec(0, 0), dec(1, 0)]).unwrap();
    assert_eq!(m, mean(false, 1, 2, 0));
    assert_eq!(m.rounded(1), Some(dec(5, 1)));
    assert_eq!(mean_as_float(&m), 0.5);
    let m = average(&[dec(123, 1), dec(124, 1)]).unwrap();
    assert_eq!(m, mean(false, 247, 2, 1));
    assert_eq!(m.rounded(1), Some(dec(1235, 2)));
    assert_eq!(as_float(&m.rounded(1).unwrap()), 12.35);
    let m = average(&[dec(10, 1), dec(11, 1), dec(11, 1)]).unwrap();
    assert_eq!(m, mean(false, 32, 3, 1));
    assert_eq!(m.rounded(3), Some(dec(10667, 4)));
    let m = average(&[neg(10, 1), neg(11, 1), neg(11, 1)]).unwrap();
    assert_eq!(m, mean(true, 32, 3, 1));
    assert_eq!(m.rounded(3), Some(neg(10667, 4)));
}

#[test]
fn a_mean_is_rounded_to_the_nearest() {
    let third = mean(false, 1, 3, 0);
    assert_eq!(third.rounded(0), Some(dec(0, 0)));
    assert_eq!(third.rounded(1), Some(dec(3, 1)));
    assert_eq!(third.rounded(4), Some(dec(3333, 4)));
    let two_thirds = mean(true, 2, 3, 1);
    assert_eq!(two_thirds.rounded(0), Some(neg(1, 1)));
    assert_eq!(two_thirds.rounded(2), Some(neg(67, 3)));
    let half = mean(false, 1, 2, 0);
    assert_eq!(half.rounded(0), Some(dec(1, 0)));
    assert_eq!(mean(false, 3, 2, 0).rounded(0), Some(dec(2, 0)));
    assert_eq!(mean(true, 1, 2, 0).rounded(0), Some(neg(1, 0)));
    assert_eq!(mean(true, 1, 3, 0).rounded(0), Some(dec(0, 0)));
    assert_eq!(mean(true, 0, 3, 2).rounded(1), Some(dec(0, 3)));
}

#[test]
fn a_mean_that_cannot_be_rounded_and_held() {
    assert_eq!(mean(false, 1, 0, 0).rounded(0), None);
    assert_eq!(mean(false, u128::MAX, 1, 0).rounded(0), Some(dec(u128::MAX, 0)));
    assert_eq!(mean(false, u128::MAX, 2, 0).rounded(0), Some(dec(u128::MAX / 2 + 1, 0)));
    assert_eq!(mean(false, u128::MAX, 1, 0).rounded(1), None);
    assert_eq!(mean(false, 1, 1, 0).rounded(38), Some(dec(10u128.pow(38), 38)));
    assert_eq!(mean(false, 1, 1, 0).rounded(39), None);
    assert_eq!(mean(false, 0, 1, usize::MAX).rounded(1), None);
    assert_eq!(mean(false, 0, 1, usize::MAX).rounded(0), Some(dec(0, usize::MAX)));
}

#[test]
fn average_takes_signs_into_account() {
    assert_eq!(average(&[neg(50, 1), dec(150, 1)]), Ok(mean(false, 100, 2, 1)));
    assert_eq!(average(&[neg(150, 1), dec(50, 1)]), Ok(mean(true, 100, 2, 1)));
    assert_eq!(average(&[neg(25, 1), dec(25, 1)]), Ok(mean(false, 0, 2, 1)));
}

#[test]
fn a_sum_that_cannot_be_held_is_an_overflow() {
    assert_eq!(average(&[dec(u128::MAX, 1), dec(1, 1)]), Err(AverageError::Overflow));
    assert_eq!(average(&[neg(u128::MAX, 1), neg(1, 1)]), Err(AverageError::Overflow));
    assert_eq!(average(&[dec(u128::MAX, 0), dec(0, 1)]), Err(AverageError::Overflow));
    assert_eq!(average(&[dec(1, 0), dec(1, 39)]), Err(AverageError::Overflow));
}

#[test]
fn sums_of_both_signs_are_held_apart() {
    assert_eq!(
        average(&[dec(u128::MAX, 1), neg(u128::MAX, 1)]),
        Ok(mean(false, 0, 2, 1))
    );
    assert_eq!(average(&[dec(0, 0), dec(5, 1000)]), Ok(mean(false, 5, 2, 1000)));
}

#[test]
fn raising_multiplies_by_a_power_of_ten() {
    assert_eq!(raise(123, 0), Some(123));
    assert_eq!(raise(123, 3), Some(123000));
    assert_eq!(raise(0, usize::MAX), Some(0));
    assert_eq!(raise(1, 38), Some(100000000000000000000000000000000000000));
    assert_eq!(raise(1, 39), None);
    assert_eq!(raise(4, 38), None);
}

#[test]
fn time_range_is_first_and_last() {
    let mut metric = Metric::new();
    assert_eq!(time_range(&metric), None);
    metric.time.push(at(8, 30));
    assert_eq!(time_range(&metric), Some((at(8, 30), at(8, 30))));
    metric.time.push(at(7, 0));
    metric.time.push(at(9, 0));
    assert_eq!(time_range(&metric), Some((at(8, 30), at(9, 0))));
}

#[test]
fn summary_of_a_log() {
    let metric =
        get_infomation_file("Latency: 12.3 ms\nTime: 08:30\nDownload: 45.6 Mbps\nTime: 09:00\n")
            .unwrap();
    let summary = average_metrics(&metric);
    assert_eq!(summary.latency, Ok(mean(false, 123, 1, 1)));
    assert_eq!(summary.download, Ok(mean(false, 456, 1, 1)));
    assert_eq!(summary.upload, Err(AverageError::NoData));
    let (start, end) = summary.span.unwrap();
    assert_eq!(start.hour as f32 + start.minute as f32 / 60.0, 8.5);
    assert_eq!(end.hour as f32 + end.minute as f32 / 60.0, 9.0);
}

#[test]
fn summary_of_an_empty_record_has_no_data() {
    let summary = average_metrics(&Metric::new());
    assert_eq!(summary.latency, Err(AverageError::NoData));
    assert_eq!(summary.download, Err(AverageError::NoData));
    assert_eq!(summary.upload, Err(AverageError::NoData));
    assert_eq!(summary.span, None);
}

#[test]
fn rounding_goes_to_the_nearest_whole_number() {
    assert_eq!(round(dec(1234, 2)), dec(12, 0));
    assert_eq!(round(dec(1250, 2)), dec(13, 0));
    assert_eq!(round(dec(1249, 2)), dec(12, 0));
    assert_eq!(round(dec(5, 1)), dec(1, 0));
    assert_eq!(round(dec(4, 1)), dec(0, 0));
    assert_eq!(round(neg(25, 1)), neg(3, 0));
    assert_eq!(round(dec(7, 0)), dec(7, 0));
    assert_eq!(round(dec(u128::MAX, 0)), dec(u128::MAX, 0));
    assert_eq!(round(dec(9999, 1)), dec(1000, 0));
}

#[test]
fn rounding_with_more_digits_than_fit() {
    assert_eq!(round(dec(u128::MAX, 38)), dec(3, 0));
    assert_eq!(round(dec(u128::MAX, 39)), dec(0, 0));
    assert_eq!(round(dec(50000000000000000000000000000000000000, 38)), dec(1, 0));
    assert_eq!(round(dec(49999999999999999999999999999999999999, 38)), dec(0, 0));
    assert_eq!(round(dec(u128::MAX, 40)), dec(0, 0));
    assert_eq!(round(dec(u128::MAX, usize::MAX)), dec(0, 0));
}

#[test]
fn times_round_to_whole_hours() {
    assert_eq!(round_time(at(8, 29)), 8);
    assert_eq!(round_time(at(8, 30)), 9);
    assert_eq!(round_time(at(0, 0)), 0);
    assert_eq!(round_time(at(23, 59)), 24);
    assert_eq!(round_time(at(99, 99)), 101);
    for hour in 0..100u8 {
        for minute in 0..100u8 {
            let x = hour as f32 + minute as f32 / 60.0;
            assert_eq!(round_time(at(hour, minute)) as f32, x.round());
        }
    }
}

#[test]
fn chart_points_pair_times_with_downloads() {
    let metric = get_infomation_file(
        "Download: 45.6 Mbps\nTime: 08:30\nDownload: 50.4 Mbps\nTime: 09:10\nDownload: 1.5 Mbps\n",
    )
    .unwrap();
    assert_eq!(
        create_graphic_metric(&metric),
        vec![Point { hour: 9, rate: dec(46, 0) }, Point { hour: 9, rate: dec(50, 0) }]
    );
    let mut short = Metric::new();
    short.time.push(at(1, 0));
    assert!(create_graphic_metric(&short).is_empty());
    short.download.push(dec(995, 1));
    short.time.push(at(2, 0));
    assert_eq!(create_graphic_metric(&short), vec![Point { hour: 1, rate: dec(100, 0) }]);
}

use speed_probe::decimal::Decimal;
use speed_probe::log::{get_infomation_file, ParseError};
use speed_probe::metric::{Metric, TimeOfDay};

fn dec(magnitude: u128, scale: usize) -> Decimal {
    Decimal { negative: false, magnitude, scale }
}

fn neg(magnitude: u128, scale: usize) -> Decimal {
    Decimal { negative: true, magnitude, scale }
}

fn as_float(d: &Decimal) -> f64 {
    let value = d.magnitude as f64 / 10f64.powi(d.scale as i32);
    if d.negative {
        -value
    } else {
        value
    }
}

fn hours(t: &TimeOfDay) -> f32 {
    t.hour as f32 + t.minute as f32 / 60.0
}

fn read(contents: &str) -> Metric {
    get_infomation_file(contents).unwrap()
}

#[test]
fn log_with_two_cycles_is_read_in_order() {
    let metric = read("Latency: 12.3 ms\nTime: 08:30\nDownload: 45.6 Mbps\nTime: 09:00\n");
    assert_eq!(metric.latency, vec![dec(123, 1)]);
    assert_eq!(metric.download, vec![dec(456, 1)]);
    assert!(metric.upload.is_empty());
    assert_eq!(
        metric.time,
        vec![TimeOfDay { hour: 8, minute: 30 }, TimeOfDay { hour: 9, minute: 0 }]
    );
    let latencies: Vec<f64> = metric.latency.iter().map(as_float).collect();
    let downloads: Vec<f64> = metric.download.iter().map(as_float).collect();
    let times: Vec<f32> = metric.time.iter().map(hours).collect();
    assert_eq!(latencies, vec![12.3]);
    assert_eq!(downloads, vec![45.6]);
    assert_eq!(times, vec![8.5, 9.0]);
}

#[test]
fn new_record_is_empty() {
    let metric = Metric::new();
    assert!(metric.latency.is_empty());
    assert!(metric.download.is_empty());
    assert!(metric.upload.is_empty());
    assert!(metric.time.is_empty());
}

#[test]
fn empty_log_gives_an_empty_record() {
    let metric = read("");
    assert!(metric.latency.is_empty() && metric.download.is_empty());
    assert!(metric.upload.is_empty() && metric.time.is_empty());
}

#[test]
fn label_without_decimal_number_adds_nothing() {
    let metric = read("Latency: fast\n");
    assert!(metric.latency.is_empty());
    let metric = read("Latency: 12 ms\nDownload: 100 Mbps\nUpload: 7. Mbps\n");
    assert!(metric.latency.is_empty());
    assert!(metric.download.is_empty());
    assert!(metric.upload.is_empty());
    assert!(metric.time.is_empty());
}

#[test]
fn values_keep_the_order_of_the_lines() {
    let metric =
        read("Upload: 3.5 Mbps\nLatency: 1.0 ms\nUpload: 2.5 Mbps\nLatency: 9.25 ms\nUpload: 0.5 Mbps");
    assert_eq!(metric.upload, vec![dec(35, 1), dec(25, 1), dec(5, 1)]);
    assert_eq!(metric.latency, vec![dec(10, 1), dec(925, 2)]);
}

#[test]
fn all_decimal_numbers_of_a_line_are_taken() {
    let metric = read("Latency: 4.47 ms (0.20 ms jitter, low 4.1, high -5.25)\n");
    assert_eq!(metric.latency, vec![dec(447, 2), dec(20, 2), dec(41, 1), neg(525, 2)]);
}

#[test]
fn numbers_may_lack_digits_before_the_point() {
    let metric = read("Download: .5 and -.75 and 1.2.3\n");
    assert_eq!(metric.download, vec![dec(5, 1), neg(75, 2), dec(12, 1), dec(3, 1)]);
}

#[test]
fn a_minus_sign_counts_only_right_before_the_number() {
    let metric = read("Upload: 1-2.5 - 3.5 --4.5\n");
    assert_eq!(metric.upload, vec![neg(25, 1), dec(35, 1), neg(45, 1)]);
}

#[test]
fn the_first_label_in_rank_takes_the_line() {
    let metric = read("Upload Download Latency 1.5\nUpload Download 2.5\nUpload 3.5\n");
    assert_eq!(metric.latency, vec![dec(15, 1)]);
    assert_eq!(metric.download, vec![dec(25, 1)]);
    assert_eq!(metric.upload, vec![dec(35, 1)]);
}

#[test]
fn a_time_on_a_label_line_is_not_a_time() {
    let metric = read("Latency: 1.5 ms at 08:30\n");
    assert_eq!(metric.latency, vec![dec(15, 1)]);
    assert!(metric.time.is_empty());
}

#[test]
fn time_lines_need_no_prefix() {
    let metric = read("08:30\nTime: 09:15\nstarted at 23:59 sharp\n");
    assert_eq!(
        metric.time,
        vec![
            TimeOfDay { hour: 8, minute: 30 },
            TimeOfDay { hour: 9, minute: 15 },
            TimeOfDay { hour: 23, minute: 59 },
        ]
    );
}

#[test]
fn the_first_time_of_a_line_is_taken() {
    let metric = read("from 10:20 to 11:45\n123:456\n");
    assert_eq!(
        metric.time,
        vec![TimeOfDay { hour: 10, minute: 20 }, TimeOfDay { hour: 23, minute: 45 }]
    );
}

#[test]
fn times_are_not_checked_against_the_clock() {
    let metric = read("Time: 99:99\n");
    assert_eq!(metric.time, vec![TimeOfDay { hour: 99, minute: 99 }]);
}

#[test]
fn other_lines_are_ignored() {
    let metric = read("hello\n1.5\n8:30\nTime: 8:3\n\n\n12.5 Mbps\n");
    assert!(metric.latency.is_empty() && metric.download.is_empty());
    assert!(metric.upload.is_empty() && metric.time.is_empty());
}

#[test]
fn carriage_returns_do_not_matter() {
    let metric = read("Latency: 12.3 ms\r\nTime: 08:30\r\n");
    assert_eq!(metric.latency, vec![dec(123, 1)]);
    assert_eq!(metric.time, vec![TimeOfDay { hour: 8, minute: 30 }]);
}

#[test]
fn a_number_does_not_reach_over_a_line_feed() {
    let metric = read("Latency: 12.\n5 ms\n");
    assert!(metric.latency.is_empty());
}

#[test]
fn the_longest_number_that_can_be_held() {
    let metric = read("Latency: 340282366920938463463374607431768211.455 ms\n");
    assert_eq!(metric.latency, vec![dec(u128::MAX, 3)]);
    let metric = read("Latency: 0.000000000000000000000000000000000000000000000001 ms\n");
    assert_eq!(metric.latency, vec![dec(1, 48)]);
}

#[test]
fn a_number_that_is_too_long_fails_the_reading() {
    let r = get_infomation_file("Latency: 340282366920938463463374607431768211.456 ms\n");
    assert_eq!(r.unwrap_err(), ParseError { line: 0 });
    let r = get_infomation_file(
        "Latency: 1.5 ms\nTime: 08:30\nUpload: 2.5 and 1000000000000000000000000000000000000000.0\nLatency: 99999999999999999999999999999999999999999.9\n",
    );
    assert_eq!(r.unwrap_err(), ParseError { line: 2 });
}

#[test]
fn a_long_number_on_an_ignored_line_does_not_fail() {
    let metric = read("note 1000000000000000000000000000000000000000.0\nLatency: 1.5\n");
    assert_eq!(metric.latency, vec![dec(15, 1)]);
}

#[test]
fn digits_of_other_scripts_are_no_numbers() {
    let metric = read("Latency: \u{661}.\u{662} ms\nDownload: 4\u{665}.6 Mbps\nTime: \u{660}8:30\n");
    assert!(metric.latency.is_empty());
    assert_eq!(metric.download, vec![dec(6, 1)]);
    assert!(metric.time.is_empty());
    let metric = read("\u{4e0a}\u{50b3} Upload \u{901f}\u{5ea6} 7.25\n");
    assert_eq!(metric.upload, vec![dec(725, 2)]);
}

use speed_probe::aggregate::{average_metrics, report, AverageError, Mean, Summary};
use speed_probe::decimal::{
    digit_number, digit_text, power_of_ten, read_digits, write_decimal, write_digits,
    write_last_digits, Decimal,
};
use speed_probe::log::get_infomation_file;
use speed_probe::metric::TimeOfDay;
use speed_probe::probe::{write_line, Label};

fn dec(magnitude: u128, scale: usize) -> Decimal {
    Decimal { negative: false, magnitude, scale }
}

fn neg(magnitude: u128, scale: usize) -> Decimal {
    Decimal { negative: true, magnitude, scale }
}

#[test]
fn decimals_are_written_with_all_their_digits() {
    assert_eq!(write_decimal(&dec(123, 1)), "12.3");
    assert_eq!(write_decimal(&dec(2000, 2)), "20.00");
    assert_eq!(write_decimal(&dec(5, 1)), "0.5");
    assert_eq!(write_decimal(&dec(5, 3)), "0.005");
    assert_eq!(write_decimal(&dec(0, 1)), "0.0");
    assert_eq!(write_decimal(&neg(75, 2)), "-0.75");
    assert_eq!(write_decimal(&neg(0, 1)), "-0.0");
    assert_eq!(write_decimal(&dec(42, 0)), "42");
    assert_eq!(write_decimal(&dec(0, 0)), "0");
    assert_eq!(write_decimal(&neg(7, 0)), "-7");
}

#[test]
fn decimals_at_the_limits_are_written() {
    assert_eq!(
        write_decimal(&dec(u128::MAX, 3)),
        "340282366920938463463374607431768211.455"
    );
    assert_eq!(
        write_decimal(&dec(u128::MAX, 39)),
        "0.340282366920938463463374607431768211455"
    );
    assert_eq!(write_decimal(&dec(1, 45)), "0.000000000000000000000000000000000000000000001");
}

#[test]
fn digits_are_written_and_read() {
    let mut out = String::from("x");
    write_digits(0, &mut out);
    write_digits(907, &mut out);
    assert_eq!(out, "x0907");
    let mut out = String::new();
    write_last_digits(907, 2, &mut out);
    write_last_digits(907, 5, &mut out);
    write_last_digits(907, 0, &mut out);
    assert_eq!(out, "0700907");
    assert_eq!(digit_text(7), "7");
    assert_eq!(digit_number('7'), 7);
    let chars: Vec<char> = "a12.5-7b".chars().collect();
    assert_eq!(read_digits(&chars, 0, chars.len()), Some(1257));
    assert_eq!(read_digits(&chars, 2, 5), Some(25));
    assert_eq!(read_digits(&chars, 3, 3), Some(0));
    assert_eq!(power_of_ten(0), Some(1));
    assert_eq!(power_of_ten(5), Some(100000));
    assert_eq!(power_of_ten(39), None);
}

#[test]
fn a_written_measurement_is_read_back() {
    for value in [dec(123, 1), dec(5, 3), dec(0, 1), dec(u128::MAX, 7), dec(1, 45)] {
        for label in [Label::Latency, Label::Download, Label::Upload] {
            let line = write_line(label, &write_decimal(&value), "ms");
            let metric = get_infomation_file(&line).unwrap();
            let (latency, download, upload) = match label {
                Label::Latency => (vec![value], vec![], vec![]),
                Label::Download => (vec![], vec![value], vec![]),
                Label::Upload => (vec![], vec![], vec![value]),
            };
            assert_eq!(metric.latency, latency);
            assert_eq!(metric.download, download);
            assert_eq!(metric.upload, upload);
            assert!(metric.time.is_empty());
        }
    }
}

#[test]
fn a_whole_number_is_not_read_back() {
    let line = write_line(Label::Latency, &write_decimal(&dec(12, 0)), "ms");
    assert_eq!(line, "Latency: 12 ms");
    assert!(get_infomation_file(&line).unwrap().latency.is_empty());
}

#[test]
fn a_unit_that_spells_a_label_misleads_the_reader() {
    let line = write_line(Label::Upload, "1.5", "Latency");
    let metric = get_infomation_file(&line).unwrap();
    assert!(metric.upload.is_empty());
    assert_eq!(metric.latency, vec![dec(15, 1)]);
}

#[test]
fn times_are_written_with_two_digits() {
    let mut out = String::new();
    TimeOfDay { hour: 8, minute: 5 }.write(&mut out);
    assert_eq!(out, "08:05");
    let mut out = String::from("at ");
    TimeOfDay { hour: 255, minute: 100 }.write(&mut out);
    assert_eq!(out, "at 255:100");
    assert_eq!(TimeOfDay { hour: 8, minute: 30 }.total_minutes(), 510);
}

#[test]
fn report_of_a_log() {
    let metric = get_infomation_file(
        "Latency: 12.3 ms\nTime: 08:30\nDownload: 45.6 Mbps\nLatency: 13.3 ms\nTime: 09:00\n",
    )
    .unwrap();
    assert_eq!(
        report(&average_metrics(&metric)),
        vec![
            "Latency average: 12.8000".to_string(),
            "Download average: 45.6000".to_string(),
            "Upload average: no data".to_string(),
            "Time start 08:30".to_string(),
            "Time end 09:00".to_string(),
        ]
    );
}

#[test]
fn report_without_times_has_three_lines() {
    let summary = Summary {
        latency: Err(AverageError::Overflow),
        download: Ok(Mean { negative: true, total: 5, count: 3, scale: 1 }),
        upload: Err(AverageError::NoData),
        span: None,
    };
    assert_eq!(
        report(&summary),
        vec![
            "Latency average: out of range".to_string(),
            "Download average: -0.1667".to_string(),
            "Upload average: no data".to_string(),
        ]
    );
}

#[test]
fn report_shows_three_more_digits_than_the_log() {
    let metric = get_infomation_file("Upload: 0.1 Mbps\nUpload: 0.2 Mbps\nLatency: 1.0\nLatency: 1.0\nLatency: 2.0\n").unwrap();
    assert_eq!(
        report(&average_metrics(&metric)),
        vec![
            "Latency average: 1.3333".to_string(),
            "Download average: no data".to_string(),
            "Upload average: 0.1500".to_string(),
        ]
    );
}

#[test]
fn report_of_a_mean_too_long_to_show() {
    let summary = Summary {
        latency: Ok(Mean { negative: false, total: u128::MAX, count: 2, scale: 1 }),
        download: Ok(Mean { negative: false, total: 7, count: 0, scale: 1 }),
        upload: Ok(Mean { negative: true, total: 1, count: 4000, scale: 0 }),
        span: None,
    };
    assert_eq!(
        report(&summary),
        vec![
            "Latency average: out of range".to_string(),
            "Download average: out of range".to_string(),
            "Upload average: 0.000".to_string(),
        ]
    );
}

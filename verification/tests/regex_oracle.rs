use regex::Regex;

use speed_probe::decimal::Decimal;
use speed_probe::log::get_infomation_file;
use speed_probe::metric::TimeOfDay;
use speed_probe::probe::get_data_speedtest;

/// All texts made of at most `max` of the given pieces.
fn texts(pieces: &[&str], max: usize) -> Vec<String> {
    let mut all = vec![String::new()];
    let mut last = vec![String::new()];
    for _ in 0..max {
        let mut next = Vec::new();
        for text in &last {
            for piece in pieces {
                next.push(format!("{}{}", text, piece));
            }
        }
        all.extend(next.iter().cloned());
        last = next;
    }
    all
}

fn matched_lines(pattern: &Regex, text: &str) -> Vec<String> {
    let mut lines = Vec::new();
    for cap in pattern.captures_iter(text) {
        lines.push(format!("{}: {} {}", &cap[1], &cap[2], &cap[3]));
    }
    lines
}

fn decimal_of(text: &str) -> Decimal {
    let negative = text.starts_with('-');
    let scale = text.len() - text.find('.').unwrap() - 1;
    let digits: String = text.chars().filter(|c| c.is_ascii_digit()).collect();
    let magnitude = if digits.is_empty() { 0 } else { digits.parse().unwrap() };
    Decimal { negative, magnitude, scale }
}

#[test]
fn probe_scanner_agrees_with_the_pattern() {
    let pattern = Regex::new(
        r"(Latency|Download|Upload):[\t\x0B\x0C\r ]*([0-9]+(?:\.[0-9]+)?)[\t\x0B\x0C\r ]+([0-9A-Za-z_]+)",
    )
    .unwrap();
    let pieces = ["Latency", "Upload", ":", " ", "\n", "1", ".", "m", "-"];
    for text in texts(&pieces, 5) {
        assert_eq!(get_data_speedtest(&text), matched_lines(&pattern, &text), "{:?}", text);
    }
}

#[test]
fn probe_scanner_agrees_with_the_pattern_on_longer_lines() {
    let pattern = Regex::new(
        r"(Latency|Download|Upload):[\t\x0B\x0C\r ]*([0-9]+(?:\.[0-9]+)?)[\t\x0B\x0C\r ]+([0-9A-Za-z_]+)",
    )
    .unwrap();
    let pieces = ["Download:", " ", "\t", "25", ".", "Mbps"];
    for text in texts(&pieces, 7) {
        assert_eq!(get_data_speedtest(&text), matched_lines(&pattern, &text), "{:?}", text);
    }
}

#[test]
fn probe_scanner_agrees_with_the_wider_pattern_on_ascii_lines() {
    let pattern = Regex::new(r"(Latency|Download|Upload):\s+(\d+(?:\.\d+)?)\s+(\w+)").unwrap();
    let pieces = ["Latency", "Upload: ", ": ", "\t", "\r", "1", ".", "m_", "x"];
    for text in texts(&pieces, 5) {
        assert_eq!(get_data_speedtest(&text), matched_lines(&pattern, &text), "{:?}", text);
    }
}

#[test]
fn number_scanner_agrees_with_the_pattern() {
    let pattern = Regex::new(r"[-]?\d*\.\d+").unwrap();
    let pieces = ["-", ".", "0", "7", "e", " "];
    for text in texts(&pieces, 6) {
        let line = format!("Latency{}", text);
        let expected: Vec<Decimal> =
            pattern.find_iter(&line).map(|m| decimal_of(m.as_str())).collect();
        let metric = get_infomation_file(&line).unwrap();
        assert_eq!(metric.latency, expected, "{:?}", line);
    }
}

#[test]
fn time_scanner_agrees_with_the_pattern() {
    let pattern = Regex::new(r"([0-9]{2}):([0-9]{2})").unwrap();
    let pieces = ["1", "2", ":", " ", "T"];
    for line in texts(&pieces, 7) {
        let expected: Vec<TimeOfDay> = pattern
            .captures(&line)
            .iter()
            .map(|cap| TimeOfDay { hour: cap[1].parse().unwrap(), minute: cap[2].parse().unwrap() })
            .collect();
        let metric = get_infomation_file(&line).unwrap();
        assert_eq!(metric.time, expected, "{:?}", line);
    }
}

#[test]
fn lines_are_cut_like_std_lines() {
    let pieces = ["a", "\n", "\r", "Upload 1.5", "08:30"];
    for text in texts(&pieces, 6) {
        let mut uploads = 0;
        let mut times = 0;
        for line in text.lines() {
            if line.contains("Upload") {
                uploads += line.matches("1.5").count();
            } else if line.contains("08:30") {
                times += 1;
            }
        }
        let metric = get_infomation_file(&text).unwrap();
        assert_eq!(metric.upload.len(), uploads, "{:?}", text);
        assert_eq!(metric.time.len(), times, "{:?}", text);
    }
}

#[test]
fn probe_scanner_is_narrower_than_the_wider_pattern_beyond_ascii() {
    let wide = Regex::new(r"(Latency|Download|Upload):\s+(\d+(?:\.\d+)?)\s+(\w+)").unwrap();
    let unit = "Latency: 12.3 \u{43c}\u{441}";
    assert_eq!(matched_lines(&wide, unit), vec![unit.to_string()]);
    assert!(get_data_speedtest(unit).is_empty());
    let digits = "Latency: \u{661}\u{662} ms";
    assert_eq!(matched_lines(&wide, digits), vec![digits.to_string()]);
    assert!(get_data_speedtest(digits).is_empty());
    let blank = "Latency:\u{a0}12.3\u{a0}ms";
    assert_eq!(matched_lines(&wide, blank), vec!["Latency: 12.3 ms".to_string()]);
    assert!(get_data_speedtest(blank).is_empty());
}

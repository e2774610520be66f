use speed_probe::cycle::{
    cycle_lines, local_time, log_text, time_marker, Action, Cycle, Event, Phase,
};
use speed_probe::log::get_infomation_file;
use speed_probe::metric::TimeOfDay;
use speed_probe::setting::Config;

fn config(iteration: u32, interval: Option<u64>) -> Config {
    Config {
        command_run: "run".to_string(),
        command_show: "show".to_string(),
        command_cls: "cls".to_string(),
        command_help: "help".to_string(),
        command_metric: "metric".to_string(),
        filepath: "ping_output.txt".to_string(),
        iteration,
        interval,
    }
}

fn at(hour: u8, minute: u8) -> TimeOfDay {
    TimeOfDay { hour, minute }
}

fn written(action: Action) -> Vec<String> {
    match action {
        Action::Write(lines) => lines,
        other => panic!("expected a write, got {:?}", other),
    }
}

#[test]
fn time_markers_have_two_digits_each() {
    assert_eq!(time_marker(at(8, 30)), "Time: 08:30");
    assert_eq!(time_marker(at(0, 0)), "Time: 00:00");
    assert_eq!(time_marker(at(23, 59)), "Time: 23:59");
    assert_eq!(time_marker(at(99, 99)), "Time: 99:99");
    assert_eq!(time_marker(at(10, 5)), "Time: 10:05");
}

#[test]
fn the_local_time_is_a_time_of_day() {
    let t = local_time();
    assert!(t.hour < 24);
    assert!(t.minute < 60);
}

#[test]
fn a_cycle_writes_its_measurements_and_then_the_time() {
    assert_eq!(
        cycle_lines("Latency:  12.3 ms\nDownload:  45.6 Mbps\n", at(9, 5)),
        vec![
            "Latency: 12.3 ms".to_string(),
            "Download: 45.6 Mbps".to_string(),
            "Time: 09:05".to_string(),
        ]
    );
    assert_eq!(cycle_lines("nothing", at(9, 5)), vec!["Time: 09:05".to_string()]);
}

#[test]
fn log_text_closes_each_line() {
    assert_eq!(log_text(&Vec::new()), "");
    assert_eq!(log_text(&vec!["a".to_string()]), "a\n");
    assert_eq!(log_text(&vec!["a".to_string(), "".to_string(), "b c".to_string()]), "a\n\nb c\n");
}

#[test]
fn a_run_without_iterations_ends_at_once() {
    let config = config(0, Some(5));
    let mut state = Cycle::new();
    assert_eq!(state, Cycle { completed: 0, phase: Phase::Ready });
    assert!(matches!(state.step(&config, &Event::Start), Action::Finish));
    assert_eq!(state, Cycle { completed: 0, phase: Phase::Done });
    assert!(matches!(state.step(&config, &Event::Probed("Latency: 1 ms".to_string())), Action::Finish));
    assert!(matches!(state.step(&config, &Event::Written), Action::Finish));
    assert!(matches!(state.step(&config, &Event::Start), Action::Finish));
}

#[test]
fn no_state_writes_without_iterations() {
    let config = config(0, None);
    for phase in [Phase::Ready, Phase::Probing, Phase::Writing, Phase::Resting, Phase::Done] {
        for event in [
            Event::Start,
            Event::Probed("Upload: 1 Mbps".to_string()),
            Event::Written,
            Event::Rested,
        ] {
            let mut state = Cycle { completed: 0, phase };
            assert!(matches!(state.step(&config, &event), Action::Finish));
            assert_eq!(state, Cycle { completed: 0, phase: Phase::Done });
        }
    }
}

#[test]
fn a_run_of_two_cycles_without_rest() {
    let config = config(2, None);
    let mut state = Cycle::new();
    assert!(matches!(state.step(&config, &Event::Start), Action::Probe));
    assert_eq!(state, Cycle { completed: 0, phase: Phase::Probing });
    let lines = written(state.step(&config, &Event::Probed("Latency: 1.5 ms\n".to_string())));
    assert_eq!(state, Cycle { completed: 0, phase: Phase::Writing });
    assert_eq!(lines.len(), 2);
    assert_eq!(lines[0], "Latency: 1.5 ms");
    assert!(matches!(state.step(&config, &Event::Written), Action::Probe));
    assert_eq!(state, Cycle { completed: 1, phase: Phase::Probing });
    let lines = written(state.step(&config, &Event::Probed("".to_string())));
    assert_eq!(lines.len(), 1);
    assert!(matches!(state.step(&config, &Event::Written), Action::Finish));
    assert_eq!(state, Cycle { completed: 2, phase: Phase::Done });
}

#[test]
fn a_run_rests_between_cycles_only() {
    let config = config(2, Some(30));
    let mut state = Cycle::new();
    assert!(matches!(state.step(&config, &Event::Start), Action::Probe));
    written(state.step(&config, &Event::Probed("".to_string())));
    assert!(matches!(state.step(&config, &Event::Written), Action::Rest(30)));
    assert_eq!(state, Cycle { completed: 1, phase: Phase::Resting });
    assert!(matches!(state.step(&config, &Event::Rested), Action::Probe));
    written(state.step(&config, &Event::Probed("".to_string())));
    assert!(matches!(state.step(&config, &Event::Written), Action::Finish));
    assert_eq!(state, Cycle { completed: 2, phase: Phase::Done });
}

#[test]
fn an_event_out_of_turn_ends_the_run() {
    let config = config(3, None);
    let mut state = Cycle::new();
    assert!(matches!(state.step(&config, &Event::Written), Action::Finish));
    assert_eq!(state.phase, Phase::Done);
    let mut state = Cycle::new();
    state.step(&config, &Event::Start);
    assert!(matches!(state.step(&config, &Event::Start), Action::Finish));
    assert_eq!(state, Cycle { completed: 0, phase: Phase::Done });
}

#[test]
fn the_written_time_is_the_local_time() {
    let config = config(1, None);
    let mut state = Cycle::new();
    state.step(&config, &Event::Start);
    let before = local_time();
    let lines = written(state.step(&config, &Event::Probed("Upload: 2.5 Mbps".to_string())));
    let after = local_time();
    assert_eq!(lines[0], "Upload: 2.5 Mbps");
    assert!(lines[1] == time_marker(before) || lines[1] == time_marker(after));
}

#[test]
fn written_cycles_are_read_back() {
    let mut text = log_text(&cycle_lines(
        "Latency: 12.30 ms\nDownload: 45.6 Mbps\nUpload: 7.125 Mbps\n",
        at(8, 30),
    ));
    text.push_str(&log_text(&cycle_lines("Latency: 11.0 ms\nUpload: 8 Mbps\n", at(9, 45))));
    let metric = get_infomation_file(&text).unwrap();
    let values = |v: &Vec<speed_probe::decimal::Decimal>| -> Vec<(u128, usize)> {
        v.iter().map(|d| (d.magnitude, d.scale)).collect()
    };
    assert_eq!(values(&metric.latency), vec![(1230, 2), (110, 1)]);
    assert_eq!(values(&metric.download), vec![(456, 1)]);
    assert_eq!(values(&metric.upload), vec![(7125, 3)]);
    assert_eq!(metric.time, vec![at(8, 30), at(9, 45)]);
}

#[test]
fn a_run_never_writes_more_often_than_it_has_iterations() {
    let events = |code: usize| -> Event {
        match code {
            0 => Event::Start,
            1 => Event::Probed("Latency: 1.5 ms".to_string()),
            2 => Event::Written,
            _ => Event::Rested,
        }
    };
    for iteration in 0..3u32 {
        for interval in [None, Some(1u64)] {
            let config = config(iteration, interval);
            for trace in 0..4usize.pow(6) {
                let mut state = Cycle::new();
                let mut writes = 0;
                let mut rest = trace;
                for _ in 0..6 {
                    if let Action::Write(_) = state.step(&config, &events(rest % 4)) {
                        writes += 1;
                    }
                    rest /= 4;
                }
                assert!(writes <= iteration);
            }
        }
    }
}

#[test]
fn a_full_run_writes_once_for_each_iteration() {
    for iteration in 0..5u32 {
        let config = config(iteration, Some(2));
        let mut state = Cycle::new();
        let mut action = state.step(&config, &Event::Start);
        let mut writes = 0;
        let mut rests = 0;
        loop {
            let event = match action {
                Action::Finish => break,
                Action::Probe => Event::Probed("Upload: 3 Mbps".to_string()),
                Action::Write(_) => {
                    writes += 1;
                    Event::Written
                }
                Action::Rest(seconds) => {
                    assert_eq!(seconds, 2);
                    rests += 1;
                    Event::Rested
                }
            };
            action = state.step(&config, &event);
        }
        assert_eq!(writes, iteration);
        assert_eq!(rests, iteration.saturating_sub(1));
        assert_eq!(state, Cycle { completed: iteration, phase: Phase::Done });
    }
}

//! The probe cycles of a run: what one cycle adds to the log, and the order in which a
//! run probes, writes and rests.

use vstd::prelude::*;

use crate::chars::texts;
use crate::metric::TimeOfDay;
use crate::probe::{get_data_speedtest, probe_lines};
use crate::setting::Config;

verus! {

/// The log line of a time of day: `Time: ` and then hours and minutes with two digits each
/// at least, and a colon between them.
pub open spec fn marker_text(t: TimeOfDay) -> Seq<char> {
    seq!['T', 'i', 'm', 'e', ':', ' '] + t.text()
}

/// What one cycle adds to the log: the lines of the measurements that the probe printed,
/// then the line of the time of day.
pub open spec fn cycle_text(output: Seq<char>, t: TimeOfDay) -> Seq<Seq<char>> {
    probe_lines(output) + seq![marker_text(t)]
}

/// The text of some lines, each closed by a line feed.
pub open spec fn joined(lines: Seq<Seq<char>>) -> Seq<char>
    decreases lines.len(),
{
    if lines.len() == 0 {
        Seq::empty()
    } else {
        joined(lines.drop_last()) + lines.last() + seq!['\n']
    }
}

/// Where a run stands.
#[derive(Clone, Copy, Debug, PartialEq, Eq, Structural)]
pub enum Phase {
    /// Nothing was done yet.
    Ready,
    /// The probe is running.
    Probing,
    /// The lines of a cycle are being written.
    Writing,
    /// The run rests between two cycles.
    Resting,
    /// The run is over.
    Done,
}

/// The state of a run: how many cycles are complete, and where the run stands.
#[derive(Clone, Copy, Debug, PartialEq, Eq, Structural)]
pub struct Cycle {
    pub completed: u32,
    pub phase: Phase,
}

/// What happened outside since the last step.
#[derive(Clone, Debug)]
pub enum Event {
    /// The run begins.
    Start,
    /// The probe ended and printed this text.
    Probed(String),
    /// The lines were appended to the log.
    Written,
    /// The rest is over.
    Rested,
}

/// What is to be done outside next.
#[derive(Clone, Debug)]
pub enum Action {
    /// Run the probe and hand back what it printed.
    Probe,
    /// Append these lines to the log.
    Write(Vec<String>),
    /// Rest for so many seconds.
    Rest(u64),
    /// End the run.
    Finish,
}

/// An action without what it carries.
#[derive(Clone, Copy, Debug, PartialEq, Eq, Structural)]
pub enum Step {
    Probe,
    Write,
    Rest(u64),
    Finish,
}

impl Action {
    /// The action without its lines.
    pub open spec fn step(&self) -> Step {
        match self {
            Action::Probe => Step::Probe,
            Action::Write(_) => Step::Write,
            Action::Rest(n) => Step::Rest(*n),
            Action::Finish => Step::Finish,
        }
    }
}

/// The state and the action with which a cycle begins, or the run ends, once `completed`
/// cycles are complete.
pub open spec fn begin(config: &Config, completed: u32) -> (Cycle, Step) {
    if completed >= config.iteration {
        (Cycle { completed, phase: Phase::Done }, Step::Finish)
    } else {
        (Cycle { completed, phase: Phase::Probing }, Step::Probe)
    }
}

/// The state after an event, and the action that it calls for.
///
/// A run begins a cycle while fewer than `iteration` cycles are complete. The lines of
/// a cycle are written when the probe has ended; the cycle is complete when they are
/// written. Where cycles remain, the run then rests if an interval is configured, and
/// begins the next cycle. An event that the state does not wait for ends the run, and so
/// does the end of a probe when no cycle remains.
pub open spec fn next(config: &Config, state: Cycle, event: &Event) -> (Cycle, Step) {
    match (state.phase, event) {
        (Phase::Ready, Event::Start) => begin(config, state.completed),
        (Phase::Probing, Event::Probed(_)) => if state.completed < config.iteration {
            (Cycle { completed: state.completed, phase: Phase::Writing }, Step::Write)
        } else {
            (Cycle { completed: state.completed, phase: Phase::Done }, Step::Finish)
        },
        (Phase::Writing, Event::Written) => {
            let completed = if state.completed < config.iteration {
                (state.completed + 1) as u32
            } else {
                state.completed
            };
            if completed < config.iteration && config.interval is Some {
                (Cycle { completed, phase: Phase::Resting }, Step::Rest(config.interval->0))
            } else {
                begin(config, completed)
            }
        },
        (Phase::Resting, Event::Rested) => begin(config, state.completed),
        _ => (Cycle { completed: state.completed, phase: Phase::Done }, Step::Finish),
    }
}

/// The number of writes that a run makes on the events `events`, from the state `state`.
pub open spec fn writes(config: &Config, state: Cycle, events: Seq<Event>) -> nat
    decreases events.len(),
{
    if events.len() == 0 {
        0
    } else {
        let (after, step) = next(config, state, &events.first());
        writes(config, after, events.drop_first()) + if step == Step::Write {
            1nat
        } else {
            0nat
        }
    }
}

/// The number of writes that a run can still make from the state `state`.
pub open spec fn writes_left(config: &Config, state: Cycle) -> nat {
    match state.phase {
        Phase::Done => 0,
        Phase::Writing => if state.completed < config.iteration {
            (config.iteration - state.completed - 1) as nat
        } else {
            0
        },
        _ => if state.completed < config.iteration {
            (config.iteration - state.completed) as nat
        } else {
            0
        },
    }
}

/// The hour and the minute of the local time, from chrono's `Local::now`, read with
/// `Timelike::hour` and `Timelike::minute`: the hour is below 24 and the minute below 60.
/// Nothing is said of which time it is. chrono knows three states of the machine in which
/// it ends the program instead of returning: the clock stands before the year 1970, no
/// offset from universal time is found for the local time zone, or the data of the time
/// zone holds no local time type.
#[verifier::external_body]
fn local_hour_minute() -> (r: (u32, u32))
    ensures
        r.0 < 24,
        r.1 < 60,
{
    let now = chrono::Local::now();
    (chrono::Timelike::hour(&now), chrono::Timelike::minute(&now))
}

/// Reads the local time of day from the clock.
pub fn local_time() -> (t: TimeOfDay)
    ensures
        t.hour < 24,
        t.minute < 60,
{
    let (hour, minute) = local_hour_minute();
    TimeOfDay { hour: hour as u8, minute: minute as u8 }
}

/// Writes the log line of a time of day.
pub fn time_marker(t: TimeOfDay) -> (line: String)
    ensures
        line@ == marker_text(t),
{
    proof {
        reveal_strlit("Time: ");
    }
    let mut line = String::from_str("Time: ");
    assert(line@ =~= seq!['T', 'i', 'm', 'e', ':', ' ']);
    t.write(&mut line);
    line
}

/// Writes what one cycle adds to the log, from what the probe printed and the time of day.
pub fn cycle_lines(output: &str, t: TimeOfDay) -> (lines: Vec<String>)
    ensures
        texts(lines@) == cycle_text(output@, t),
{
    let mut lines = get_data_speedtest(output);
    let ghost before = texts(lines@);
    lines.push(time_marker(t));
    assert(texts(lines@) =~= before + seq![marker_text(t)]);
    lines
}

/// Writes the text of some lines, each closed by a line feed: what is appended to the log.
pub fn log_text(lines: &Vec<String>) -> (text: String)
    ensures
        text@ == joined(texts(lines@)),
{
    let ghost all = texts(lines@);
    let mut text = String::new();
    let mut i: usize = 0;
    assert(all.take(0) =~= Seq::<Seq<char>>::empty());
    while i < lines.len()
        invariant
            i <= lines.len(),
            all == texts(lines@),
            text@ == joined(all.take(i as int)),
        decreases lines.len() - i,
    {
        assert(all.take(i + 1).drop_last() =~= all.take(i as int));
        assert(all.take(i + 1).last() == lines@[i as int]@);
        text.append(lines[i].as_str());
        text.append("\n");
        proof {
            reveal_strlit("\n");
            assert("\n"@ =~= seq!['\n']);
        }
        i = i + 1;
    }
    assert(all.take(i as int) =~= all);
    text
}

impl Cycle {
    /// The state of a run that has not begun.
    pub fn new() -> (state: Self)
        ensures
            state == (Cycle { completed: 0, phase: Phase::Ready }),
    {
        Cycle { completed: 0, phase: Phase::Ready }
    }

    /// Decides whether another cycle begins.
    fn begin(&mut self, config: &Config) -> (action: Action)
        ensures
            (*final(self), action.step()) == begin(config, old(self).completed),
            !(action is Write),
    {
        if self.completed >= config.iteration {
            self.phase = Phase::Done;
            Action::Finish
        } else {
            self.phase = Phase::Probing;
            Action::Probe
        }
    }

    /// Takes the run one step further: moves to the state that follows on `event`, and
    /// returns what is to be done next. The lines of a write are those of the probe's
    /// text, followed by the line of the local time at which the step was made.
    pub fn step(&mut self, config: &Config, event: &Event) -> (action: Action)
        ensures
            (*final(self), action.step()) == next(config, *old(self), event),
            match (action, event) {
                (Action::Write(lines), Event::Probed(output)) => exists|t: TimeOfDay|
                    t.hour < 24 && t.minute < 60 && texts(lines@) == #[trigger] cycle_text(
                        output@,
                        t,
                    ),
                (Action::Write(_), _) => false,
                _ => true,
            },
    {
        match (self.phase, event) {
            (Phase::Ready, Event::Start) => self.begin(config),
            (Phase::Probing, Event::Probed(output)) => {
                if self.completed < config.iteration {
                    let t = local_time();
                    let lines = cycle_lines(output.as_str(), t);
                    self.phase = Phase::Writing;
                    Action::Write(lines)
                } else {
                    self.phase = Phase::Done;
                    Action::Finish
                }
            },
            (Phase::Writing, Event::Written) => {
                if self.completed < config.iteration {
                    self.completed = self.completed + 1;
                }
                match config.interval {
                    Some(seconds) if self.completed < config.iteration => {
                        self.phase = Phase::Resting;
                        Action::Rest(seconds)
                    },
                    _ => self.begin(config),
                }
            },
            (Phase::Resting, Event::Rested) => self.begin(config),
            _ => {
                self.phase = Phase::Done;
                Action::Finish
            },
        }
    }
}

} // verus!

//! The record of a log: the readings of each measurement and the times of day, each in
//! the order in which the log holds them.

use vstd::prelude::*;

use crate::decimal::{readings, two_digits, write_digits, Decimal, Reading};

verus! {

/// A time of day as a log line gives it: two digits of hours and two of minutes.
#[derive(Clone, Copy, Debug, PartialEq, Eq, Structural)]
pub struct TimeOfDay {
    pub hour: u8,
    pub minute: u8,
}

impl TimeOfDay {
    /// The time in minutes: sixty times the time in hours, `hour + minute / 60`.
    pub open spec fn minutes(self) -> nat {
        (self.hour * 60 + self.minute) as nat
    }

    /// Whether both parts can be written with two digits.
    pub open spec fn two_digit(self) -> bool {
        self.hour <= 99 && self.minute <= 99
    }

    /// The time as text: hours and minutes with two digits each at least, and a colon
    /// between them.
    pub open spec fn text(self) -> Seq<char> {
        two_digits(self.hour as nat) + seq![':'] + two_digits(self.minute as nat)
    }

    /// Appends the time as text to `out`.
    pub fn write(&self, out: &mut String)
        ensures
            final(out)@ == old(out)@ + self.text(),
    {
        write_two_digits(self.hour, out);
        proof {
            reveal_strlit(":");
        }
        out.append(":");
        assert(":"@ =~= seq![':']);
        write_two_digits(self.minute, out);
        assert(out@ =~= old(out)@ + self.text());
    }

    /// The time in minutes.
    pub fn total_minutes(&self) -> (m: u32)
        ensures
            m == self.minutes(),
    {
        self.hour as u32 * 60 + self.minute as u32
    }
}

/// Appends a number with two digits at least to `out`.
pub fn write_two_digits(n: u8, out: &mut String)
    ensures
        final(out)@ == old(out)@ + two_digits(n as nat),
{
    if n < 10 {
        proof {
            reveal_strlit("0");
        }
        out.append("0");
        assert("0"@ =~= seq!['0']);
        write_digits(n as u128, out);
        assert(out@ =~= old(out)@ + two_digits(n as nat));
    } else {
        write_digits(n as u128, out);
    }
}

/// What a log holds, as four sequences that do not depend on each other.
pub ghost struct Series {
    pub latency: Seq<Reading>,
    pub download: Seq<Reading>,
    pub upload: Seq<Reading>,
    pub time: Seq<TimeOfDay>,
}

/// The readings collected from a log. The four vectors grow independently: a log line adds
/// to one of them at most, so their lengths need not agree.
#[derive(Clone, Debug)]
pub struct Metric {
    pub latency: Vec<Decimal>,
    pub download: Vec<Decimal>,
    pub upload: Vec<Decimal>,
    pub time: Vec<TimeOfDay>,
}

impl View for Metric {
    type V = Series;

    open spec fn view(&self) -> Series {
        Series {
            latency: readings(self.latency@),
            download: readings(self.download@),
            upload: readings(self.upload@),
            time: self.time@,
        }
    }
}

impl Metric {
    /// A record without readings.
    pub fn new() -> (m: Self)
        ensures
            m@.latency == Seq::<Reading>::empty(),
            m@.download == Seq::<Reading>::empty(),
            m@.upload == Seq::<Reading>::empty(),
            m@.time == Seq::<TimeOfDay>::empty(),
    {
        let m = Metric {
            latency: Vec::new(),
            download: Vec::new(),
            upload: Vec::new(),
            time: Vec::new(),
        };
        assert(readings(m.latency@) =~= Seq::<Reading>::empty());
        assert(readings(m.download@) =~= Seq::<Reading>::empty());
        assert(readings(m.upload@) =~= Seq::<Reading>::empty());
        m
    }
}

} // verus!

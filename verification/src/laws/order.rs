//! Laws of reading a log: the order of what is read, and lines that give nothing.

use vstd::prelude::*;

use crate::chars::{contains, is_digit, lemma_run_end, CharClass};
use crate::decimal::Reading;
use crate::log::{
    clock_readings, digits_start, label_readings, line_label_readings, line_times, number_end,
    readings_from,
};
use crate::metric::TimeOfDay;
use crate::probe::Label;

verus! {

/// The readings and the times of a log stand in the order of its lines: what the lines
/// `a` give comes first, and what the lines `b` behind them give follows.
pub proof fn law_order_of_lines(a: Seq<Seq<char>>, b: Seq<Seq<char>>, label: Label)
    ensures
        label_readings(a + b, label) == label_readings(a, label) + label_readings(b, label),
        clock_readings(a + b) == clock_readings(a) + clock_readings(b),
    decreases b.len(),
{
    if b.len() == 0 {
        assert(a + b =~= a);
        assert(label_readings(a, label) + label_readings(b, label) =~= label_readings(a, label));
        assert(clock_readings(a) + clock_readings(b) =~= clock_readings(a));
    } else {
        law_order_of_lines(a, b.drop_last(), label);
        assert((a + b).drop_last() =~= a + b.drop_last());
        assert((a + b).last() == b.last());
        assert(label_readings(a + b, label) =~= label_readings(a, label) + label_readings(
            b,
            label,
        ));
        assert(clock_readings(a + b) =~= clock_readings(a) + clock_readings(b));
    }
}

/// Within the readings of one label, what an earlier line gives stands before what a later
/// line gives: the readings of the first `k` lines are the beginning of the readings of
/// all lines.
pub proof fn law_earlier_lines_first(lines: Seq<Seq<char>>, k: int, label: Label)
    requires
        0 <= k <= lines.len(),
    ensures
        label_readings(lines.take(k), label).is_prefix_of(label_readings(lines, label)),
        clock_readings(lines.take(k)).is_prefix_of(clock_readings(lines)),
{
    assert(lines.take(k) + lines.skip(k) =~= lines);
    law_order_of_lines(lines.take(k), lines.skip(k), label);
}

/// Whether no decimal number stands in `s` at position `i` or behind it: no point there
/// is followed by a digit.
pub open spec fn no_decimal_from(s: Seq<char>, i: int) -> bool {
    forall|j: int| i <= j && j + 1 < s.len() ==> !(#[trigger] s[j] == '.' && is_digit(s[j + 1]))
}

/// Where no point is followed by a digit, no number is found.
pub proof fn lemma_no_decimal_no_reading(s: Seq<char>, i: int)
    requires
        0 <= i,
        no_decimal_from(s, i),
    ensures
        readings_from(s, i) == Seq::<Reading>::empty(),
    decreases s.len() - i,
{
    if i < s.len() {
        lemma_run_end(s, digits_start(s, i), CharClass::Digit);
        assert(number_end(s, i) is None);
        lemma_no_decimal_no_reading(s, i + 1);
    }
}

/// A line that holds the word `Latency` but no number with a point and a digit behind it
/// adds nothing to the record: no latency, and no other reading or time either.
pub proof fn law_label_without_decimal(line: Seq<char>)
    requires
        contains(line, Label::Latency.text()),
        no_decimal_from(line, 0),
    ensures
        line_label_readings(line, Label::Latency) == Seq::<Reading>::empty(),
        line_label_readings(line, Label::Download) == Seq::<Reading>::empty(),
        line_label_readings(line, Label::Upload) == Seq::<Reading>::empty(),
        line_times(line) == Seq::<TimeOfDay>::empty(),
{
    lemma_no_decimal_no_reading(line, 0);
}

} // verus!

//! Reading a log back: the text is cut into lines, each line is sorted by what it holds,
//! and its numbers or its time of day are added to the record.

use vstd::prelude::*;

use crate::chars::{digit, is_digit, lemma_run_end, rows, run_end, skip_run, to_chars, CharClass};
use crate::decimal::{
    digit_number, digit_value, digits_value, read_digits, readings, Decimal, Reading,
};
use crate::metric::{Metric, Series, TimeOfDay};
use crate::probe::{label_in, Label, LabelWords};

verus! {

/// Where a next position of a scan lies: `e` where that is ahead of `i` and inside the
/// text, else one position behind `i`.
pub open spec fn ahead(s: Seq<char>, i: int, e: int) -> int {
    if i < e <= s.len() {
        e
    } else {
        i + 1
    }
}

/// The lines of `s` from position `i` on: each ends before a line feed or at the end of
/// the text, and nothing follows a line feed at the very end.
pub open spec fn lines_from(s: Seq<char>, i: int) -> Seq<Seq<char>>
    decreases s.len() - i,
{
    if i < 0 || i >= s.len() {
        Seq::empty()
    } else {
        let e = run_end(s, i, CharClass::Inline);
        seq![s.subrange(i, e)] + lines_from(
            s,
            if i <= e < s.len() {
                e + 1
            } else {
                s.len() as int
            },
        )
    }
}

/// The lines of a text.
pub open spec fn lines_of(s: Seq<char>) -> Seq<Seq<char>> {
    lines_from(s, 0)
}

/// Where the digits of a number that starts at `i` begin: behind a minus sign, if one
/// stands at `i`.
pub open spec fn digits_start(s: Seq<char>, i: int) -> int {
    if 0 <= i < s.len() && s[i] == '-' {
        i + 1
    } else {
        i
    }
}

/// Where the point of a number that starts at `i` would have to stand.
pub open spec fn point_at(s: Seq<char>, i: int) -> int {
    run_end(s, digits_start(s, i), CharClass::Digit)
}

/// The end of the decimal number that starts at `i`, if one does: an optional minus sign,
/// any digits, a point, and at least one digit, each run of digits as long as it can be.
pub open spec fn number_end(s: Seq<char>, i: int) -> Option<int> {
    let p = point_at(s, i);
    if 0 <= i && p + 1 < s.len() && s[p] == '.' && is_digit(s[p + 1]) {
        Some(run_end(s, p + 1, CharClass::Digit))
    } else {
        None
    }
}

/// The value of the number that stands in `s` from `i` up to `e`.
pub open spec fn reading_at(s: Seq<char>, i: int, e: int) -> Reading {
    Reading {
        negative: digits_start(s, i) > i,
        magnitude: digits_value(s.subrange(i, e)),
        scale: (e - point_at(s, i) - 1) as nat,
    }
}

/// The numbers found from position `i` on, scanning to the right: the search goes on
/// behind a number that was found, and one position further where none starts.
pub open spec fn readings_from(s: Seq<char>, i: int) -> Seq<Reading>
    decreases s.len() - i,
{
    if i < 0 || i >= s.len() {
        Seq::empty()
    } else {
        match number_end(s, i) {
            Some(e) => seq![reading_at(s, i, e)] + readings_from(s, ahead(s, i, e)),
            None => readings_from(s, i + 1),
        }
    }
}

/// The decimal numbers of a line, in the order in which they stand in it.
pub open spec fn line_readings(line: Seq<char>) -> Seq<Reading> {
    readings_from(line, 0)
}

/// The time of day written at position `i`: two digits, a colon, two digits.
pub open spec fn clock_at(s: Seq<char>, i: int) -> Option<TimeOfDay> {
    if 0 <= i && i + 5 <= s.len() && is_digit(s[i]) && is_digit(s[i + 1]) && s[i + 2] == ':'
        && is_digit(s[i + 3]) && is_digit(s[i + 4]) {
        Some(
            TimeOfDay {
                hour: (digit_value(s[i]) * 10 + digit_value(s[i + 1])) as u8,
                minute: (digit_value(s[i + 3]) * 10 + digit_value(s[i + 4])) as u8,
            },
        )
    } else {
        None
    }
}

/// The first time of day written at position `i` or behind it.
pub open spec fn clock_from(s: Seq<char>, i: int) -> Option<TimeOfDay>
    decreases s.len() - i,
{
    if i < 0 || i >= s.len() {
        None
    } else if clock_at(s, i) is Some {
        clock_at(s, i)
    } else {
        clock_from(s, i + 1)
    }
}

/// The first time of day written in a line, whatever stands before it.
pub open spec fn line_clock(line: Seq<char>) -> Option<TimeOfDay> {
    clock_from(line, 0)
}

/// What a line adds to the readings of `label`: its decimal numbers where `label` is the
/// first of latency, download, upload whose word the line holds, else nothing.
pub open spec fn line_label_readings(line: Seq<char>, label: Label) -> Seq<Reading> {
    if label_in(line) == Some(label) {
        line_readings(line)
    } else {
        Seq::empty()
    }
}

/// What a line adds to the times: its first time of day where it holds none of the three
/// label words, else nothing.
pub open spec fn line_times(line: Seq<char>) -> Seq<TimeOfDay> {
    if label_in(line) is None && line_clock(line) is Some {
        seq![line_clock(line)->0]
    } else {
        Seq::empty()
    }
}

/// The readings of `label` in a sequence of lines, line after line.
pub open spec fn label_readings(lines: Seq<Seq<char>>, label: Label) -> Seq<Reading>
    decreases lines.len(),
{
    if lines.len() == 0 {
        Seq::empty()
    } else {
        label_readings(lines.drop_last(), label) + line_label_readings(lines.last(), label)
    }
}

/// The times of day in a sequence of lines, line after line.
pub open spec fn clock_readings(lines: Seq<Seq<char>>) -> Seq<TimeOfDay>
    decreases lines.len(),
{
    if lines.len() == 0 {
        Seq::empty()
    } else {
        clock_readings(lines.drop_last()) + line_times(lines.last())
    }
}

/// The record that a sequence of lines gives.
pub open spec fn series_of(lines: Seq<Seq<char>>) -> Series {
    Series {
        latency: label_readings(lines, Label::Latency),
        download: label_readings(lines, Label::Download),
        upload: label_readings(lines, Label::Upload),
        time: clock_readings(lines),
    }
}

/// Whether all numbers of a sequence of readings can be held.
pub open spec fn all_fit(rs: Seq<Reading>) -> bool {
    forall|k: int| 0 <= k < rs.len() ==> (#[trigger] rs[k]).fits()
}

/// Whether a line can be read: it holds none of the three label words, or each of its
/// decimal numbers can be held.
pub open spec fn line_fits(line: Seq<char>) -> bool {
    label_in(line) is Some ==> all_fit(line_readings(line))
}

/// Whether `after` is `before` with some of the first items of `added` behind it, in their
/// order: with none of them, with all, or with any number between.
pub open spec fn grown_within<T>(before: Seq<T>, after: Seq<T>, added: Seq<T>) -> bool {
    before.is_prefix_of(after) && after.is_prefix_of(before + added)
}

/// A number of the log is too long to be held.
#[derive(Clone, Copy, Debug, PartialEq, Eq, Structural)]
pub struct ParseError {
    /// The line of the number, counted from 0.
    pub line: usize,
}

/// A number that was found ends behind its start, and inside the text.
pub proof fn lemma_number_end(s: Seq<char>, i: int)
    requires
        number_end(s, i) is Some,
    ensures
        i <= digits_start(s, i) <= point_at(s, i) < number_end(s, i)->0 - 1,
        number_end(s, i)->0 <= s.len(),
        ahead(s, i, number_end(s, i)->0) == number_end(s, i)->0,
{
    lemma_run_end(s, digits_start(s, i), CharClass::Digit);
    lemma_run_end(s, point_at(s, i) + 1, CharClass::Digit);
}

/// A sequence that stays as it is has grown by none of the items of an empty sequence, and
/// one that has all items of `added` behind it has grown by all of them.
pub proof fn lemma_kept<T>(before: Seq<T>)
    ensures
        grown_within(before, before, Seq::<T>::empty()),
        forall|added: Seq<T>| #[trigger] grown_within(before, before + added, added),
{
    assert(before =~= before.subrange(0, before.len() as int));
    assert(before =~= (before + Seq::<T>::empty()).subrange(0, before.len() as int));
    assert forall|added: Seq<T>| #[trigger] grown_within(before, before + added, added) by {
        assert(before =~= (before + added).subrange(0, before.len() as int));
        assert(before + added =~= (before + added).subrange(0, (before + added).len() as int));
    }
}

/// Copies the characters of `s` from `start` up to `end`.
pub fn copy_range(s: &Vec<char>, start: usize, end: usize) -> (v: Vec<char>)
    requires
        start <= end <= s.len(),
    ensures
        v@ == s@.subrange(start as int, end as int),
{
    let mut v: Vec<char> = Vec::new();
    let mut k: usize = start;
    while k < end
        invariant
            start <= k <= end <= s.len(),
            v@ == s@.subrange(start as int, k as int),
        decreases end - k,
    {
        v.push(s[k]);
        k = k + 1;
        assert(v@ =~= s@.subrange(start as int, k as int));
    }
    v
}

/// Cuts a text into its lines.
pub fn split_lines(s: &Vec<char>) -> (lines: Vec<Vec<char>>)
    ensures
        rows(lines@) == lines_of(s@),
{
    let mut lines: Vec<Vec<char>> = Vec::new();
    let mut i: usize = 0;
    assert(rows(lines@) =~= Seq::<Seq<char>>::empty());
    while i < s.len()
        invariant
            i <= s.len(),
            rows(lines@) + lines_from(s@, i as int) == lines_of(s@),
        decreases s.len() - i,
    {
        let ghost before = rows(lines@);
        let e = skip_run(s, i, CharClass::Inline);
        let line = copy_range(s, i, e);
        lines.push(line);
        let ghost here = i as int;
        i = if e < s.len() {
            e + 1
        } else {
            e
        };
        assert(rows(lines@) =~= before + seq![s@.subrange(here, e as int)]);
        assert(rows(lines@) + lines_from(s@, i as int) =~= before + lines_from(s@, here));
    }
    lines
}

/// Reads the decimal number that starts at position `i` of `s`, if one does: where it ends,
/// and its value unless that is too large to be held.
pub fn read_number(s: &Vec<char>, i: usize) -> (r: Option<(usize, Option<Decimal>)>)
    requires
        i < s.len(),
    ensures
        match r {
            Some((e, value)) => {
                &&& number_end(s@, i as int) == Some(e as int)
                &&& value is Some == reading_at(s@, i as int, e as int).fits()
                &&& value is Some ==> value->0@ == reading_at(s@, i as int, e as int)
            },
            None => number_end(s@, i as int) is None,
        },
{
    let first = if s[i] == '-' {
        i + 1
    } else {
        i
    };
    let p = skip_run(s, first, CharClass::Digit);
    if p < s.len() && s.len() - p > 1 && s[p] == '.' && digit(s[p + 1]) {
        let e = skip_run(s, p + 1, CharClass::Digit);
        let value = match read_digits(s, i, e) {
            Some(magnitude) => Some(Decimal { negative: first > i, magnitude, scale: e - p - 1 }),
            None => None,
        };
        Some((e, value))
    } else {
        None
    }
}

/// Adds the decimal numbers of the line `s` to `out`, in their order. Returns whether
/// all of them could be held; where one could not, `out` holds what it held and, behind
/// that, the numbers of the line that stand before the first one that could not.
pub fn read_numbers(s: &Vec<char>, out: &mut Vec<Decimal>) -> (ok: bool)
    ensures
        ok == all_fit(line_readings(s@)),
        ok ==> readings(final(out)@) == readings(old(out)@) + line_readings(s@),
        grown_within(readings(old(out)@), readings(final(out)@), line_readings(s@)),
        !ok ==> readings(final(out)@).len() < readings(old(out)@).len() + line_readings(s@).len()
            && !line_readings(s@)[readings(final(out)@).len() - readings(old(out)@).len()].fits(),
{
    let ghost start = readings(out@);
    let ghost done = Seq::<Reading>::empty();
    let mut i: usize = 0;
    assert(readings(out@) =~= start + done);
    while i < s.len()
        invariant
            i <= s.len(),
            start == readings(old(out)@),
            readings(out@) == start + done,
            done + readings_from(s@, i as int) == line_readings(s@),
            all_fit(done),
        decreases s.len() - i,
    {
        match read_number(s, i) {
            Some((e, value)) => {
                proof {
                    lemma_number_end(s@, i as int);
                }
                let ghost r = reading_at(s@, i as int, e as int);
                let ghost rest = readings_from(s@, e as int);
                assert(line_readings(s@) =~= (done + seq![r]) + rest);
                match value {
                    Some(d) => {
                        let ghost before = readings(out@);
                        out.push(d);
                        proof {
                            assert(readings(out@) =~= before + seq![r]);
                            assert(readings(out@) =~= start + (done + seq![r]));
                            done = done + seq![r];
                        }
                        i = e;
                    },
                    None => {
                        assert(!line_readings(s@)[done.len() as int].fits());
                        assert(start =~= (start + done).subrange(0, start.len() as int));
                        assert(start + done =~= (start + line_readings(s@)).subrange(
                            0,
                            (start + done).len() as int,
                        ));
                        return false;
                    },
                }
            },
            None => {
                i = i + 1;
            },
        }
    }
    assert(done =~= line_readings(s@));
    assert(start =~= (start + done).subrange(0, start.len() as int));
    assert(start + done =~= (start + done).subrange(0, (start + done).len() as int));
    true
}

/// Reads the time of day written at position `i` of `s`, if one is.
pub fn read_clock(s: &Vec<char>, i: usize) -> (r: Option<TimeOfDay>)
    ensures
        r == clock_at(s@, i as int),
        r is Some ==> r->0.two_digit(),
{
    if i <= s.len() && s.len() - i >= 5 && digit(s[i]) && digit(s[i + 1]) && s[i + 2] == ':'
        && digit(s[i + 3]) && digit(s[i + 4]) {
        let hour = digit_number(s[i]) * 10 + digit_number(s[i + 1]);
        let minute = digit_number(s[i + 3]) * 10 + digit_number(s[i + 4]);
        Some(TimeOfDay { hour, minute })
    } else {
        None
    }
}

/// Finds the first time of day written in the line `s`.
pub fn find_clock(s: &Vec<char>) -> (r: Option<TimeOfDay>)
    ensures
        r == line_clock(s@),
        r is Some ==> r->0.two_digit(),
{
    let mut i: usize = 0;
    while i < s.len()
        invariant
            i <= s.len(),
            clock_from(s@, i as int) == line_clock(s@),
        decreases s.len() - i,
    {
        let found = read_clock(s, i);
        if found.is_some() {
            return found;
        }
        i = i + 1;
    }
    None
}

/// Adds to `metric` what the line `s` holds. Returns whether the line could be read;
/// where it could not, the readings of its label hold what they held and, behind that,
/// the numbers of the line that stand before the first one that could not be held, and
/// the rest of the record is as it was.
pub fn read_line(words: &LabelWords, s: &Vec<char>, metric: &mut Metric) -> (ok: bool)
    requires
        words.wf(),
    ensures
        ok == line_fits(s@),
        ok ==> final(metric)@.latency == old(metric)@.latency + line_label_readings(
            s@,
            Label::Latency,
        ),
        ok ==> final(metric)@.download == old(metric)@.download + line_label_readings(
            s@,
            Label::Download,
        ),
        ok ==> final(metric)@.upload == old(metric)@.upload + line_label_readings(
            s@,
            Label::Upload,
        ),
        grown_within(
            old(metric)@.latency,
            final(metric)@.latency,
            line_label_readings(s@, Label::Latency),
        ),
        grown_within(
            old(metric)@.download,
            final(metric)@.download,
            line_label_readings(s@, Label::Download),
        ),
        grown_within(
            old(metric)@.upload,
            final(metric)@.upload,
            line_label_readings(s@, Label::Upload),
        ),
        final(metric)@.time == old(metric)@.time + line_times(s@),
{
    let ghost before = metric@;
    proof {
        lemma_kept(before.latency);
        lemma_kept(before.download);
        lemma_kept(before.upload);
    }
    match words.find_in(s) {
        Some(Label::Latency) => {
            let ok = read_numbers(s, &mut metric.latency);
            proof {
                assert(before.download + line_label_readings(s@, Label::Download)
                    =~= before.download);
                assert(before.upload + line_label_readings(s@, Label::Upload) =~= before.upload);
                assert(before.time + line_times(s@) =~= before.time);
            }
            ok
        },
        Some(Label::Download) => {
            let ok = read_numbers(s, &mut metric.download);
            proof {
                assert(before.latency + line_label_readings(s@, Label::Latency)
                    =~= before.latency);
                assert(before.upload + line_label_readings(s@, Label::Upload) =~= before.upload);
                assert(before.time + line_times(s@) =~= before.time);
            }
            ok
        },
        Some(Label::Upload) => {
            let ok = read_numbers(s, &mut metric.upload);
            proof {
                assert(before.latency + line_label_readings(s@, Label::Latency)
                    =~= before.latency);
                assert(before.download + line_label_readings(s@, Label::Download)
                    =~= before.download);
                assert(before.time + line_times(s@) =~= before.time);
            }
            ok
        },
        None => {
            match find_clock(s) {
                Some(t) => {
                    metric.time.push(t);
                    assert(metric.time@ =~= before.time + line_times(s@));
                },
                None => {
                    assert(before.time + line_times(s@) =~= before.time);
                },
            }
            proof {
                assert(before.latency + line_label_readings(s@, Label::Latency)
                    =~= before.latency);
                assert(before.download + line_label_readings(s@, Label::Download)
                    =~= before.download);
                assert(before.upload + line_label_readings(s@, Label::Upload) =~= before.upload);
            }
            true
        },
    }
}

/// Reads a whole log. Every line is looked at by itself: a line that holds the word
/// `Latency` gives its decimal numbers to the latencies; else one that holds `Download`,
/// to the downloads; else one that holds `Upload`, to the uploads; else one that holds a
/// time of day gives the first such time; any other line gives nothing. The reading fails
/// at the first line whose number is too long to be held, and says which line that is.
pub fn get_infomation_file(contents: &str) -> (r: Result<Metric, ParseError>)
    ensures
        match r {
            Ok(metric) => {
                &&& metric@ == series_of(lines_of(contents@))
                &&& forall|j: int|
                    0 <= j < lines_of(contents@).len() ==> line_fits(
                        #[trigger] lines_of(contents@)[j],
                    )
            },
            Err(e) => {
                &&& e.line < lines_of(contents@).len()
                &&& !line_fits(lines_of(contents@)[e.line as int])
                &&& forall|j: int|
                    0 <= j < e.line ==> line_fits(#[trigger] lines_of(contents@)[j])
            },
        },
{
    let words = LabelWords::new();
    let text = to_chars(contents);
    let lines = split_lines(&text);
    let ghost all = lines_of(contents@);
    let mut metric = Metric::new();
    let mut n: usize = 0;
    assert(all.take(0) =~= Seq::<Seq<char>>::empty());
    while n < lines.len()
        invariant
            words.wf(),
            n <= lines.len(),
            rows(lines@) == all,
            all == lines_of(contents@),
            metric@ == series_of(all.take(n as int)),
            forall|j: int| 0 <= j < n ==> line_fits(#[trigger] all[j]),
        decreases lines.len() - n,
    {
        let ghost seen = all.take(n as int);
        let ghost next = all.take(n + 1);
        assert(next.drop_last() =~= seen);
        assert(next.last() == all[n as int]);
        assert(lines@[n as int]@ == all[n as int]);
        if !read_line(&words, &lines[n], &mut metric) {
            return Err(ParseError { line: n });
        }
        n = n + 1;
    }
    assert(all.take(n as int) =~= all);
    Ok(metric)
}

} // verus!

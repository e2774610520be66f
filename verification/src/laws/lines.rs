//! Laws of lines: a text that is written line by line is read line by line.

use vstd::prelude::*;

use crate::chars::{in_class, lemma_run_end, lemma_run_end_is, occurs_at, run_end, CharClass};
use crate::cycle::{joined, marker_text};
use crate::decimal::{decimal_text, digit_char, Reading};
use crate::laws::written::{
    is_decimal_text, is_unit_text, law_decimal_text_reads_back, law_metric_line_reads_back,
    law_time_marker_reads_back,
    lemma_digit_char, lemma_label_text, lemma_two_digits, text_reading, unit_keeps_label,
};
use crate::log::{
    clock_readings, label_readings, line_label_readings, line_times, lines_from, lines_of,
    series_of,
};
use crate::metric::{Series, TimeOfDay};
use crate::probe::{
    label_at, lemma_span_at, metric_line, probe_lines, span_at, span_line, spans_from, unsigned_end,
    Label, Span,
};

verus! {

/// Whether a line holds no line feed.
pub open spec fn no_line_feed(line: Seq<char>) -> bool {
    forall|j: int| 0 <= j < line.len() ==> #[trigger] line[j] != '\n'
}

/// A run in the second of two joined texts is the run in that text alone.
pub proof fn lemma_run_shift(p: Seq<char>, q: Seq<char>, k: int, c: CharClass)
    requires
        0 <= k <= q.len(),
    ensures
        run_end(p + q, p.len() + k, c) == p.len() + run_end(q, k, c),
    decreases q.len() - k,
{
    if k < q.len() {
        assert((p + q)[p.len() + k] == q[k]);
        if in_class(q[k], c) {
            lemma_run_shift(p, q, k + 1, c);
        }
    }
}

/// A run that ends inside the first of two joined texts is the run in that text alone.
pub proof fn lemma_run_kept(p: Seq<char>, q: Seq<char>, i: int, c: CharClass)
    requires
        0 <= i <= p.len(),
        run_end(p, i, c) < p.len(),
    ensures
        run_end(p + q, i, c) == run_end(p, i, c),
    decreases p.len() - i,
{
    if i < p.len() {
        assert((p + q)[i] == p[i]);
        if in_class(p[i], c) {
            lemma_run_kept(p, q, i + 1, c);
        }
    }
}

/// The lines in the second of two joined texts are the lines of that text alone.
pub proof fn lemma_lines_shift(p: Seq<char>, q: Seq<char>, k: int)
    requires
        0 <= k <= q.len(),
    ensures
        lines_from(p + q, p.len() + k) == lines_from(q, k),
    decreases q.len() - k,
{
    if k < q.len() {
        let e = run_end(q, k, CharClass::Inline);
        lemma_run_end(q, k, CharClass::Inline);
        lemma_run_shift(p, q, k, CharClass::Inline);
        assert((p + q).subrange(p.len() + k, p.len() + e) =~= q.subrange(k, e));
        if e < q.len() {
            lemma_lines_shift(p, q, e + 1);
        } else {
            lemma_lines_shift(p, q, q.len() as int);
        }
    }
}

/// Where the first of two joined texts is empty or ends with a line feed, the lines of the
/// whole are the lines of the first and then the lines of the second.
pub proof fn lemma_lines_closed(p: Seq<char>, q: Seq<char>, i: int)
    requires
        0 <= i <= p.len(),
        p.len() > 0 ==> p.last() == '\n',
    ensures
        lines_from(p + q, i) == lines_from(p, i) + lines_from(q, 0),
    decreases p.len() - i,
{
    if i == p.len() {
        lemma_lines_shift(p, q, 0);
        assert(lines_from(p, i) + lines_from(q, 0) =~= lines_from(q, 0));
    } else {
        let e = run_end(p, i, CharClass::Inline);
        lemma_run_end(p, i, CharClass::Inline);
        assert(e < p.len()) by {
            if e == p.len() {
                assert(in_class(p[p.len() - 1], CharClass::Inline));
            }
        }
        lemma_run_kept(p, q, i, CharClass::Inline);
        assert((p + q).subrange(i, e) =~= p.subrange(i, e));
        lemma_lines_closed(p, q, e + 1);
        assert(lines_from(p + q, i) =~= lines_from(p, i) + lines_from(q, 0));
    }
}

/// A line closed by a line feed is cut out as that one line.
pub proof fn lemma_single_line(line: Seq<char>)
    requires
        no_line_feed(line),
    ensures
        lines_of(line + seq!['\n']) == seq![line],
{
    let s = line + seq!['\n'];
    let n = line.len() as int;
    assert forall|j: int| 0 <= j < n implies in_class(
        #[trigger] s[j],
        CharClass::Inline,
    ) by {
        assert(s[j] == line[j]);
    }
    assert(s[n] == '\n');
    lemma_run_end_is(s, 0, n, CharClass::Inline);
    assert(s.subrange(0, n) =~= line);
    assert(lines_from(s, n + 1) =~= Seq::<Seq<char>>::empty());
    assert(lines_from(s, 0) =~= seq![line]);
}

/// What is appended to the log is cut into the same lines again: lines without line feeds,
/// written with a line feed behind each, are the lines of the text.
pub proof fn law_joined_lines_read_back(lines: Seq<Seq<char>>)
    requires
        forall|i: int| 0 <= i < lines.len() ==> no_line_feed(#[trigger] lines[i]),
    ensures
        lines_of(joined(lines)) == lines,
    decreases lines.len(),
{
    if lines.len() == 0 {
        assert(lines_of(joined(lines)) =~= lines);
    } else {
        let init = lines.drop_last();
        let last = lines.last();
        law_joined_lines_read_back(init);
        lemma_single_line(last);
        let p = joined(init);
        assert(p.len() > 0 ==> p.last() == '\n') by {
            if init.len() > 0 {
                assert(p == joined(init.drop_last()) + init.last() + seq!['\n']);
            }
        }
        assert(joined(lines) =~= p + (last + seq!['\n']));
        lemma_lines_closed(p, last + seq!['\n'], 0);
        assert(init + seq![last] =~= lines);
    }
}

/// A measurement line holds no line feed.
pub proof fn lemma_metric_line_plain(label: Label, value: Seq<char>, unit: Seq<char>)
    requires
        is_decimal_text(value),
        is_unit_text(unit),
    ensures
        no_line_feed(metric_line(label, value, unit)),
{
    let line = metric_line(label, value, unit);
    let n = label.text().len() as int;
    lemma_label_text(label);
    assert forall|j: int| 0 <= j < line.len() implies #[trigger] line[j] != '\n' by {
        if j < n {
            assert(line[j] == label.text()[j]);
        } else if j < n + 2 {
        } else if j < n + 2 + value.len() {
            assert(line[j] == value[j - n - 2]);
        } else if j == n + 2 + value.len() {
        } else {
            assert(line[j] == unit[j - n - 3 - value.len()]);
        }
    }
}

/// The line of a time of day holds no line feed.
pub proof fn lemma_marker_plain(t: TimeOfDay)
    requires
        t.two_digit(),
    ensures
        no_line_feed(marker_text(t)),
{
    let line = marker_text(t);
    lemma_digit_char((t.hour as nat) / 10);
    lemma_digit_char((t.hour as nat) % 10);
    lemma_digit_char((t.minute as nat) / 10);
    lemma_digit_char((t.minute as nat) % 10);
    lemma_two_digits(t.hour as nat);
    lemma_two_digits(t.minute as nat);
    assert(line.len() == 11);
    assert(line[0] == 'T' && line[1] == 'i' && line[2] == 'm' && line[3] == 'e' && line[4] == ':'
        && line[5] == ' ');
    assert(t.text().len() == 5);
    assert(forall|j: int| 0 <= j < 5 ==> line[6 + j] == t.text()[j]);
    assert(line[6] == digit_char((t.hour as nat) / 10) && line[7] == digit_char(
        (t.hour as nat) % 10,
    ) && line[8] == ':' && line[9] == digit_char((t.minute as nat) / 10) && line[10]
        == digit_char((t.minute as nat) % 10));
}

/// What four lines give is what each of them gives, one after the other.
pub proof fn lemma_four_lines(
    l0: Seq<char>,
    l1: Seq<char>,
    l2: Seq<char>,
    l3: Seq<char>,
    label: Label,
)
    ensures
        label_readings(seq![l0, l1, l2, l3], label) == line_label_readings(l0, label)
            + line_label_readings(l1, label) + line_label_readings(l2, label)
            + line_label_readings(l3, label),
        clock_readings(seq![l0, l1, l2, l3]) == line_times(l0) + line_times(l1) + line_times(l2)
            + line_times(l3),
{
    let a = seq![l0];
    let b = seq![l0, l1];
    let c = seq![l0, l1, l2];
    let d = seq![l0, l1, l2, l3];
    assert(a.drop_last() =~= Seq::<Seq<char>>::empty());
    assert(b.drop_last() =~= a);
    assert(c.drop_last() =~= b);
    assert(d.drop_last() =~= c);
    assert(label_readings(a.drop_last(), label) =~= Seq::<Reading>::empty());
    assert(label_readings(a, label) =~= line_label_readings(l0, label));
    assert(label_readings(b, label) =~= label_readings(a, label) + line_label_readings(l1, label));
    assert(label_readings(c, label) =~= label_readings(b, label) + line_label_readings(l2, label));
    assert(label_readings(d, label) =~= label_readings(c, label) + line_label_readings(l3, label));
    assert(clock_readings(a.drop_last()) =~= Seq::<TimeOfDay>::empty());
    assert(clock_readings(a) =~= line_times(l0));
    assert(clock_readings(b) =~= clock_readings(a) + line_times(l1));
    assert(clock_readings(c) =~= clock_readings(b) + line_times(l2));
    assert(clock_readings(d) =~= clock_readings(c) + line_times(l3));
}

/// One cycle is read back as it was written. The three measurement lines and the line of
/// the time of day, written with a line feed behind each, give the reader a record with
/// exactly the three numbers and the time: each number is the one that its text spells.
pub proof fn law_sample_reads_back(
    latency: Seq<char>,
    latency_unit: Seq<char>,
    download: Seq<char>,
    download_unit: Seq<char>,
    upload: Seq<char>,
    upload_unit: Seq<char>,
    t: TimeOfDay,
)
    requires
        is_decimal_text(latency),
        is_decimal_text(download),
        is_decimal_text(upload),
        is_unit_text(latency_unit),
        is_unit_text(download_unit),
        is_unit_text(upload_unit),
        unit_keeps_label(latency_unit, Label::Latency),
        unit_keeps_label(download_unit, Label::Download),
        unit_keeps_label(upload_unit, Label::Upload),
        t.two_digit(),
    ensures
        series_of(
            lines_of(
                joined(
                    seq![
                        metric_line(Label::Latency, latency, latency_unit),
                        metric_line(Label::Download, download, download_unit),
                        metric_line(Label::Upload, upload, upload_unit),
                        marker_text(t),
                    ],
                ),
            ),
        ) == (Series {
            latency: seq![text_reading(latency)],
            download: seq![text_reading(download)],
            upload: seq![text_reading(upload)],
            time: seq![t],
        }),
{
    let l0 = metric_line(Label::Latency, latency, latency_unit);
    let l1 = metric_line(Label::Download, download, download_unit);
    let l2 = metric_line(Label::Upload, upload, upload_unit);
    let l3 = marker_text(t);
    let lines = seq![l0, l1, l2, l3];
    lemma_metric_line_plain(Label::Latency, latency, latency_unit);
    lemma_metric_line_plain(Label::Download, download, download_unit);
    lemma_metric_line_plain(Label::Upload, upload, upload_unit);
    lemma_marker_plain(t);
    law_joined_lines_read_back(lines);
    law_metric_line_reads_back(Label::Latency, latency, latency_unit);
    law_metric_line_reads_back(Label::Download, download, download_unit);
    law_metric_line_reads_back(Label::Upload, upload, upload_unit);
    law_time_marker_reads_back(t);
    lemma_four_lines(l0, l1, l2, l3, Label::Latency);
    lemma_four_lines(l0, l1, l2, l3, Label::Download);
    lemma_four_lines(l0, l1, l2, l3, Label::Upload);
    let e = Seq::<Reading>::empty();
    assert(seq![text_reading(latency)] + e + e + e =~= seq![text_reading(latency)]);
    assert(e + seq![text_reading(download)] + e + e =~= seq![text_reading(download)]);
    assert(e + e + seq![text_reading(upload)] + e =~= seq![text_reading(upload)]);
    let n = Seq::<TimeOfDay>::empty();
    assert(n + n + n + seq![t] =~= seq![t]);
}

/// A sample with all its fields is read back exactly. Written as three measurement lines
/// and the line of the time of day, with a line feed behind each, the readings of latency,
/// download and upload and the time give the reader a record that holds exactly these
/// four values. The readings are not negative and have a digit behind the point; the
/// units keep their labels; the time has two digits in each part.
pub proof fn law_sample_values_read_back(
    latency: Reading,
    latency_unit: Seq<char>,
    download: Reading,
    download_unit: Seq<char>,
    upload: Reading,
    upload_unit: Seq<char>,
    t: TimeOfDay,
)
    requires
        !latency.negative && latency.scale >= 1,
        !download.negative && download.scale >= 1,
        !upload.negative && upload.scale >= 1,
        is_unit_text(latency_unit),
        is_unit_text(download_unit),
        is_unit_text(upload_unit),
        unit_keeps_label(latency_unit, Label::Latency),
        unit_keeps_label(download_unit, Label::Download),
        unit_keeps_label(upload_unit, Label::Upload),
        t.two_digit(),
    ensures
        series_of(
            lines_of(
                joined(
                    seq![
                        metric_line(Label::Latency, decimal_text(latency), latency_unit),
                        metric_line(Label::Download, decimal_text(download), download_unit),
                        metric_line(Label::Upload, decimal_text(upload), upload_unit),
                        marker_text(t),
                    ],
                ),
            ),
        ) == (Series {
            latency: seq![latency],
            download: seq![download],
            upload: seq![upload],
            time: seq![t],
        }),
{
    law_decimal_text_reads_back(latency);
    law_decimal_text_reads_back(download);
    law_decimal_text_reads_back(upload);
    law_sample_reads_back(
        decimal_text(latency),
        latency_unit,
        decimal_text(download),
        download_unit,
        decimal_text(upload),
        upload_unit,
        t,
    );
}

/// The lines for the measurements found from position `i` on.
pub open spec fn probe_lines_from(s: Seq<char>, i: int) -> Seq<Seq<char>> {
    spans_from(s, i).map_values(|m: Span| span_line(s, m))
}

/// The measurement `m`, moved `by` positions to the right.
pub open spec fn moved(m: Span, by: int) -> Span {
    Span {
        label: m.label,
        value_start: m.value_start + by,
        value_end: m.value_end + by,
        unit_start: m.unit_start + by,
        unit_end: m.unit_end + by,
    }
}

/// Whether the class `c` is one of those that a measurement is made of.
pub open spec fn in_measurement(c: CharClass) -> bool {
    c == CharClass::Blank || c == CharClass::Digit || c == CharClass::Word
}

/// A run of a class without the line feed, begun in a line, ends in that line.
pub proof fn lemma_run_in_line(a: Seq<char>, b: Seq<char>, j: int, c: CharClass)
    requires
        0 <= j <= a.len(),
        in_measurement(c),
    ensures
        run_end(a + seq!['\n'] + b, j, c) == run_end(a, j, c),
    decreases a.len() - j,
{
    let s = a + seq!['\n'] + b;
    if j < a.len() {
        assert(s[j] == a[j]);
        if in_class(a[j], c) {
            lemma_run_in_line(a, b, j + 1, c);
        }
    } else {
        assert(s[j] == '\n');
    }
}

/// A label word stands in a line wherever it stands in the text at a position of the line.
pub proof fn lemma_label_in_line(a: Seq<char>, b: Seq<char>, i: int, label: Label)
    requires
        0 <= i <= a.len(),
    ensures
        occurs_at(a + seq!['\n'] + b, i, label.text()) == occurs_at(a, i, label.text()),
{
    let s = a + seq!['\n'] + b;
    let p = label.text();
    lemma_label_text(label);
    if occurs_at(a, i, p) {
        assert forall|k: int| 0 <= k < p.len() implies s[i + k] == #[trigger] p[k] by {
            assert(s[i + k] == a[i + k]);
        }
    }
    if occurs_at(s, i, p) {
        if i + p.len() > a.len() {
            let k = a.len() - i;
            assert(s[i + k] == p[k]);
            assert(s[a.len() as int] == '\n');
            assert(false);
        }
        assert forall|k: int| 0 <= k < p.len() implies a[i + k] == #[trigger] p[k] by {
            assert(s[i + k] == a[i + k]);
        }
    }
}

/// A measurement that begins in a line is the measurement of that line alone.
pub proof fn lemma_span_in_line(a: Seq<char>, b: Seq<char>, i: int)
    requires
        0 <= i <= a.len(),
    ensures
        span_at(a + seq!['\n'] + b, i) == span_at(a, i),
{
    let s = a + seq!['\n'] + b;
    let n = a.len() as int;
    lemma_label_in_line(a, b, i, Label::Latency);
    lemma_label_in_line(a, b, i, Label::Download);
    lemma_label_in_line(a, b, i, Label::Upload);
    assert(label_at(s, i) == label_at(a, i));
    if label_at(a, i) is Some {
        let label = label_at(a, i)->0;
        let colon = i + label.text().len();
        assert(occurs_at(a, i, label.text()));
        assert(s[n] == '\n');
        if colon < n && a[colon] == ':' {
            assert(s[colon] == a[colon]);
            lemma_run_in_line(a, b, colon + 1, CharClass::Blank);
            let value_start = run_end(a, colon + 1, CharClass::Blank);
            lemma_run_end(a, colon + 1, CharClass::Blank);
            lemma_run_in_line(a, b, value_start, CharClass::Digit);
            let d = run_end(a, value_start, CharClass::Digit);
            lemma_run_end(a, value_start, CharClass::Digit);
            if d < n {
                assert(s[d] == a[d]);
                lemma_run_in_line(a, b, d + 1, CharClass::Digit);
                if d + 1 < n {
                    assert(s[d + 1] == a[d + 1]);
                }
                lemma_run_end(a, d + 1, CharClass::Digit);
            }
            assert(unsigned_end(s, value_start) == unsigned_end(a, value_start));
            let value_end = unsigned_end(a, value_start);
            lemma_run_in_line(a, b, value_end, CharClass::Blank);
            let unit_start = run_end(a, value_end, CharClass::Blank);
            lemma_run_end(a, value_end, CharClass::Blank);
            lemma_run_in_line(a, b, unit_start, CharClass::Word);
        } else if colon < n {
            assert(s[colon] == a[colon]);
        }
    }
}

/// A measurement behind a text is the measurement of what follows the text, moved.
pub proof fn lemma_span_shift(p: Seq<char>, b: Seq<char>, k: int)
    requires
        0 <= k <= b.len(),
    ensures
        span_at(p + b, p.len() + k) is Some == span_at(b, k) is Some,
        span_at(b, k) is Some ==> span_at(p + b, p.len() + k)->0 == moved(
            span_at(b, k)->0,
            p.len() as int,
        ),
{
    let s = p + b;
    let n = p.len() as int;
    assert forall|label: Label| occurs_at(s, n + k, #[trigger] label.text()) == occurs_at(
        b,
        k,
        label.text(),
    ) by {
        let w = label.text();
        if occurs_at(b, k, w) {
            assert forall|x: int| 0 <= x < w.len() implies s[n + k + x] == #[trigger] w[x] by {
                assert(s[n + k + x] == b[k + x]);
            }
        }
        if occurs_at(s, n + k, w) {
            assert forall|x: int| 0 <= x < w.len() implies b[k + x] == #[trigger] w[x] by {
                assert(s[n + k + x] == b[k + x]);
            }
        }
    }
    assert(occurs_at(s, n + k, Label::Latency.text()) == occurs_at(b, k, Label::Latency.text()));
    assert(occurs_at(s, n + k, Label::Download.text()) == occurs_at(
        b,
        k,
        Label::Download.text(),
    ));
    assert(occurs_at(s, n + k, Label::Upload.text()) == occurs_at(b, k, Label::Upload.text()));
    assert(label_at(s, n + k) == label_at(b, k));
    if label_at(b, k) is Some {
        let label = label_at(b, k)->0;
        let colon = k + label.text().len();
        assert(occurs_at(b, k, label.text()));
        if colon < b.len() {
            assert(s[n + colon] == b[colon]);
            lemma_run_shift(p, b, colon + 1, CharClass::Blank);
            let value_start = run_end(b, colon + 1, CharClass::Blank);
            lemma_run_end(b, colon + 1, CharClass::Blank);
            lemma_run_shift(p, b, value_start, CharClass::Digit);
            let d = run_end(b, value_start, CharClass::Digit);
            lemma_run_end(b, value_start, CharClass::Digit);
            if d < b.len() {
                assert(s[n + d] == b[d]);
                lemma_run_shift(p, b, d + 1, CharClass::Digit);
                lemma_run_end(b, d + 1, CharClass::Digit);
                if d + 1 < b.len() {
                    assert(s[n + d + 1] == b[d + 1]);
                }
            }
            assert(unsigned_end(s, n + value_start) == n + unsigned_end(b, value_start));
            let value_end = unsigned_end(b, value_start);
            lemma_run_shift(p, b, value_end, CharClass::Blank);
            let unit_start = run_end(b, value_end, CharClass::Blank);
            lemma_run_end(b, value_end, CharClass::Blank);
            lemma_run_shift(p, b, unit_start, CharClass::Word);
        }
    }
}

/// The measurement lines found behind a text are those of what follows the text.
pub proof fn lemma_probe_lines_shift(p: Seq<char>, b: Seq<char>, k: int)
    requires
        0 <= k <= b.len(),
    ensures
        probe_lines_from(p + b, p.len() + k) == probe_lines_from(b, k),
    decreases b.len() - k,
{
    let s = p + b;
    let n = p.len() as int;
    if k < b.len() {
        lemma_span_shift(p, b, k);
        match span_at(b, k) {
            Some(m) => {
                lemma_span_at(b, k);
                let moved_m = moved(m, n);
                assert(s.subrange(moved_m.value_start, moved_m.value_end) =~= b.subrange(
                    m.value_start,
                    m.value_end,
                ));
                assert(s.subrange(moved_m.unit_start, moved_m.unit_end) =~= b.subrange(
                    m.unit_start,
                    m.unit_end,
                ));
                assert(span_line(s, moved_m) == span_line(b, m));
                lemma_probe_lines_shift(p, b, m.unit_end);
                assert(spans_from(s, n + k) == seq![moved_m] + spans_from(s, n + m.unit_end));
                assert(spans_from(b, k) == seq![m] + spans_from(b, m.unit_end));
                assert(probe_lines_from(s, n + k) =~= seq![span_line(s, moved_m)]
                    + probe_lines_from(s, n + m.unit_end));
                assert(probe_lines_from(b, k) =~= seq![span_line(b, m)] + probe_lines_from(
                    b,
                    m.unit_end,
                ));
            },
            None => {
                lemma_probe_lines_shift(p, b, k + 1);
            },
        }
    } else {
        assert(probe_lines_from(s, n + k) =~= probe_lines_from(b, k));
    }
}

/// The measurement lines found from a position of a line on are those of the rest of the
/// line, and then those of the text behind the line feed.
pub proof fn lemma_probe_lines_in_line(a: Seq<char>, b: Seq<char>, i: int)
    requires
        0 <= i <= a.len(),
    ensures
        probe_lines_from(a + seq!['\n'] + b, i) == probe_lines_from(a, i) + probe_lines_from(
            b,
            0,
        ),
    decreases a.len() - i,
{
    let s = a + seq!['\n'] + b;
    let n = a.len() as int;
    lemma_span_in_line(a, b, i);
    if i == n {
        assert(s[n] == '\n');
        lemma_label_text(Label::Latency);
        lemma_label_text(Label::Download);
        lemma_label_text(Label::Upload);
        assert(span_at(s, n) is None);
        lemma_probe_lines_shift(a + seq!['\n'], b, 0);
        assert(spans_from(s, n) == spans_from(s, n + 1));
        assert(probe_lines_from(a, i) =~= Seq::<Seq<char>>::empty());
        assert(probe_lines_from(s, i) =~= probe_lines_from(a, i) + probe_lines_from(b, 0));
    } else {
        match span_at(a, i) {
            Some(m) => {
                lemma_span_at(a, i);
                assert(s.subrange(m.value_start, m.value_end) =~= a.subrange(
                    m.value_start,
                    m.value_end,
                ));
                assert(s.subrange(m.unit_start, m.unit_end) =~= a.subrange(
                    m.unit_start,
                    m.unit_end,
                ));
                assert(span_line(s, m) == span_line(a, m));
                lemma_probe_lines_in_line(a, b, m.unit_end);
                assert(spans_from(s, i) == seq![m] + spans_from(s, m.unit_end));
                assert(spans_from(a, i) == seq![m] + spans_from(a, m.unit_end));
                assert(probe_lines_from(s, i) =~= seq![span_line(s, m)] + probe_lines_from(
                    s,
                    m.unit_end,
                ));
                assert(probe_lines_from(a, i) =~= seq![span_line(a, m)] + probe_lines_from(
                    a,
                    m.unit_end,
                ));
            },
            None => {
                lemma_probe_lines_in_line(a, b, i + 1);
            },
        }
    }
}

/// No measurement reaches over a line feed: what a text gives is what its first part
/// gives, and then what the part behind the line feed gives. So the measurements of a
/// text are those of its lines, line after line.
pub proof fn law_probe_lines_by_line(a: Seq<char>, b: Seq<char>)
    ensures
        probe_lines(a + seq!['\n'] + b) == probe_lines(a) + probe_lines(b),
{
    lemma_probe_lines_in_line(a, b, 0);
}

} // verus!

//! Laws of writing and reading back: what is written for a measurement, a number or a
//! time of day is read back as the same.

use vstd::arithmetic::div_mod::{lemma_fundamental_div_mod, lemma_fundamental_div_mod_converse};
use vstd::prelude::*;

use crate::chars::{
    contains, in_class, is_digit, is_word, lemma_run_end, lemma_run_end_is, occurs_at, run_end,
    CharClass,
};
use crate::cycle::{marker_text, writes};
use crate::decimal::{
    decimal_text, digit_char, digit_value, digits_of, digits_value, last_digits, lemma_pow10_grows,
    pow10, two_digits, Reading,
};
use crate::laws::order::lemma_no_decimal_no_reading;
use crate::log::{
    ahead, clock_at, clock_from, digits_start, line_clock, line_label_readings, line_readings,
    line_times, number_end, point_at, reading_at, readings_from,
};
use crate::metric::TimeOfDay;
use crate::probe::{label_in, lemma_span_at, metric_line, span_at, unsigned_end, Label};

verus! {

/// Whether `v` is a number as a measurement line holds it with a point: digits, a point,
/// digits, with the point at position `k`.
pub open spec fn decimal_with_point(v: Seq<char>, k: int) -> bool {
    &&& 0 < k < v.len() - 1
    &&& v[k] == '.'
    &&& forall|j: int| 0 <= j < v.len() && j != k ==> is_digit(#[trigger] v[j])
}

/// Whether `v` is a number without sign that holds a point: at least one digit, a point,
/// at least one digit.
pub open spec fn is_decimal_text(v: Seq<char>) -> bool {
    exists|k: int| decimal_with_point(v, k)
}

/// Whether `u` can be the unit of a measurement line: word characters, at least one.
pub open spec fn is_unit_text(u: Seq<char>) -> bool {
    u.len() > 0 && forall|j: int| 0 <= j < u.len() ==> is_word(#[trigger] u[j])
}

/// Whether a line that holds the word of `a` is taken for `a` even where it also holds the
/// word of `b`.
pub open spec fn outranks(a: Label, b: Label) -> bool {
    match (a, b) {
        (Label::Latency, Label::Download) => true,
        (Label::Latency, Label::Upload) => true,
        (Label::Download, Label::Upload) => true,
        _ => false,
    }
}

/// Whether the unit `u` holds no label word that a reader would take before `label`.
pub open spec fn unit_keeps_label(u: Seq<char>, label: Label) -> bool {
    forall|other: Label| outranks(other, label) ==> !contains(u, #[trigger] other.text())
}

/// The number that the text `v` spells.
pub open spec fn text_reading(v: Seq<char>) -> Reading {
    reading_at(v, 0, v.len() as int)
}

/// What the word of a label is made of: six to eight letters.
pub proof fn lemma_label_text(label: Label)
    ensures
        label.text().len() == match label {
            Label::Latency => 7nat,
            Label::Download => 8nat,
            Label::Upload => 6nat,
        },
        forall|j: int|
            0 <= j < label.text().len() ==> {
                let c = #[trigger] label.text()[j];
                ('a' <= c <= 'z') || ('A' <= c <= 'Z')
            },
        label.text()[0] == match label {
            Label::Latency => 'L',
            Label::Download => 'D',
            Label::Upload => 'U',
        },
        forall|j: int| 0 < j < label.text().len() ==> 'a' <= #[trigger] label.text()[j] <= 'z',
{
    reveal_strlit("Latency");
    reveal_strlit("Download");
    reveal_strlit("Upload");
}

/// Characters that can neither begin nor continue a number are passed over.
pub proof fn lemma_plain_passed(s: Seq<char>, i: int, a: int)
    requires
        0 <= i <= a <= s.len(),
        forall|j: int| i <= j < a ==> #[trigger] s[j] != '-' && !is_digit(s[j]) && s[j] != '.',
    ensures
        readings_from(s, i) == readings_from(s, a),
    decreases a - i,
{
    if i < a {
        assert(digits_start(s, i) == i);
        assert(point_at(s, i) == i);
        assert(number_end(s, i) is None);
        lemma_plain_passed(s, i + 1, a);
    }
}

/// A measurement line holds no word of a label that outranks its own.
pub proof fn lemma_line_keeps_label(label: Label, value: Seq<char>, unit: Seq<char>)
    requires
        is_decimal_text(value),
        unit_keeps_label(unit, label),
    ensures
        label_in(metric_line(label, value, unit)) == Some(label),
{
    let line = metric_line(label, value, unit);
    let n = label.text().len() as int;
    let b = n + 2 + value.len();
    lemma_label_text(label);
    assert(occurs_at(line, 0, label.text()));
    assert forall|other: Label| outranks(other, label) implies !contains(
        line,
        #[trigger] other.text(),
    ) by {
        lemma_label_text(other);
        let p = other.text();
        assert forall|j: int| !occurs_at(line, j, p) by {
            if occurs_at(line, j, p) {
                assert(line[j + 0] == p[0]);
                if j <= b {
                    if j < n {
                        assert(line[j] == label.text()[j]);
                    } else if j < n + 2 {
                    } else if j < b {
                        assert(line[j] == value[j - n - 2]);
                    } else {
                    }
                    assert(false);
                } else {
                    let at = j - b - 1;
                    assert forall|x: int| 0 <= x < p.len() implies unit[at + x] == #[trigger] p[x] by {
                        assert(line[j + x] == p[x]);
                        assert(line[j + x] == unit[at + x]);
                    }
                    assert(occurs_at(unit, at, p));
                    assert(false);
                }
            }
        }
    }
    assert(!outranks(Label::Upload, label));
    match label {
        Label::Latency => {},
        Label::Download => {
            assert(outranks(Label::Latency, label));
        },
        Label::Upload => {
            assert(outranks(Label::Latency, label));
            assert(outranks(Label::Download, label));
        },
    }
}

/// The one number of a measurement line is the number of its value.
pub proof fn lemma_line_reading(label: Label, value: Seq<char>, unit: Seq<char>)
    requires
        is_decimal_text(value),
        is_unit_text(unit),
    ensures
        line_readings(metric_line(label, value, unit)) == seq![text_reading(value)],
{
    let line = metric_line(label, value, unit);
    let n = label.text().len() as int;
    let a = n + 2;
    let b = a + value.len();
    let k = choose|k: int| decimal_with_point(value, k);
    lemma_label_text(label);
    assert forall|j: int| 0 <= j < a implies #[trigger] line[j] != '-' && !is_digit(line[j])
        && line[j] != '.' by {
        if j < n {
            assert(line[j] == label.text()[j]);
        }
    }
    lemma_plain_passed(line, 0, a);
    assert forall|j: int| a <= j < b implies line[j] == value[j - a] by {}
    assert(line[b] == ' ');
    assert(digits_start(line, a) == a) by {
        assert(line[a] == value[0]);
    }
    assert forall|j: int| a <= j < a + k implies in_class(
        #[trigger] line[j],
        CharClass::Digit,
    ) by {
        assert(line[j] == value[j - a]);
    }
    assert(line[a + k] == value[k]);
    lemma_run_end_is(line, a, a + k, CharClass::Digit);
    assert forall|j: int| a + k + 1 <= j < b implies in_class(
        #[trigger] line[j],
        CharClass::Digit,
    ) by {
        assert(line[j] == value[j - a]);
    }
    lemma_run_end_is(line, a + k + 1, b, CharClass::Digit);
    assert(line[a + k + 1] == value[k + 1]);
    assert(number_end(line, a) == Some(b));
    assert(ahead(line, a, b) == b);
    assert(digits_start(value, 0) == 0);
    assert forall|j: int| 0 <= j < k implies in_class(
        #[trigger] value[j],
        CharClass::Digit,
    ) by {}
    lemma_run_end_is(value, 0, k, CharClass::Digit);
    assert(line.subrange(a, b) =~= value);
    assert(value.subrange(0, value.len() as int) =~= value);
    assert(reading_at(line, a, b) == text_reading(value));
    assert forall|j: int| b <= j && j + 1 < line.len() implies !(#[trigger] line[j] == '.'
        && is_digit(line[j + 1])) by {
        if j > b {
            assert(line[j] == unit[j - b - 1]);
        }
    }
    lemma_no_decimal_no_reading(line, b);
    assert(readings_from(line, a) =~= seq![text_reading(value)]);
}

/// A measurement line is read back as it was written: a line written from a label, a
/// number with a point and a unit gives the reader that number, for that label, and
/// nothing else.
pub proof fn law_metric_line_reads_back(label: Label, value: Seq<char>, unit: Seq<char>)
    requires
        is_decimal_text(value),
        is_unit_text(unit),
        unit_keeps_label(unit, label),
    ensures
        line_label_readings(metric_line(label, value, unit), label) == seq![text_reading(value)],
        forall|other: Label|
            other != label ==> #[trigger] line_label_readings(
                metric_line(label, value, unit),
                other,
            ) == Seq::<Reading>::empty(),
        line_times(metric_line(label, value, unit)) == Seq::<TimeOfDay>::empty(),
{
    lemma_line_keeps_label(label, value, unit);
    lemma_line_reading(label, value, unit);
}

/// The character of a digit is a digit, and stands for it.
pub proof fn lemma_digit_char(d: nat)
    requires
        d <= 9,
    ensures
        is_digit(digit_char(d)),
        digit_value(digit_char(d)) == d,
{
}

/// A number below a hundred is written with exactly two digits.
pub proof fn lemma_two_digits(n: nat)
    requires
        n <= 99,
    ensures
        two_digits(n) == seq![digit_char(n / 10), digit_char(n % 10)],
{
    if n >= 10 {
        assert(digits_of(n / 10) == seq![digit_char(n / 10)]);
        assert(digits_of(n) =~= seq![digit_char(n / 10), digit_char(n % 10)]);
    }
}

/// Characters that are no digits cannot begin a time of day.
pub proof fn lemma_clock_passed(s: Seq<char>, i: int, a: int)
    requires
        0 <= i <= a <= s.len(),
        forall|j: int| i <= j < a ==> !is_digit(#[trigger] s[j]),
    ensures
        clock_from(s, i) == clock_from(s, a),
    decreases a - i,
{
    if i < a {
        assert(clock_at(s, i) is None);
        lemma_clock_passed(s, i + 1, a);
    }
}

/// The line of a time of day is read back as it was written: it gives the reader that
/// time, and no reading.
pub proof fn law_time_marker_reads_back(t: TimeOfDay)
    requires
        t.two_digit(),
    ensures
        line_times(marker_text(t)) == seq![t],
        forall|label: Label| #[trigger]
            line_label_readings(marker_text(t), label) == Seq::<Reading>::empty(),
{
    let line = marker_text(t);
    let h = t.hour as nat;
    let m = t.minute as nat;
    lemma_digit_char(h / 10);
    lemma_digit_char(h % 10);
    lemma_digit_char(m / 10);
    lemma_digit_char(m % 10);
    lemma_two_digits(h);
    lemma_two_digits(m);
    assert(line.len() == 11);
    assert(line[0] == 'T' && line[1] == 'i' && line[2] == 'm' && line[3] == 'e' && line[4] == ':'
        && line[5] == ' ');
    assert(t.text().len() == 5);
    assert(forall|j: int| 0 <= j < 5 ==> line[6 + j] == t.text()[j]);
    assert(line[6] == digit_char(h / 10) && line[7] == digit_char(h % 10) && line[8] == ':'
        && line[9] == digit_char(m / 10) && line[10] == digit_char(m % 10));
    assert forall|label: Label| !contains(line, #[trigger] label.text()) by {
        lemma_label_text(label);
        let p = label.text();
        assert forall|j: int| !occurs_at(line, j, p) by {
            if occurs_at(line, j, p) {
                assert(line[j + 0] == p[0]);
                assert(0 <= j < 11);
                assert(false);
            }
        }
    }
    assert(!contains(line, Label::Latency.text()));
    assert(!contains(line, Label::Download.text()));
    assert(!contains(line, Label::Upload.text()));
    assert(label_in(line) is None);
    lemma_clock_passed(line, 0, 6);
    assert(clock_at(line, 6) == Some(t));
    assert(line_clock(line) == Some(t));
}

/// Whether all characters of `t` are digits.
pub open spec fn all_digits(t: Seq<char>) -> bool {
    forall|j: int| 0 <= j < t.len() ==> is_digit(#[trigger] t[j])
}

/// The digits of a number are digits, at least one, and spell the number.
pub proof fn lemma_digits_of(n: nat)
    ensures
        digits_of(n).len() >= 1,
        all_digits(digits_of(n)),
        digits_value(digits_of(n)) == n,
    decreases n,
{
    lemma_digit_char(n % 10);
    if n < 10 {
        let t = digits_of(n);
        assert(t.drop_last() =~= Seq::<char>::empty());
        assert(digits_value(t.drop_last()) == 0);
    } else {
        lemma_digits_of(n / 10);
        let t = digits_of(n);
        assert(t.drop_last() =~= digits_of(n / 10));
        assert(t.last() == digit_char(n % 10));
    }
}

/// The last digits of a number are as many digits as asked for. Written behind a text,
/// they move what the text spells to the left and add the number, as far as they hold it.
pub proof fn lemma_last_digits(x: Seq<char>, n: nat, width: nat)
    ensures
        last_digits(n, width).len() == width,
        all_digits(last_digits(n, width)),
        digits_value(x + last_digits(n, width)) == digits_value(x) * pow10(width) + n % pow10(
            width,
        ),
    decreases width,
{
    if width == 0 {
        assert(x + last_digits(n, width) =~= x);
        assert(digits_value(x) * 1 == digits_value(x)) by (nonlinear_arith);
    } else {
        let w = (width - 1) as nat;
        lemma_last_digits(x, n / 10, w);
        lemma_digit_char(n % 10);
        lemma_pow10_grows(0, w);
        let t = x + last_digits(n, width);
        assert(t.drop_last() =~= x + last_digits(n / 10, w));
        assert(t.last() == digit_char(n % 10));
        let q = n / 10;
        let r0 = n % 10;
        let p = pow10(w);
        let qd = q / p;
        let qm = q % p;
        let low = qm * 10 + r0;
        let dx = digits_value(x);
        lemma_fundamental_div_mod(q as int, p as int);
        assert(n == 10 * q + r0);
        assert(q == p * qd + qm);
        assert(qm < p);
        assert(n == (10 * p) * qd + low) by (nonlinear_arith)
            requires
                n == 10 * q + r0,
                q == p * qd + qm,
                low == qm * 10 + r0,
        ;
        assert(low < 10 * p) by (nonlinear_arith)
            requires
                qm < p,
                r0 < 10,
                low == qm * 10 + r0,
        ;
        lemma_fundamental_div_mod_converse(n as int, (10 * p) as int, qd as int, low as int);
        assert(pow10(width) == 10 * p);
        assert((dx * p + qm) * 10 + r0 == dx * (10 * p) + low) by (nonlinear_arith)
            requires
                low == qm * 10 + r0,
        ;
    }
}

/// A character that is no digit, written before a text, adds nothing to what it spells.
pub proof fn lemma_plain_before(c: char, t: Seq<char>)
    requires
        !is_digit(c),
    ensures
        digits_value(seq![c] + t) == digits_value(t),
    decreases t.len(),
{
    let s = seq![c] + t;
    if t.len() == 0 {
        assert(s.drop_last() =~= Seq::<char>::empty());
        assert(digits_value(s.drop_last()) == 0);
    } else {
        lemma_plain_before(c, t.drop_last());
        assert(s.drop_last() =~= seq![c] + t.drop_last());
        assert(s.last() == t.last());
    }
}

/// Where the digits before the point begin in the text of a decimal number.
pub open spec fn whole_start(r: Reading) -> int {
    if r.negative {
        1
    } else {
        0
    }
}

/// Where the point stands in the text of a decimal number.
pub open spec fn point_place(r: Reading) -> int {
    whole_start(r) + digits_of(r.magnitude / pow10(r.scale)).len()
}

/// The parts of the text of a decimal number: a minus sign or nothing, digits, at least
/// one, the point, and as many digits as the scale says.
pub proof fn lemma_text_parts(r: Reading)
    requires
        r.scale >= 1,
    ensures
        whole_start(r) < point_place(r),
        decimal_text(r).len() == point_place(r) + 1 + r.scale,
        r.negative ==> decimal_text(r)[0] == '-',
        decimal_text(r)[point_place(r)] == '.',
        forall|j: int|
            whole_start(r) <= j < decimal_text(r).len() && j != point_place(r) ==> is_digit(
                #[trigger] decimal_text(r)[j],
            ),
{
    let text = decimal_text(r);
    let whole = digits_of(r.magnitude / pow10(r.scale));
    let part = last_digits(r.magnitude, r.scale);
    let sign: Seq<char> = if r.negative {
        seq!['-']
    } else {
        Seq::empty()
    };
    let a = whole_start(r);
    let b = point_place(r);
    lemma_digits_of(r.magnitude / pow10(r.scale));
    lemma_last_digits(Seq::empty(), r.magnitude, r.scale);
    assert(text =~= sign + whole + seq!['.'] + part);
    assert forall|j: int| a <= j < text.len() && j != b implies is_digit(#[trigger] text[j]) by {
        if j < b {
            assert(text[j] == whole[j - a]);
        } else {
            assert(text[j] == part[j - b - 1]);
        }
    }
}

/// The digits of the text of a decimal number spell its magnitude.
pub proof fn lemma_text_value(r: Reading)
    requires
        r.scale >= 1,
    ensures
        digits_value(decimal_text(r)) == r.magnitude,
{
    let text = decimal_text(r);
    let p = pow10(r.scale);
    let whole = digits_of(r.magnitude / p);
    let part = last_digits(r.magnitude, r.scale);
    let sign: Seq<char> = if r.negative {
        seq!['-']
    } else {
        Seq::empty()
    };
    let head = sign + whole + seq!['.'];
    lemma_pow10_grows(0, r.scale);
    lemma_digits_of(r.magnitude / p);
    lemma_last_digits(head, r.magnitude, r.scale);
    assert(text =~= head + part);
    assert(head.drop_last() =~= sign + whole);
    assert(digits_value(head) == digits_value(sign + whole));
    if r.negative {
        lemma_plain_before('-', whole);
    } else {
        assert(sign + whole =~= whole);
    }
    let q = r.magnitude / p;
    let low = r.magnitude % p;
    lemma_fundamental_div_mod(r.magnitude as int, p as int);
    assert(q * p + low == r.magnitude) by (nonlinear_arith)
        requires
            r.magnitude == p * q + low,
    ;
}

/// A decimal number is read back from its text: the text of a number with at least one
/// digit behind the point spells that number, with its sign and its scale.
pub proof fn law_decimal_text_reads_back(r: Reading)
    requires
        r.scale >= 1,
    ensures
        text_reading(decimal_text(r)) == r,
        !r.negative ==> is_decimal_text(decimal_text(r)),
{
    let text = decimal_text(r);
    let a = whole_start(r);
    let b = point_place(r);
    let n = text.len() as int;
    lemma_text_parts(r);
    lemma_text_value(r);
    assert(is_digit(text[a]));
    assert(digits_start(text, 0) == a);
    assert forall|j: int| a <= j < b implies in_class(#[trigger] text[j], CharClass::Digit) by {}
    assert forall|j: int| b + 1 <= j < n implies in_class(#[trigger] text[j], CharClass::Digit) by {}
    lemma_run_end_is(text, a, b, CharClass::Digit);
    lemma_run_end_is(text, b + 1, n, CharClass::Digit);
    assert(is_digit(text[b + 1]));
    assert(text.subrange(0, n) =~= text);
    assert(number_end(text, 0) == Some(n));
    if !r.negative {
        assert(decimal_with_point(text, b));
    }
}

/// A measurement is read back from the line written for it: the line of a label, the
/// text of a number that is not negative and has a digit behind its point, and a unit
/// gives the reader exactly that number, for that label.
pub proof fn law_measurement_reads_back(label: Label, r: Reading, unit: Seq<char>)
    requires
        !r.negative,
        r.scale >= 1,
        is_unit_text(unit),
        unit_keeps_label(unit, label),
    ensures
        line_label_readings(metric_line(label, decimal_text(r), unit), label) == seq![r],
{
    law_decimal_text_reads_back(r);
    law_metric_line_reads_back(label, decimal_text(r), unit);
}

/// What the probe scanner takes for a measurement has the shape of a measurement line:
/// the number is made of digits, with or without a point between them, and the unit of
/// word characters. So a line that the scanner writes is read back whenever its number
/// has a point and its unit keeps the label.
pub proof fn law_found_measurement_shape(s: Seq<char>, i: int)
    requires
        span_at(s, i) is Some,
    ensures
        ({
            let m = span_at(s, i)->0;
            let value = s.subrange(m.value_start, m.value_end);
            let unit = s.subrange(m.unit_start, m.unit_end);
            &&& is_unit_text(unit)
            &&& value.len() > 0
            &&& is_decimal_text(value) || all_digits(value)
        }),
{
    lemma_span_at(s, i);
    let m = span_at(s, i)->0;
    let value = s.subrange(m.value_start, m.value_end);
    let unit = s.subrange(m.unit_start, m.unit_end);
    let d = run_end(s, m.value_start, CharClass::Digit);
    lemma_run_end(s, m.value_start, CharClass::Digit);
    lemma_run_end(s, m.unit_start, CharClass::Word);
    assert(m.value_end == unsigned_end(s, m.value_start));
    assert forall|j: int| 0 <= j < unit.len() implies is_word(#[trigger] unit[j]) by {
        assert(in_class(s[m.unit_start + j], CharClass::Word));
    }
    if m.value_end == d {
        assert forall|j: int| 0 <= j < value.len() implies is_digit(#[trigger] value[j]) by {
            assert(in_class(s[m.value_start + j], CharClass::Digit));
        }
    } else {
        lemma_run_end(s, d + 1, CharClass::Digit);
        let k = d - m.value_start;
        assert forall|j: int| 0 <= j < value.len() && j != k implies is_digit(
            #[trigger] value[j],
        ) by {
            assert(in_class(s[m.value_start + j], CharClass::Digit));
        }
        assert(value[k] == '.');
        assert(decimal_with_point(value, k));
    }
}

} // verus!

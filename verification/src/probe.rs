//! Reading the text that one run of the probe prints: every stretch of the shape
//! `<Label>:<blanks><number><blanks><unit>` becomes one line `<Label>: <number> <unit>`.

use vstd::prelude::*;

use crate::chars::{
    contains, has_at, lemma_run_end, occurs_at, run_end, skip_run, texts, to_chars, CharClass,
};

verus! {

/// The three measurements that the probe reports.
#[derive(Clone, Copy, Debug, PartialEq, Eq, Structural)]
pub enum Label {
    Latency,
    Download,
    Upload,
}

impl Label {
    /// The word by which the measurement is written.
    pub open spec fn text(self) -> Seq<char> {
        match self {
            Label::Latency => "Latency"@,
            Label::Download => "Download"@,
            Label::Upload => "Upload"@,
        }
    }

    /// The word by which the measurement is written.
    pub fn name(self) -> (s: &'static str)
        ensures
            s@ == self.text(),
    {
        match self {
            Label::Latency => "Latency",
            Label::Download => "Download",
            Label::Upload => "Upload",
        }
    }
}

/// One recognized measurement inside a text: its label and where its number and its unit stand.
pub ghost struct Span {
    pub label: Label,
    pub value_start: int,
    pub value_end: int,
    pub unit_start: int,
    pub unit_end: int,
}

/// The label whose word stands in `s` at position `i`, if one does.
pub open spec fn label_at(s: Seq<char>, i: int) -> Option<Label> {
    if occurs_at(s, i, Label::Latency.text()) {
        Some(Label::Latency)
    } else if occurs_at(s, i, Label::Download.text()) {
        Some(Label::Download)
    } else if occurs_at(s, i, Label::Upload.text()) {
        Some(Label::Upload)
    } else {
        None
    }
}

/// The end of the number that starts at `i`: a run of digits, then, where a point and
/// a digit follow, the point and the run of digits behind it. `i` where no digit stands.
pub open spec fn unsigned_end(s: Seq<char>, i: int) -> int {
    let d = run_end(s, i, CharClass::Digit);
    if d > i && d + 1 < s.len() && s[d] == '.' && crate::chars::is_digit(s[d + 1]) {
        run_end(s, d + 1, CharClass::Digit)
    } else {
        d
    }
}

/// The measurement that starts at position `i` of `s`: a label, a colon, any blanks,
/// a number without sign, at least one blank, and a unit of at least one word character.
/// Each part is taken as long as it can be.
pub open spec fn span_at(s: Seq<char>, i: int) -> Option<Span> {
    match label_at(s, i) {
        None => None,
        Some(label) => {
            let colon = i + label.text().len();
            let value_start = run_end(s, colon + 1, CharClass::Blank);
            let value_end = unsigned_end(s, value_start);
            let unit_start = run_end(s, value_end, CharClass::Blank);
            let unit_end = run_end(s, unit_start, CharClass::Word);
            if colon < s.len() && s[colon] == ':' && value_start < value_end && value_end
                < unit_start && unit_start < unit_end {
                Some(Span { label, value_start, value_end, unit_start, unit_end })
            } else {
                None
            }
        },
    }
}

/// The measurements found from position `i` on, scanning to the right: the search goes on
/// behind a measurement that was found, and one position further where none starts.
pub open spec fn spans_from(s: Seq<char>, i: int) -> Seq<Span>
    decreases s.len() - i,
{
    if i < 0 || i >= s.len() {
        Seq::empty()
    } else {
        match span_at(s, i) {
            Some(m) => seq![m] + spans_from(
                s,
                if i < m.unit_end <= s.len() {
                    m.unit_end
                } else {
                    i + 1
                },
            ),
            None => spans_from(s, i + 1),
        }
    }
}

/// The line written for a measurement: label, colon, one space, number, one space, unit.
pub open spec fn metric_line(label: Label, value: Seq<char>, unit: Seq<char>) -> Seq<char> {
    label.text() + seq![':', ' '] + value + seq![' '] + unit
}

/// The line written for the measurement `m` of the text `s`, with number and unit as they
/// stand in `s`.
pub open spec fn span_line(s: Seq<char>, m: Span) -> Seq<char> {
    metric_line(
        m.label,
        s.subrange(m.value_start, m.value_end),
        s.subrange(m.unit_start, m.unit_end),
    )
}

/// The lines for all measurements of the text `s`, in the order in which they stand in it.
pub open spec fn probe_lines(s: Seq<char>) -> Seq<Seq<char>> {
    spans_from(s, 0).map_values(|m: Span| span_line(s, m))
}

/// The parts of a measurement follow each other inside the text, and none is empty.
pub proof fn lemma_span_at(s: Seq<char>, i: int)
    requires
        span_at(s, i) is Some,
    ensures
        ({
            let m = span_at(s, i)->0;
            &&& 0 <= i < m.value_start < m.value_end < m.unit_start < m.unit_end <= s.len()
            &&& occurs_at(s, i, m.label.text())
        }),
{
    let label = label_at(s, i)->0;
    let colon = i + label.text().len();
    let value_start = run_end(s, colon + 1, CharClass::Blank);
    lemma_run_end(s, colon + 1, CharClass::Blank);
    lemma_run_end(s, value_start, CharClass::Digit);
    let d = run_end(s, value_start, CharClass::Digit);
    if d + 1 < s.len() {
        lemma_run_end(s, d + 1, CharClass::Digit);
    }
    let value_end = unsigned_end(s, value_start);
    lemma_run_end(s, value_end, CharClass::Blank);
    let unit_start = run_end(s, value_end, CharClass::Blank);
    lemma_run_end(s, unit_start, CharClass::Word);
}

/// The three label words, held as characters for searching.
pub struct LabelWords {
    pub latency: Vec<char>,
    pub download: Vec<char>,
    pub upload: Vec<char>,
}

impl LabelWords {
    /// Each field holds the word of its label.
    pub open spec fn wf(&self) -> bool {
        &&& self.latency@ == Label::Latency.text()
        &&& self.download@ == Label::Download.text()
        &&& self.upload@ == Label::Upload.text()
    }

    /// Spells out the three label words.
    pub fn new() -> (w: Self)
        ensures
            w.wf(),
    {
        LabelWords {
            latency: to_chars(Label::Latency.name()),
            download: to_chars(Label::Download.name()),
            upload: to_chars(Label::Upload.name()),
        }
    }

    /// The characters of the word of `label`.
    pub fn word(&self, label: Label) -> (w: &Vec<char>)
        requires
            self.wf(),
        ensures
            w@ == label.text(),
    {
        match label {
            Label::Latency => &self.latency,
            Label::Download => &self.download,
            Label::Upload => &self.upload,
        }
    }

    /// Finds the label whose word stands in `s` at position `i`.
    pub fn find_at(&self, s: &Vec<char>, i: usize) -> (r: Option<Label>)
        requires
            self.wf(),
        ensures
            r == label_at(s@, i as int),
    {
        if has_at(s, i, &self.latency) {
            Some(Label::Latency)
        } else if has_at(s, i, &self.download) {
            Some(Label::Download)
        } else if has_at(s, i, &self.upload) {
            Some(Label::Upload)
        } else {
            None
        }
    }

    /// Finds the first label, in the order latency, download, upload, whose word stands
    /// somewhere in `s`.
    pub fn find_in(&self, s: &Vec<char>) -> (r: Option<Label>)
        requires
            self.wf(),
        ensures
            r == label_in(s@),
    {
        if crate::chars::holds(s, &self.latency) {
            Some(Label::Latency)
        } else if crate::chars::holds(s, &self.download) {
            Some(Label::Download)
        } else if crate::chars::holds(s, &self.upload) {
            Some(Label::Upload)
        } else {
            None
        }
    }
}

/// The first label, in the order latency, download, upload, whose word stands somewhere
/// in `s`.
pub open spec fn label_in(s: Seq<char>) -> Option<Label> {
    if contains(s, Label::Latency.text()) {
        Some(Label::Latency)
    } else if contains(s, Label::Download.text()) {
        Some(Label::Download)
    } else if contains(s, Label::Upload.text()) {
        Some(Label::Upload)
    } else {
        None
    }
}

/// A measurement as the scanner reports it: the label and the bounds of number and unit.
#[derive(Clone, Copy, Debug)]
pub struct Found {
    pub label: Label,
    pub value_start: usize,
    pub value_end: usize,
    pub unit_start: usize,
    pub unit_end: usize,
}

impl Found {
    /// The same measurement with unbounded positions.
    pub open spec fn span(self) -> Span {
        Span {
            label: self.label,
            value_start: self.value_start as int,
            value_end: self.value_end as int,
            unit_start: self.unit_start as int,
            unit_end: self.unit_end as int,
        }
    }
}

/// Walks over the number without sign that starts at `i`.
pub fn skip_unsigned(s: &Vec<char>, i: usize) -> (e: usize)
    requires
        i <= s.len(),
    ensures
        e == unsigned_end(s@, i as int),
        i <= e <= s.len(),
{
    let d = skip_run(s, i, CharClass::Digit);
    if d > i && d < s.len() && s.len() - d > 1 && s[d] == '.' && crate::chars::digit(s[d + 1]) {
        skip_run(s, d + 1, CharClass::Digit)
    } else {
        d
    }
}

/// Reads the measurement that starts at position `i`, if one does.
pub fn read_span(words: &LabelWords, s: &Vec<char>, i: usize) -> (r: Option<Found>)
    requires
        words.wf(),
    ensures
        r is Some == span_at(s@, i as int) is Some,
        r is Some ==> r->0.span() == span_at(s@, i as int)->0,
{
    match words.find_at(s, i) {
        None => None,
        Some(label) => {
            let word = words.word(label);
            let total = s.len();
            assert(occurs_at(s@, i as int, word@));
            assert(i + word@.len() <= total);
            let colon = i + word.len();
            if colon >= s.len() || s[colon] != ':' {
                return None;
            }
            let value_start = skip_run(s, colon + 1, CharClass::Blank);
            let value_end = skip_unsigned(s, value_start);
            let unit_start = skip_run(s, value_end, CharClass::Blank);
            let unit_end = skip_run(s, unit_start, CharClass::Word);
            if value_start < value_end && value_end < unit_start && unit_start < unit_end {
                Some(Found { label, value_start, value_end, unit_start, unit_end })
            } else {
                None
            }
        },
    }
}

/// Writes the line of a measurement from its label, its number and its unit.
pub fn write_line(label: Label, value: &str, unit: &str) -> (line: String)
    ensures
        line@ == metric_line(label, value@, unit@),
{
    let mut line = String::from_str(label.name());
    proof {
        reveal_strlit(": ");
        reveal_strlit(" ");
    }
    line.append(": ");
    assert(": "@ =~= seq![':', ' ']);
    line.append(value);
    line.append(" ");
    assert(" "@ =~= seq![' ']);
    line.append(unit);
    line
}

/// Extracts the measurements from the text that one run of the probe printed: one line
/// `<Label>: <number> <unit>` for each measurement, in the order of the text. Digits,
/// blanks and the characters of a unit are ASCII: a unit written in another script is
/// no unit, and its measurement is passed over.
pub fn get_data_speedtest(input: &str) -> (results: Vec<String>)
    ensures
        texts(results@) == probe_lines(input@),
{
    let words = LabelWords::new();
    let s = to_chars(input);
    let mut results: Vec<String> = Vec::new();
    let mut i: usize = 0;
    while i < s.len()
        invariant
            words.wf(),
            s@ == input@,
            i <= s.len(),
            texts(results@) + spans_from(s@, i as int).map_values(|m: Span| span_line(s@, m))
                == probe_lines(s@),
        decreases s.len() - i,
    {
        let ghost before = texts(results@);
        let ghost rest = spans_from(s@, i as int);
        match read_span(&words, &s, i) {
            Some(found) => {
                proof {
                    lemma_span_at(s@, i as int);
                }
                let value = input.substring_char(found.value_start, found.value_end);
                let unit = input.substring_char(found.unit_start, found.unit_end);
                let line = write_line(found.label, value, unit);
                results.push(line);
                i = found.unit_end;
                proof {
                    let f = |m: Span| span_line(s@, m);
                    let tail = spans_from(s@, i as int);
                    assert(rest == seq![found.span()] + tail);
                    assert(rest.map_values(f) =~= seq![f(found.span())] + tail.map_values(f));
                    assert(texts(results@) =~= before + seq![f(found.span())]);
                }
            },
            None => {
                i = i + 1;
            },
        }
    }
    proof {
        assert(spans_from(s@, i as int).map_values(|m: Span| span_line(s@, m)) =~= Seq::<
            Seq<char>,
        >::empty());
    }
    results
}

} // verus!

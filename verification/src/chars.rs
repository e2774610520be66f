//! Character classes, runs of characters and substring search over `Seq<char>`.
//!
//! The classes are those of ASCII. A digit, a blank or a letter of another script belongs
//! to none of them, so it ends a number or a unit like any other character.

use vstd::prelude::*;

verus! {

/// The classes of characters that the grammars of this library are built from. Digits,
/// blanks and word characters are ASCII characters only.
#[derive(Clone, Copy, Debug, PartialEq, Eq)]
pub enum CharClass {
    /// The ASCII decimal digits `0` to `9`.
    Digit,
    /// ASCII white space inside a line: space, tab, carriage return, vertical tab, form
    /// feed.
    Blank,
    /// The ASCII letters `a` to `z` and `A` to `Z`, the ASCII decimal digits and the
    /// underscore.
    Word,
    /// Every character but the line feed.
    Inline,
}

/// Whether `c` is one of the ten ASCII decimal digits `0` to `9`. Digits of other scripts
/// are no digits here.
pub open spec fn is_digit(c: char) -> bool {
    '0' <= c && c <= '9'
}

/// Whether `c` is ASCII white space that does not end a line: space, tab, carriage return,
/// vertical tab or form feed. Other white space, such as the no-break space, is none here.
pub open spec fn is_blank(c: char) -> bool {
    c == ' ' || c == '\t' || c == '\r' || c == '\x0b' || c == '\x0c'
}

/// Whether `c` may stand in a unit token: an ASCII letter, an ASCII digit or the
/// underscore. Letters of other scripts may not.
pub open spec fn is_word(c: char) -> bool {
    is_digit(c) || ('a' <= c && c <= 'z') || ('A' <= c && c <= 'Z') || c == '_'
}

/// Whether `c` belongs to the class `k`.
pub open spec fn in_class(c: char, k: CharClass) -> bool {
    match k {
        CharClass::Digit => is_digit(c),
        CharClass::Blank => is_blank(c),
        CharClass::Word => is_word(c),
        CharClass::Inline => c != '\n',
    }
}

/// The end of the longest run of characters of class `k` that starts at `i`:
/// `i` itself where `s[i]` is not of the class or `i` is out of range.
pub open spec fn run_end(s: Seq<char>, i: int, k: CharClass) -> int
    decreases s.len() - i,
{
    if 0 <= i < s.len() && in_class(s[i], k) {
        run_end(s, i + 1, k)
    } else {
        i
    }
}

/// Whether `p` stands in `s` at position `i`.
pub open spec fn occurs_at(s: Seq<char>, i: int, p: Seq<char>) -> bool {
    &&& 0 <= i
    &&& i + p.len() <= s.len()
    &&& forall|k: int| 0 <= k < p.len() ==> s[i + k] == #[trigger] p[k]
}

/// Whether `p` stands somewhere in `s`.
pub open spec fn contains(s: Seq<char>, p: Seq<char>) -> bool {
    exists|i: int| occurs_at(s, i, p)
}

/// The views of a sequence of strings.
pub open spec fn texts(v: Seq<String>) -> Seq<Seq<char>> {
    Seq::new(v.len(), |i: int| v[i]@)
}

/// The views of a sequence of character vectors.
pub open spec fn rows(v: Seq<Vec<char>>) -> Seq<Seq<char>> {
    Seq::new(v.len(), |i: int| v[i]@)
}

/// A run ends inside the text, holds only characters of its class, and cannot be extended.
pub proof fn lemma_run_end(s: Seq<char>, i: int, k: CharClass)
    requires
        0 <= i <= s.len(),
    ensures
        i <= run_end(s, i, k) <= s.len(),
        forall|j: int| i <= j < run_end(s, i, k) ==> in_class(#[trigger] s[j], k),
        run_end(s, i, k) < s.len() ==> !in_class(s[run_end(s, i, k)], k),
    decreases s.len() - i,
{
    if i < s.len() && in_class(s[i], k) {
        lemma_run_end(s, i + 1, k);
    }
}

/// A stretch of characters of the class `k`, followed by the end of the text or by a
/// character outside the class, is the run that starts at its first position.
pub proof fn lemma_run_end_is(s: Seq<char>, i: int, e: int, k: CharClass)
    requires
        0 <= i <= e <= s.len(),
        forall|j: int| i <= j < e ==> in_class(#[trigger] s[j], k),
        e < s.len() ==> !in_class(s[e], k),
    ensures
        run_end(s, i, k) == e,
    decreases e - i,
{
    if i < e {
        lemma_run_end_is(s, i + 1, e, k);
    }
}

/// Tests a character for being an ASCII decimal digit.
pub fn digit(c: char) -> (b: bool)
    ensures
        b == is_digit(c),
{
    '0' <= c && c <= '9'
}

/// Tests a character for membership in a class.
pub fn member(c: char, k: CharClass) -> (b: bool)
    ensures
        b == in_class(c, k),
{
    match k {
        CharClass::Digit => digit(c),
        CharClass::Blank => c == ' ' || c == '\t' || c == '\r' || c == '\x0b' || c == '\x0c',
        CharClass::Word => digit(c) || ('a' <= c && c <= 'z') || ('A' <= c && c <= 'Z') || c
            == '_',
        CharClass::Inline => c != '\n',
    }
}

/// Walks over the run of class `k` that starts at `i` and returns where it ends.
pub fn skip_run(s: &Vec<char>, i: usize, k: CharClass) -> (e: usize)
    requires
        i <= s.len(),
    ensures
        e == run_end(s@, i as int, k),
        i <= e <= s.len(),
{
    let mut e: usize = i;
    while e < s.len() && member(s[e], k)
        invariant
            i <= e <= s.len(),
            run_end(s@, i as int, k) == run_end(s@, e as int, k),
        decreases s.len() - e,
    {
        e = e + 1;
    }
    e
}

/// Tests whether `p` stands in `s` at position `i`.
pub fn has_at(s: &Vec<char>, i: usize, p: &Vec<char>) -> (b: bool)
    ensures
        b == occurs_at(s@, i as int, p@),
{
    if i > s.len() || p.len() > s.len() - i {
        return false;
    }
    let mut k: usize = 0;
    while k < p.len()
        invariant
            k <= p.len(),
            i + p.len() <= s.len(),
            forall|j: int| 0 <= j < k ==> s@[i + j] == #[trigger] p@[j],
        decreases p.len() - k,
    {
        if s[i + k] != p[k] {
            return false;
        }
        k = k + 1;
    }
    true
}

/// Tests whether `p` stands somewhere in `s`.
pub fn holds(s: &Vec<char>, p: &Vec<char>) -> (b: bool)
    ensures
        b == contains(s@, p@),
{
    let mut i: usize = 0;
    while i <= s.len()
        invariant
            i <= s.len() + 1,
            forall|j: int| 0 <= j < i ==> !occurs_at(s@, j, p@),
        decreases s.len() + 1 - i,
    {
        if has_at(s, i, p) {
            return true;
        }
        if i == s.len() {
            assert(forall|j: int| !occurs_at(s@, j, p@));
            return false;
        }
        i = i + 1;
    }
    false
}

/// Copies the characters of a string into a vector, so that they can be read by position.
pub fn to_chars(s: &str) -> (v: Vec<char>)
    ensures
        v@ == s@,
{
    broadcast use vstd::string::group_string_axioms;

    let mut v: Vec<char> = Vec::new();
    for c in it: s.chars()
        invariant
            v@ == it.seq().take(it.index() as int),
            it.seq() == s@,
    {
        v.push(c);
    }
    v
}

} // verus!

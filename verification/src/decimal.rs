//! Decimal numbers held exactly: a sign, the digits as one natural number, and how many
//! of the digits stand behind the point.

use vstd::arithmetic::div_mod::{lemma_div_denominator, lemma_fundamental_div_mod_converse};
use vstd::prelude::*;

use crate::chars::is_digit;

verus! {

/// A decimal number as mathematics sees it: `magnitude / 10^scale`, negated where
/// `negative` holds.
pub ghost struct Reading {
    pub negative: bool,
    pub magnitude: nat,
    pub scale: nat,
}

impl Reading {
    /// Whether the number can be held in a [`Decimal`].
    pub open spec fn fits(self) -> bool {
        self.magnitude <= u128::MAX && self.scale <= usize::MAX
    }

    /// The digits with the sign: the number times `10^scale`.
    pub open spec fn numerator(self) -> int {
        if self.negative {
            -(self.magnitude as int)
        } else {
            self.magnitude as int
        }
    }
}

/// A decimal number: `magnitude / 10^scale`, negated where `negative` holds.
#[derive(Clone, Copy, Debug, PartialEq, Eq)]
pub struct Decimal {
    pub negative: bool,
    pub magnitude: u128,
    pub scale: usize,
}

impl View for Decimal {
    type V = Reading;

    open spec fn view(&self) -> Reading {
        Reading {
            negative: self.negative,
            magnitude: self.magnitude as nat,
            scale: self.scale as nat,
        }
    }
}

/// The models of a sequence of decimals.
pub open spec fn readings(v: Seq<Decimal>) -> Seq<Reading> {
    Seq::new(v.len(), |i: int| v[i]@)
}

/// Ten to the power `n`.
pub open spec fn pow10(n: nat) -> nat
    decreases n,
{
    if n == 0 {
        1
    } else {
        10 * pow10((n - 1) as nat)
    }
}

/// The number that a digit stands for; 0 for any other character.
pub open spec fn digit_value(c: char) -> nat {
    if is_digit(c) {
        (c as nat - '0' as nat) as nat
    } else {
        0
    }
}

/// The number that the digits of `t` spell, read from the left; characters that are no
/// digits are passed over.
pub open spec fn digits_value(t: Seq<char>) -> nat
    decreases t.len(),
{
    if t.len() == 0 {
        0
    } else if is_digit(t.last()) {
        digits_value(t.drop_last()) * 10 + digit_value(t.last())
    } else {
        digits_value(t.drop_last())
    }
}

/// The character of a digit below ten.
pub open spec fn digit_char(d: nat) -> char {
    if d == 0 {
        '0'
    } else if d == 1 {
        '1'
    } else if d == 2 {
        '2'
    } else if d == 3 {
        '3'
    } else if d == 4 {
        '4'
    } else if d == 5 {
        '5'
    } else if d == 6 {
        '6'
    } else if d == 7 {
        '7'
    } else if d == 8 {
        '8'
    } else {
        '9'
    }
}

/// The digits of a natural number, without leading zeros; `0` for zero.
pub open spec fn digits_of(n: nat) -> Seq<char>
    decreases n,
{
    if n < 10 {
        seq![digit_char(n)]
    } else {
        digits_of(n / 10) + seq![digit_char(n % 10)]
    }
}

/// The last `width` digits of a natural number, with zeros in front where it has fewer.
pub open spec fn last_digits(n: nat, width: nat) -> Seq<char>
    decreases width,
{
    if width == 0 {
        Seq::empty()
    } else {
        last_digits(n / 10, (width - 1) as nat) + seq![digit_char(n % 10)]
    }
}

/// A natural number written with two digits at least.
pub open spec fn two_digits(n: nat) -> Seq<char> {
    if n < 10 {
        seq!['0', digit_char(n)]
    } else {
        digits_of(n)
    }
}

/// The text of a decimal number: a minus sign where it is negative, the digits before the
/// point, and, where the scale is not 0, the point and as many digits as the scale says.
pub open spec fn decimal_text(r: Reading) -> Seq<char> {
    (if r.negative {
        seq!['-']
    } else {
        Seq::empty()
    }) + digits_of(r.magnitude / pow10(r.scale)) + (if r.scale > 0 {
        seq!['.'] + last_digits(r.magnitude, r.scale)
    } else {
        Seq::empty()
    })
}

/// Powers of ten are positive and grow with the exponent.
pub proof fn lemma_pow10_grows(a: nat, b: nat)
    requires
        a <= b,
    ensures
        1 <= pow10(a) <= pow10(b),
    decreases b,
{
    if b == 0 {
    } else if a == b {
        lemma_pow10_grows((a - 1) as nat, (b - 1) as nat);
    } else {
        lemma_pow10_grows(a, (b - 1) as nat);
    }
}

/// Ten to a sum of exponents is the product of the powers.
pub proof fn lemma_pow10_sum(a: nat, b: nat)
    ensures
        pow10(a + b) == pow10(a) * pow10(b),
    decreases a,
{
    if a == 0 {
        assert(pow10(a) == 1);
        assert(a + b == b);
    } else {
        let x = pow10((a - 1) as nat);
        let y = pow10(b);
        lemma_pow10_sum((a - 1) as nat, b);
        assert(pow10(a + b) == 10 * pow10((a - 1 + b) as nat));
        assert(pow10(a) == 10 * x);
        assert(10 * (x * y) == (10 * x) * y) by (nonlinear_arith);
    }
}

/// Reading more characters never makes the number smaller.
pub proof fn lemma_digits_value_prefix(t: Seq<char>, k: int)
    requires
        0 <= k <= t.len(),
    ensures
        digits_value(t.take(k)) <= digits_value(t),
    decreases t.len() - k,
{
    if k < t.len() {
        lemma_digits_value_prefix(t, k + 1);
        assert(t.take(k + 1).drop_last() =~= t.take(k));
    } else {
        assert(t.take(k) =~= t);
    }
}

/// The number that a digit stands for.
pub fn digit_number(c: char) -> (d: u8)
    requires
        is_digit(c),
    ensures
        d == digit_value(c),
        d <= 9,
{
    (c as u32 - '0' as u32) as u8
}

/// Reads the digits among the characters of `s` from `start` up to `end` as one number,
/// passing over the other characters. `None` where the number is too large for 128 bits.
pub fn read_digits(s: &Vec<char>, start: usize, end: usize) -> (r: Option<u128>)
    requires
        start <= end <= s.len(),
    ensures
        r is Some == (digits_value(s@.subrange(start as int, end as int)) <= u128::MAX),
        r is Some ==> r->0 == digits_value(s@.subrange(start as int, end as int)),
{
    let ghost t = s@.subrange(start as int, end as int);
    let mut acc: u128 = 0;
    let mut k: usize = start;
    while k < end
        invariant
            start <= k <= end <= s.len(),
            t == s@.subrange(start as int, end as int),
            acc == digits_value(t.take(k - start)),
        decreases end - k,
    {
        let c = s[k];
        proof {
            assert(t.take(k + 1 - start).drop_last() =~= t.take(k - start));
            assert(t.take(k + 1 - start).last() == c);
            lemma_digits_value_prefix(t, k + 1 - start);
        }
        if crate::chars::digit(c) {
            let d = digit_number(c);
            if acc > (u128::MAX - d as u128) / 10 {
                return None;
            }
            acc = acc * 10 + d as u128;
        }
        k = k + 1;
    }
    proof {
        assert(t.take(end - start) =~= t);
    }
    Some(acc)
}

/// The powers of ten around the largest number of 128 bits.
pub proof fn lemma_pow10_limits()
    ensures
        pow10(38) == 100_000_000_000_000_000_000_000_000_000_000_000_000,
        pow10(39) == 1_000_000_000_000_000_000_000_000_000_000_000_000_000,
{
    assert(pow10(13) == 10_000_000_000_000) by {
        reveal_with_fuel(pow10, 14);
    }
    assert(pow10(12) == 1_000_000_000_000) by {
        reveal_with_fuel(pow10, 13);
    }
    lemma_pow10_sum(13, 13);
    lemma_pow10_sum(26, 12);
    lemma_pow10_sum(26, 13);
    assert(pow10(26) == 100_000_000_000_000_000_000_000_000);
}

/// No power of ten lies between the largest number of 128 bits and ten to the power 39.
pub proof fn lemma_pow10_gap(k: nat)
    ensures
        pow10(k) <= u128::MAX || pow10(k) >= 1_000_000_000_000_000_000_000_000_000_000_000_000_000,
        k >= 39 ==> pow10(k) > u128::MAX,
        k <= 38 ==> pow10(k) <= u128::MAX,
{
    lemma_pow10_limits();
    if k >= 39 {
        lemma_pow10_grows(39, k);
    } else {
        lemma_pow10_grows(k, 38);
    }
}

/// Multiplying by a larger power of ten gives no smaller number.
pub proof fn lemma_raise_grows(m: nat, a: nat, b: nat)
    requires
        a <= b,
    ensures
        m * pow10(a) <= m * pow10(b),
{
    lemma_pow10_grows(a, b);
    assert(m * pow10(a) <= m * pow10(b)) by (nonlinear_arith)
        requires
            pow10(a) <= pow10(b),
    ;
}

/// The last digits of a number begin with the digit at the place of their width, and go
/// on with the last digits of a width smaller by one.
pub proof fn lemma_last_digits_left(n: nat, width: nat)
    requires
        width > 0,
    ensures
        last_digits(n, width) == seq![digit_char((n / pow10((width - 1) as nat)) % 10)]
            + last_digits(n, (width - 1) as nat),
    decreases width,
{
    if width == 1 {
        assert(pow10(0) == 1);
        assert(last_digits(n / 10, 0) =~= Seq::<char>::empty());
        assert(last_digits(n, 0) =~= Seq::<char>::empty());
        assert(last_digits(n, 1) =~= seq![digit_char(n % 10)]);
        assert(seq![digit_char((n / 1) % 10)] + Seq::<char>::empty() =~= seq![
            digit_char(n % 10),
        ]);
    } else {
        let w = (width - 1) as nat;
        lemma_last_digits_left(n / 10, w);
        lemma_pow10_grows(0, (w - 1) as nat);
        lemma_div_denominator(n as int, 10, pow10((w - 1) as nat) as int);
        assert(pow10(w) == 10 * pow10((w - 1) as nat));
        assert((n / 10) / pow10((w - 1) as nat) == n / pow10(w));
        assert(last_digits(n, w) == last_digits(n / 10, (w - 1) as nat) + seq![
            digit_char(n % 10),
        ]);
        assert(last_digits(n, width) =~= seq![digit_char((n / pow10(w)) % 10)] + last_digits(
            n,
            w,
        ));
    }
}

/// The text of a digit below ten.
pub fn digit_text(d: u8) -> (s: &'static str)
    requires
        d <= 9,
    ensures
        s@ == seq![digit_char(d as nat)],
{
    proof {
        reveal_strlit("0");
        reveal_strlit("1");
        reveal_strlit("2");
        reveal_strlit("3");
        reveal_strlit("4");
        reveal_strlit("5");
        reveal_strlit("6");
        reveal_strlit("7");
        reveal_strlit("8");
        reveal_strlit("9");
    }
    let s = if d == 0 {
        "0"
    } else if d == 1 {
        "1"
    } else if d == 2 {
        "2"
    } else if d == 3 {
        "3"
    } else if d == 4 {
        "4"
    } else if d == 5 {
        "5"
    } else if d == 6 {
        "6"
    } else if d == 7 {
        "7"
    } else if d == 8 {
        "8"
    } else {
        "9"
    };
    assert(s@ =~= seq![digit_char(d as nat)]);
    s
}

/// Multiplies `m` by ten to the power `k`; `None` where the product is too large to
/// be held.
pub fn raise(m: u128, k: usize) -> (r: Option<u128>)
    ensures
        r is Some == (m * pow10(k as nat) <= u128::MAX),
        r is Some ==> r->0 == m * pow10(k as nat),
{
    if m == 0 {
        assert(0 * pow10(k as nat) == 0) by (nonlinear_arith);
        return Some(0);
    }
    let mut cur: u128 = m;
    let mut j: usize = 0;
    assert(m * pow10(0) == m) by (nonlinear_arith)
        requires
            pow10(0) == 1,
    ;
    while j < k
        invariant
            j <= k,
            m > 0,
            cur == m * pow10(j as nat),
        decreases k - j,
    {
        assert(m * pow10((j + 1) as nat) == 10 * (m * pow10(j as nat))) by (nonlinear_arith)
            requires
                pow10((j + 1) as nat) == 10 * pow10(j as nat),
        ;
        if cur > u128::MAX / 10 {
            proof {
                lemma_raise_grows(m as nat, (j + 1) as nat, k as nat);
            }
            return None;
        }
        cur = cur * 10;
        j = j + 1;
    }
    Some(cur)
}

/// Ten to the power `k`; `None` where it is too large to be held.
pub fn power_of_ten(k: usize) -> (r: Option<u128>)
    ensures
        r is Some == (pow10(k as nat) <= u128::MAX),
        r is Some ==> r->0 == pow10(k as nat),
{
    assert(1 * pow10(k as nat) == pow10(k as nat)) by (nonlinear_arith);
    raise(1, k)
}

/// Appends the digits of `n` to `out`.
pub fn write_digits(n: u128, out: &mut String)
    ensures
        final(out)@ == old(out)@ + digits_of(n as nat),
    decreases n,
{
    if n < 10 {
        out.append(digit_text(n as u8));
    } else {
        write_digits(n / 10, out);
        out.append(digit_text((n % 10) as u8));
        assert(out@ =~= old(out)@ + digits_of(n as nat));
    }
}

/// Appends the last `width` digits of `n` to `out`, with zeros in front where `n` has fewer.
pub fn write_last_digits(n: u128, width: usize, out: &mut String)
    ensures
        final(out)@ == old(out)@ + last_digits(n as nat, width as nat),
{
    let mut j: usize = width;
    assert(out@ + last_digits(n as nat, j as nat) == old(out)@ + last_digits(
        n as nat,
        width as nat,
    ));
    while j > 0
        invariant
            j <= width,
            out@ + last_digits(n as nat, j as nat) == old(out)@ + last_digits(
                n as nat,
                width as nat,
            ),
        decreases j,
    {
        let ghost before = out@;
        proof {
            lemma_last_digits_left(n as nat, j as nat);
            lemma_pow10_gap((j - 1) as nat);
            lemma_pow10_grows(0, (j - 1) as nat);
        }
        let d = match power_of_ten(j - 1) {
            Some(p) => ((n / p) % 10) as u8,
            None => {
                proof {
                    lemma_fundamental_div_mod_converse(
                        n as int,
                        pow10((j - 1) as nat) as int,
                        0,
                        n as int,
                    );
                }
                0
            },
        };
        out.append(digit_text(d));
        j = j - 1;
        assert(out@ + last_digits(n as nat, j as nat) =~= before + (seq![digit_char(d as nat)]
            + last_digits(n as nat, j as nat)));
    }
    assert(last_digits(n as nat, 0) =~= Seq::<char>::empty());
    assert(out@ + last_digits(n as nat, 0) =~= out@);
}

/// Writes a decimal number as text.
pub fn write_decimal(d: &Decimal) -> (text: String)
    ensures
        text@ == decimal_text(d@),
{
    let mut text = String::new();
    if d.negative {
        proof {
            reveal_strlit("-");
        }
        text.append("-");
        assert(text@ =~= seq!['-']);
    }
    let ghost sign = text@;
    proof {
        lemma_pow10_grows(0, d.scale as nat);
    }
    let whole = match power_of_ten(d.scale) {
        Some(p) => d.magnitude / p,
        None => {
            proof {
                lemma_fundamental_div_mod_converse(
                    d.magnitude as int,
                    pow10(d.scale as nat) as int,
                    0,
                    d.magnitude as int,
                );
            }
            0
        },
    };
    write_digits(whole, &mut text);
    if d.scale > 0 {
        proof {
            reveal_strlit(".");
        }
        text.append(".");
        assert("."@ =~= seq!['.']);
        write_last_digits(d.magnitude, d.scale, &mut text);
        assert(text@ =~= decimal_text(d@));
    } else {
        assert(text@ =~= decimal_text(d@));
    }
    text
}

} // verus!

//! Text of numbers: decimal and hexadecimal digits, and padding.

use vstd::prelude::*;
use vstd::string::StringExecFns;

verus! {

/// `String::push` appends one character to the end of the string.
pub assume_specification[ String::push ](s: &mut String, c: char)
    ensures
        final(s)@ == old(s)@.push(c),
;

/// The decimal digit of a number below ten.
pub open spec fn digit(d: nat) -> char {
    (48 + d) as char
}

/// The upper-case hexadecimal digit of a number below sixteen.
pub open spec fn hex_digit(d: nat) -> char {
    if d < 10 {
        (48 + d) as char
    } else {
        (55 + d) as char
    }
}

/// A number in decimal, without leading zeros.
pub open spec fn decimal(n: nat) -> Seq<char>
    decreases n,
{
    if n < 10 {
        seq![digit(n)]
    } else {
        decimal(n / 10).push(digit(n % 10))
    }
}

/// A number in upper-case hexadecimal, without leading zeros.
pub open spec fn hexadecimal(n: nat) -> Seq<char>
    decreases n,
{
    if n < 16 {
        seq![hex_digit(n)]
    } else {
        hexadecimal(n / 16).push(hex_digit(n % 16))
    }
}

/// `c`, `count` times.
pub open spec fn repeated(c: char, count: nat) -> Seq<char> {
    Seq::new(count, |i: int| c)
}

/// `s` with zeros in front of it, up to `width` characters.
pub open spec fn zero_padded(s: Seq<char>, width: nat) -> Seq<char> {
    if s.len() >= width {
        s
    } else {
        repeated('0', (width - s.len()) as nat) + s
    }
}

/// A duration in minutes and seconds, each with at least two digits.
pub open spec fn clock(seconds: nat) -> Seq<char> {
    zero_padded(decimal(seconds / 60), 2) + ":"@ + zero_padded(decimal(seconds % 60), 2)
}

/// `n` in decimal.
pub fn decimal_text(n: u128) -> (out: String)
    ensures
        out@ == decimal(n as nat),
    decreases n,
{
    if n < 10 {
        let mut out = String::new();
        out.push((48u8 + n as u8) as char);
        assert(out@ =~= decimal(n as nat));
        out
    } else {
        let mut out = decimal_text(n / 10);
        let low: u8 = (n % 10) as u8;
        out.push((48u8 + low) as char);
        out
    }
}

/// `n` in upper-case hexadecimal.
pub fn hex_text(n: usize) -> (out: String)
    ensures
        out@ == hexadecimal(n as nat),
    decreases n,
{
    if n < 16 {
        let mut out = String::new();
        out.push(hex_char(n as u8));
        assert(out@ =~= hexadecimal(n as nat));
        out
    } else {
        let mut out = hex_text(n / 16);
        out.push(hex_char((n % 16) as u8));
        out
    }
}

/// The upper-case hexadecimal digit of `d`.
pub fn hex_char(d: u8) -> (c: char)
    requires
        d < 16,
    ensures
        c == hex_digit(d as nat),
{
    if d < 10 {
        (48u8 + d) as char
    } else {
        (55u8 + d) as char
    }
}

/// `s` with zeros in front of it, up to `width` characters.
pub fn pad_zeros(s: &str, width: usize) -> (out: String)
    ensures
        out@ == zero_padded(s@, width as nat),
{
    let mut out = String::new();
    let len: usize = s.unicode_len();
    let mut i: usize = len;
    while i < width
        invariant
            len == s@.len(),
            len <= i,
            i <= width || i == len,
            out@ == repeated('0', (i - len) as nat),
        decreases width - i,
    {
        out.push('0');
        i += 1;
        assert(out@ =~= repeated('0', (i - len) as nat));
    }
    out.append(s);
    assert(len >= width ==> out@ =~= s@);
    out
}

/// A text of two parts.
pub fn joined(first: &str, second: &str) -> (out: String)
    ensures
        out@ == first@ + second@,
{
    let mut out = String::from_str(first);
    out.append(second);
    out
}

/// A text of three parts.
pub fn joined3(first: &str, second: &str, third: &str) -> (out: String)
    ensures
        out@ == first@ + second@ + third@,
{
    let mut out = joined(first, second);
    out.append(third);
    out
}

/// A duration in minutes and seconds, each with at least two digits.
pub fn clock_text(seconds: u128) -> (out: String)
    ensures
        out@ == clock(seconds as nat),
{
    let mut out = pad_zeros(decimal_text(seconds / 60).as_str(), 2);
    out.append(":");
    out.append(pad_zeros(decimal_text(seconds % 60).as_str(), 2).as_str());
    out
}

/// The number that some decimal digits stand for.
pub open spec fn decimal_value(s: Seq<char>) -> int
    decreases s.len(),
{
    if s.len() == 0 {
        0
    } else {
        10 * decimal_value(s.drop_last()) + (s.last() as int - 48)
    }
}

/// The digits of a number stand for it.
pub proof fn lemma_decimal_value(n: nat)
    ensures
        decimal_value(decimal(n)) == n,
    decreases n,
{
    let s = decimal(n);
    assert(s.last() == digit(n % 10));
    if n < 10 {
        assert(s.drop_last() =~= Seq::empty());
        assert(decimal_value(s.drop_last()) == 0);
    } else {
        lemma_decimal_value(n / 10);
        assert(s.drop_last() =~= decimal(n / 10));
    }
}

proof fn lemma_leading_zeros(s: Seq<char>, count: nat)
    ensures
        decimal_value(repeated('0', count) + s) == decimal_value(s),
    decreases s.len() + count,
{
    let padded = repeated('0', count) + s;
    if s.len() > 0 {
        lemma_leading_zeros(s.drop_last(), count);
        assert(padded.drop_last() =~= repeated('0', count) + s.drop_last());
    } else if count > 0 {
        lemma_leading_zeros(s, (count - 1) as nat);
        assert(padded.drop_last() =~= repeated('0', (count - 1) as nat) + s);
    } else {
        assert(padded =~= s);
    }
}

/// So they do with zeros in front of them.
pub proof fn lemma_padded_value(n: nat, width: nat)
    ensures
        decimal_value(zero_padded(decimal(n), width)) == n,
{
    lemma_decimal_value(n);
    let s = decimal(n);
    if s.len() < width {
        lemma_leading_zeros(s, (width - s.len()) as nat);
    }
}

/// Two durations with the same text are of the same number of seconds.
pub proof fn law_clock_tells_seconds(a: nat, b: nat)
    requires
        clock(a) == clock(b),
    ensures
        a == b,
{
    reveal_strlit(":");
    reveal_with_fuel(decimal, 3);
    let (x, y) = (zero_padded(decimal(a % 60), 2), zero_padded(decimal(b % 60), 2));
    let (p, q) = (zero_padded(decimal(a / 60), 2), zero_padded(decimal(b / 60), 2));
    assert(x.len() == 2 && y.len() == 2);
    assert(clock(a).len() == p.len() + 3 && clock(b).len() == q.len() + 3);
    assert(p =~= clock(a).take(p.len() as int));
    assert(q =~= clock(b).take(p.len() as int));
    assert(x =~= clock(a).skip(p.len() as int + 1));
    assert(y =~= clock(b).skip(p.len() as int + 1));
    lemma_padded_value(a % 60, 2);
    lemma_padded_value(b % 60, 2);
    lemma_padded_value(a / 60, 2);
    lemma_padded_value(b / 60, 2);
}

/// Whether a text is made of decimal digits, at least one.
pub open spec fn is_digits(s: Seq<char>) -> bool {
    &&& s.len() > 0
    &&& forall|i: int| 0 <= i < s.len() ==> '0' <= #[trigger] s[i] <= '9'
}

/// A number in decimal is made of digits that stand for it, without a zero in front.
pub proof fn law_decimal_reads_back(n: nat)
    ensures
        is_digits(decimal(n)),
        decimal_value(decimal(n)) == n,
        decimal(n)[0] == '0' ==> n == 0 && decimal(n).len() == 1,
    decreases n,
{
    lemma_decimal_value(n);
    if n >= 10 {
        law_decimal_reads_back(n / 10);
        assert(decimal(n)[0] == decimal(n / 10)[0]);
    }
}

/// A duration is shown as minutes, a colon and two digits of seconds, with at least two
/// digits of minutes and no zero in front of more.
pub proof fn law_clock_reads_back(seconds: nat)
    ensures
        ({
            let c = clock(seconds);
            let at = c.len() - 3;
            &&& at >= 2
            &&& c[at] == ':'
            &&& is_digits(c.take(at))
            &&& is_digits(c.skip(at + 1))
            &&& decimal_value(c.take(at)) == seconds / 60
            &&& decimal_value(c.skip(at + 1)) == seconds % 60
            &&& at > 2 ==> c[0] != '0'
        }),
{
    reveal_strlit(":");
    reveal_with_fuel(decimal, 3);
    let c = clock(seconds);
    let at = c.len() - 3;
    let minutes = zero_padded(decimal(seconds / 60), 2);
    let rest = zero_padded(decimal(seconds % 60), 2);
    law_decimal_reads_back(seconds / 60);
    law_decimal_reads_back(seconds % 60);
    lemma_padded_value(seconds / 60, 2);
    lemma_padded_value(seconds % 60, 2);
    assert(rest.len() == 2);
    assert(c.take(at) =~= minutes);
    assert(c.skip(at + 1) =~= rest);
    assert(c[at] == ':');
    if at > 2 {
        assert(minutes == decimal(seconds / 60));
        assert(c[0] == minutes[0]);
    }
}

/// The number that some hexadecimal digits stand for.
pub open spec fn hex_value(s: Seq<char>) -> int
    decreases s.len(),
{
    if s.len() == 0 {
        0
    } else {
        16 * hex_value(s.drop_last()) + if s.last() <= '9' {
            s.last() as int - 48
        } else {
            s.last() as int - 55
        }
    }
}

/// A digit is a figure, or an upper-case letter from ten on.
pub proof fn law_hex_digits(d: nat)
    requires
        d < 16,
    ensures
        hex_digit(d) == "0123456789ABCDEF"@[d as int],
{
    reveal_strlit("0123456789ABCDEF");
}

/// A number in hexadecimal is made of digits that stand for it, also with zeros in front.
pub proof fn law_hexadecimal_reads_back(n: nat, width: nat)
    ensures
        hex_value(hexadecimal(n)) == n,
        hex_value(zero_padded(hexadecimal(n), width)) == n,
        zero_padded(hexadecimal(n), width).len() >= width,
{
    lemma_hex_value(n);
    let s = hexadecimal(n);
    if s.len() < width {
        lemma_hex_zeros(s, (width - s.len()) as nat);
    }
}

proof fn lemma_hex_value(n: nat)
    ensures
        hex_value(hexadecimal(n)) == n,
    decreases n,
{
    let s = hexadecimal(n);
    assert(s.last() == hex_digit(n % 16));
    if n < 16 {
        assert(s.drop_last() =~= Seq::empty());
        assert(hex_value(s.drop_last()) == 0);
    } else {
        lemma_hex_value(n / 16);
        assert(s.drop_last() =~= hexadecimal(n / 16));
    }
}

proof fn lemma_hex_zeros(s: Seq<char>, count: nat)
    ensures
        hex_value(repeated('0', count) + s) == hex_value(s),
    decreases s.len() + count,
{
    let padded = repeated('0', count) + s;
    if s.len() > 0 {
        lemma_hex_zeros(s.drop_last(), count);
        assert(padded.drop_last() =~= repeated('0', count) + s.drop_last());
    } else if count > 0 {
        lemma_hex_zeros(s, (count - 1) as nat);
        assert(padded.drop_last() =~= repeated('0', (count - 1) as nat) + s);
    } else {
        assert(padded =~= s);
    }
}

} // verus!

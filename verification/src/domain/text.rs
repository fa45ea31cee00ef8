//! Text building and comparison.

use vstd::prelude::*;
use vstd::string::StringExecFns;

use crate::domain::time::Duration;

verus! {

/// Outcome of comparing two texts.
#[derive(Debug, Clone, Copy, PartialEq, Eq, Structural)]
pub enum TextOrder {
    /// The first comes before the second.
    Before,
    /// The two hold the same characters.
    Same,
    /// The first comes after the second.
    After,
}

/// Whether one text comes strictly before another, character by character.
pub open spec fn comes_before(a: Seq<char>, b: Seq<char>) -> bool
    decreases a.len(),
{
    if b.len() == 0 {
        false
    } else if a.len() == 0 {
        true
    } else if a[0] != b[0] {
        a[0] < b[0]
    } else {
        comes_before(a.drop_first(), b.drop_first())
    }
}

/// Compares two texts character by character.
pub fn compare_text(a: &str, b: &str) -> (r: TextOrder)
    ensures
        r is Before <==> comes_before(a@, b@),
        r is Same <==> a@ == b@,
        r is After <==> comes_before(b@, a@),
{
    let mut x = a.chars();
    let mut y = b.chars();
    proof {
        lemma_before_is_strict(a@, b@);
    }
    loop
        invariant
            comes_before(
                vstd::std_specs::iter::IteratorSpec::remaining(&x),
                vstd::std_specs::iter::IteratorSpec::remaining(&y),
            ) == comes_before(a@, b@),
            comes_before(
                vstd::std_specs::iter::IteratorSpec::remaining(&y),
                vstd::std_specs::iter::IteratorSpec::remaining(&x),
            ) == comes_before(b@, a@),
            vstd::std_specs::iter::IteratorSpec::remaining(&x)
                == vstd::std_specs::iter::IteratorSpec::remaining(&y) <==> a@ == b@,
            vstd::std_specs::iter::IteratorSpec::decrease(&x) is Some,
            !(comes_before(a@, b@) && a@ == b@),
            !(comes_before(b@, a@) && a@ == b@),
            !(comes_before(a@, b@) && comes_before(b@, a@)),
        decreases vstd::std_specs::iter::IteratorSpec::decrease(&x)->0,
    {
        let ghost left = vstd::std_specs::iter::IteratorSpec::remaining(&x);
        let ghost right = vstd::std_specs::iter::IteratorSpec::remaining(&y);
        let next_left = x.next();
        let next_right = y.next();
        match (next_left, next_right) {
            (None, None) => {
                assert(left =~= right);
                return TextOrder::Same;
            },
            (None, Some(_)) => {
                return TextOrder::Before;
            },
            (Some(_), None) => {
                return TextOrder::After;
            },
            (Some(p), Some(q)) => {
                if p < q {
                    return TextOrder::Before;
                }
                if q < p {
                    return TextOrder::After;
                }
                assert(left =~= seq![p] + left.drop_first());
                assert(right =~= seq![q] + right.drop_first());
            },
        }
    }
}

/// No text comes before itself, and of two texts at most one comes before the other.
pub proof fn lemma_before_is_strict(a: Seq<char>, b: Seq<char>)
    ensures
        !(comes_before(a, b) && a == b),
        !(comes_before(a, b) && comes_before(b, a)),
    decreases a.len(),
{
    if a.len() > 0 && b.len() > 0 && a[0] == b[0] {
        lemma_before_is_strict(a.drop_first(), b.drop_first());
    }
}

/// Of two different texts one comes before the other.
pub proof fn lemma_before_is_total(a: Seq<char>, b: Seq<char>)
    ensures
        comes_before(a, b) || comes_before(b, a) || a == b,
    decreases a.len(),
{
    if a.len() > 0 && b.len() > 0 && a[0] == b[0] {
        lemma_before_is_total(a.drop_first(), b.drop_first());
        assert(a.drop_first() == b.drop_first() ==> a =~= b) by {
            assert(a =~= seq![a[0]] + a.drop_first());
            assert(b =~= seq![b[0]] + b.drop_first());
        }
    } else if a.len() == 0 && b.len() == 0 {
        assert(a =~= b);
    }
}

/// The order of texts is transitive.
pub proof fn lemma_before_is_transitive(a: Seq<char>, b: Seq<char>, c: Seq<char>)
    requires
        comes_before(a, b),
        comes_before(b, c),
    ensures
        comes_before(a, c),
    decreases a.len(),
{
    if a.len() > 0 && a[0] == b[0] && b[0] == c[0] {
        lemma_before_is_transitive(a.drop_first(), b.drop_first(), c.drop_first());
    }
}

/// The character of a hexadecimal digit, in lower case.
pub open spec fn digit_char(d: nat) -> char {
    if d == 0 {
        '0'
    } else if d == 1 {
        '1'
    } else if d == 2 {
        '2'
    } else if d == 3 {
        '3'
    } else if d == 4 {
        '4'
    } else if d == 5 {
        '5'
    } else if d == 6 {
        '6'
    } else if d == 7 {
        '7'
    } else if d == 8 {
        '8'
    } else if d == 9 {
        '9'
    } else if d == 10 {
        'a'
    } else if d == 11 {
        'b'
    } else if d == 12 {
        'c'
    } else if d == 13 {
        'd'
    } else if d == 14 {
        'e'
    } else {
        'f'
    }
}

/// A number in decimal notation without leading zeros.
pub open spec fn decimal(n: nat) -> Seq<char>
    decreases n,
{
    if n < 10 {
        seq![digit_char(n)]
    } else {
        decimal(n / 10).push(digit_char(n % 10))
    }
}

/// The last `width` hexadecimal digits of a number, leading zeros included.
pub open spec fn hexadecimal(n: nat, width: nat) -> Seq<char>
    decreases width,
{
    if width == 0 {
        seq![]
    } else {
        hexadecimal(n / 16, (width - 1) as nat).push(digit_char(n % 16))
    }
}

/// The text that holds one hexadecimal digit.
fn digit_text(d: u64) -> (r: &'static str)
    requires
        d < 16,
    ensures
        r@ == seq![digit_char(d as nat)],
{
    let text = match d {
        0 => "0",
        1 => "1",
        2 => "2",
        3 => "3",
        4 => "4",
        5 => "5",
        6 => "6",
        7 => "7",
        8 => "8",
        9 => "9",
        10 => "a",
        11 => "b",
        12 => "c",
        13 => "d",
        14 => "e",
        _ => "f",
    };
    proof {
        reveal_strlit("0");
        reveal_strlit("1");
        reveal_strlit("2");
        reveal_strlit("3");
        reveal_strlit("4");
        reveal_strlit("5");
        reveal_strlit("6");
        reveal_strlit("7");
        reveal_strlit("8");
        reveal_strlit("9");
        reveal_strlit("a");
        reveal_strlit("b");
        reveal_strlit("c");
        reveal_strlit("d");
        reveal_strlit("e");
        reveal_strlit("f");
        assert(text@ =~= seq![digit_char(d as nat)]);
    }
    text
}

/// Writes a number in decimal notation at the end of a text.
pub fn append_decimal(out: &mut String, n: u64)
    ensures
        final(out)@ == old(out)@ + decimal(n as nat),
    decreases n,
{
    let ghost start = out@;
    if n >= 10 {
        append_decimal(out, n / 10);
    }
    out.append(digit_text(n % 10));
    assert(out@ =~= start + decimal(n as nat));
}

/// Writes the last `width` hexadecimal digits of a number at the end of a text.
pub fn append_hexadecimal(out: &mut String, n: u64, width: u32)
    ensures
        final(out)@ == old(out)@ + hexadecimal(n as nat, width as nat),
    decreases width,
{
    let ghost start = out@;
    if width > 0 {
        append_hexadecimal(out, n / 16, width - 1);
        out.append(digit_text(n % 16));
    }
    assert(out@ =~= start + hexadecimal(n as nat, width as nat));
}

/// The text of a span in seconds, rounded to two decimals.
pub uninterp spec fn seconds_text(secs: u64, subsec_nanos: u32) -> Seq<char>;

/// The text of a span in the unit that suits its size, as in `1.5ms`.
pub uninterp spec fn span_text(secs: u64, subsec_nanos: u32) -> Seq<char>;

/// Prints `std::time::Duration::as_secs_f64` of the given span with two
/// decimals.
///
/// The printed text is a function of the two parts alone. Its digits follow the
/// rounding of binary fractions and are not spelled out.
#[verifier::external_body]
fn seconds_of(secs: u64, subsec_nanos: u32) -> (r: String)
    requires
        subsec_nanos < 1_000_000_000,
    ensures
        r@ == seconds_text(secs, subsec_nanos),
{
    format!("{:.2}", std::time::Duration::new(secs, subsec_nanos).as_secs_f64())
}

/// Prints the given span with the `Debug` form of `std::time::Duration`.
///
/// The printed text is a function of the two parts alone. The choice of unit
/// and the cut of trailing zeros are not spelled out.
#[verifier::external_body]
fn span_of(secs: u64, subsec_nanos: u32) -> (r: String)
    requires
        subsec_nanos < 1_000_000_000,
    ensures
        r@ == span_text(secs, subsec_nanos),
{
    format!("{:?}", std::time::Duration::new(secs, subsec_nanos))
}

/// A span in seconds with two decimals.
pub open spec fn seconds_view(nanos: nat) -> Seq<char> {
    seconds_text((nanos / 1_000_000_000) as u64, (nanos % 1_000_000_000) as u32)
}

/// A span in the unit that suits its size.
pub open spec fn span_view(nanos: nat) -> Seq<char> {
    span_text((nanos / 1_000_000_000) as u64, (nanos % 1_000_000_000) as u32)
}

/// Writes a span in seconds with two decimals.
pub fn in_seconds(span: Duration) -> (r: String)
    ensures
        r@ == seconds_view(span@),
{
    seconds_of(span.as_secs(), span.subsec_nanos())
}

/// Writes a span in the unit that suits its size.
pub fn in_suitable_unit(span: Duration) -> (r: String)
    ensures
        r@ == span_view(span@),
{
    span_of(span.as_secs(), span.subsec_nanos())
}

/// Of two texts that differ, the one with the smaller character at the first difference
/// comes first, and a text comes before all that go on where it ends.
pub proof fn lemma_first_difference_decides(a: Seq<char>, b: Seq<char>, i: int)
    requires
        0 <= i <= a.len(),
        i <= b.len(),
        a.take(i) == b.take(i),
        i < a.len() && i < b.len() ==> a[i] != b[i],
    ensures
        comes_before(a, b) <==> i < b.len() && (i == a.len() || a[i] < b[i]),
    decreases i,
{
    if i > 0 {
        assert(a[0] == a.take(i)[0] && b[0] == b.take(i)[0]);
        let x = a.drop_first();
        let y = b.drop_first();
        assert(x.take(i - 1) =~= a.take(i).drop_first());
        assert(y.take(i - 1) =~= b.take(i).drop_first());
        lemma_first_difference_decides(x, y, i - 1);
    }
}

/// The number that a hexadecimal digit stands for.
pub open spec fn digit_value(c: char) -> int {
    if '0' <= c <= '9' {
        c as int - '0' as int
    } else {
        c as int - 'a' as int + 10
    }
}

/// The number that digits stand for in a base.
pub open spec fn number_of(digits: Seq<char>, base: int) -> int
    decreases digits.len(),
{
    if digits.len() == 0 {
        0
    } else {
        number_of(digits.drop_last(), base) * base + digit_value(digits.last())
    }
}

proof fn lemma_digit_is_read_back(d: nat)
    requires
        d < 16,
    ensures
        digit_value(digit_char(d)) == d,
        d < 10 ==> '0' <= digit_char(d) <= '9',
        d >= 10 ==> 'a' <= digit_char(d) <= 'f',
{
}

/// Decimal notation reads back as the number, and has no leading zero unless the number
/// is zero.
pub proof fn lemma_decimal_reads_back(n: nat)
    ensures
        number_of(decimal(n), 10) == n,
        decimal(n).len() > 0,
        n > 0 ==> decimal(n)[0] != '0',
        forall|i: int| 0 <= i < decimal(n).len() ==> '0' <= #[trigger] decimal(n)[i] <= '9',
    decreases n,
{
    reveal_with_fuel(number_of, 2);
    lemma_digit_is_read_back(n % 10);
    if n < 10 {
        assert(decimal(n).drop_last() =~= Seq::empty());
        lemma_digit_is_read_back(n);
    } else {
        lemma_decimal_reads_back(n / 10);
        let front = decimal(n / 10);
        assert(decimal(n).drop_last() =~= front);
        assert(decimal(n)[0] == front[0]);
        assert forall|i: int| 0 <= i < decimal(n).len() implies '0' <= #[trigger] decimal(n)[i]
            <= '9' by {
            if i < front.len() {
                assert(decimal(n)[i] == front[i]);
            }
        }
    }
}

/// Hexadecimal notation has so many digits and reads back as the number, if so many
/// digits can hold it.
pub proof fn lemma_hexadecimal_reads_back(n: nat, width: nat)
    requires
        n < vstd::arithmetic::power::pow(16, width),
    ensures
        hexadecimal(n, width).len() == width,
        number_of(hexadecimal(n, width), 16) == n,
    decreases width,
{
    vstd::arithmetic::power::lemma_pow0(16);
    if width > 0 {
        let fewer = (width - 1) as nat;
        assert(vstd::arithmetic::power::pow(16, width) == 16 * vstd::arithmetic::power::pow(
            16,
            fewer,
        )) by {
            reveal(vstd::arithmetic::power::pow);
        }
        assert(n / 16 < vstd::arithmetic::power::pow(16, fewer));
        lemma_hexadecimal_reads_back(n / 16, fewer);
        lemma_digit_is_read_back(n % 16);
        assert(hexadecimal(n, width).drop_last() =~= hexadecimal(n / 16, fewer));
    }
}

/// What is printed of a span are its whole seconds and the nanoseconds beyond them.
pub proof fn lemma_span_is_printed_whole(secs: u64, subsec_nanos: u32)
    requires
        subsec_nanos < 1_000_000_000,
    ensures
        seconds_view((secs * 1_000_000_000 + subsec_nanos) as nat) == seconds_text(
            secs,
            subsec_nanos,
        ),
        span_view((secs * 1_000_000_000 + subsec_nanos) as nat) == span_text(secs, subsec_nanos),
{
}

} // verus!

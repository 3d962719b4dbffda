//! The command-line arguments of the packet-forwarding benchmark.

use vstd::prelude::*;
use vstd::string::StringSliceAdditionalSpecFns;

verus! {

/// Whether the byte is an ASCII decimal digit.
pub open spec fn is_digit(b: u8) -> bool {
    48 <= b <= 57
}

/// The value of a string of decimal digits, most significant first.
pub open spec fn digits_value(digits: Seq<u8>) -> nat
    decreases digits.len(),
{
    if digits.len() == 0 {
        0
    } else {
        digits_value(digits.drop_last()) * 10 + (digits.last() - 48) as nat
    }
}

/// The digits of an unsigned decimal numeral: what follows an optional
/// leading `+`.
pub open spec fn numeral_digits(s: Seq<u8>) -> Seq<u8> {
    if s.len() > 0 && s[0] == 43 {
        s.drop_first()
    } else {
        s
    }
}

/// The `usize` that the text denotes as an unsigned decimal numeral: an
/// optional `+` and at least one digit, with no other character, and a value
/// that fits.
pub open spec fn decimal_usize(s: Seq<u8>) -> Option<usize> {
    let digits = numeral_digits(s);
    if digits.len() > 0 && (forall|i: int| 0 <= i < digits.len() ==> is_digit(#[trigger] digits[i]))
        && digits_value(digits) <= usize::MAX {
        Some(digits_value(digits) as usize)
    } else {
        None
    }
}

/// `str::parse::<usize>`: by std's documentation of `FromStr` for integers,
/// the text must be an optional `+` followed by decimal digits only, and the
/// value must fit in a `usize`; the parse fails otherwise.
#[verifier::external_body]
fn parse_usize(s: &str) -> (n: Option<usize>)
    ensures
        n == decimal_usize(s.spec_bytes()),
{
    s.parse::<usize>().ok()
}

/// The number of receive sockets the benchmark opens, given the text of its
/// argument: the number it denotes, but at least one; `None` when the text is
/// not a number.
pub fn num_recv_sockets(arg: &str) -> (sockets: Option<usize>)
    ensures
        sockets == match decimal_usize(arg.spec_bytes()) {
            Some(n) => Some(if n < 1 { 1usize } else { n }),
            None => None::<usize>,
        },
{
    let num_sockets: usize = 1;
    match parse_usize(arg) {
        Some(n) => Some(if n > num_sockets { n } else { num_sockets }),
        None => None,
    }
}


/// Reading a numeral digit by digit: a single digit denotes its own value,
/// one more digit at the end multiplies the value by ten and adds the digit
/// (while the value fits), and a leading `+` changes nothing.
pub proof fn lemma_decimal_digits(digits: Seq<u8>, d: u8)
    requires
        digits.len() > 0,
        forall|i: int| 0 <= i < digits.len() ==> is_digit(#[trigger] digits[i]),
        is_digit(d),
    ensures
        decimal_usize(seq![d]) == Some((d - 48) as usize),
        decimal_usize(digits) is Some && decimal_usize(digits)->0 * 10 + (d - 48) <= usize::MAX
            ==> decimal_usize(digits.push(d)) == Some(
            (decimal_usize(digits)->0 * 10 + (d - 48)) as usize,
        ),
        decimal_usize(seq![43u8] + digits) == decimal_usize(digits),
        decimal_usize(Seq::<u8>::empty()) is None,
        decimal_usize(seq![43u8]) is None,
{
    assert(seq![d].drop_last() =~= Seq::<u8>::empty());
    assert(numeral_digits(seq![d]) =~= seq![d]);
    let pd = digits.push(d);
    assert(pd.drop_last() =~= digits);
    assert(numeral_digits(digits) =~= digits);
    assert(numeral_digits(pd) =~= pd);
    assert forall|i: int| 0 <= i < pd.len() implies is_digit(#[trigger] pd[i]) by {
        if i < digits.len() {
            assert(pd[i] == digits[i]);
        }
    }
    let plus = seq![43u8] + digits;
    assert(numeral_digits(plus) =~= digits);
    assert(numeral_digits(seq![43u8]) =~= Seq::<u8>::empty());
}

} // verus!

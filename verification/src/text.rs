//! Texts as sequences of characters: reading a `str` into a vector, building
//! a `String` back, and writing numbers in decimal.

use vstd::prelude::*;

verus! {

/// `String::push` of the standard library appends one character to the end
/// of the string and leaves the rest as it was.
pub assume_specification[ String::push ](s: &mut String, ch: char)
    ensures
        final(s)@ == old(s)@.push(ch),
;

/// The characters of `text`, in order.
pub fn chars_of(text: &str) -> (chars: Vec<char>)
    ensures
        chars@ == text@,
{
    broadcast use vstd::string::group_string_axioms;

    let mut chars: Vec<char> = Vec::new();
    for c in rest: text.chars()
        invariant
            rest.seq() == text@,
            chars@ == text@.take(rest.index() as int),
    {
        assert(text@.take(rest.index() + 1) =~= text@.take(rest.index() as int).push(c));
        chars.push(c);
    }
    assert(text@.take(text@.len() as int) =~= text@);
    chars
}

/// The text made of `chars`, in order.
pub fn string_of(chars: &Vec<char>) -> (text: String)
    ensures
        text@ == chars@,
{
    let mut text = String::new();
    let mut i: usize = 0;
    while i < chars.len()
        invariant
            i <= chars.len(),
            text@ == chars@.take(i as int),
        decreases chars.len() - i,
    {
        text.push(chars[i]);
        i = i + 1;
        assert(text@ =~= chars@.take(i as int));
    }
    assert(chars@.take(chars.len() as int) =~= chars@);
    text
}

/// The character that writes the digit `d`.
pub open spec fn digit_char(d: nat) -> char {
    if d == 0 {
        '0'
    } else if d == 1 {
        '1'
    } else if d == 2 {
        '2'
    } else if d == 3 {
        '3'
    } else if d == 4 {
        '4'
    } else if d == 5 {
        '5'
    } else if d == 6 {
        '6'
    } else if d == 7 {
        '7'
    } else if d == 8 {
        '8'
    } else {
        '9'
    }
}

/// Whether `c` is one of the ten decimal digits.
pub open spec fn is_digit(c: char) -> bool {
    '0' <= c <= '9'
}

/// The decimal notation of `n`, without leading zeros.
pub open spec fn decimal(n: nat) -> Seq<char>
    decreases n,
{
    if n < 10 {
        seq![digit_char(n)]
    } else {
        decimal(n / 10).push(digit_char(n % 10))
    }
}

/// A decimal notation is not empty and holds digits only.
pub proof fn lemma_decimal_digits(n: nat)
    ensures
        decimal(n).len() >= 1,
        forall|i: int| 0 <= i < decimal(n).len() ==> is_digit(#[trigger] decimal(n)[i]),
    decreases n,
{
    if n >= 10 {
        lemma_decimal_digits(n / 10);
    }
}

/// Two numbers with the same decimal notation are the same number.
pub proof fn lemma_decimal_injective(a: nat, b: nat)
    requires
        decimal(a) == decimal(b),
    ensures
        a == b,
    decreases a,
{
    lemma_decimal_digits(a / 10);
    lemma_decimal_digits(b / 10);
    if a >= 10 && b >= 10 {
        let x = decimal(a / 10);
        let y = decimal(b / 10);
        assert(x =~= decimal(a).drop_last());
        assert(y =~= decimal(b).drop_last());
        assert(digit_char(a % 10) == decimal(a).last());
        assert(digit_char(b % 10) == decimal(b).last());
        lemma_decimal_injective(a / 10, b / 10);
        assert(a % 10 == b % 10);
    } else if a < 10 && b < 10 {
        assert(digit_char(a) == decimal(a)[0]);
        assert(digit_char(b) == decimal(b)[0]);
    } else if a < 10 {
        assert(decimal(a).len() == 1);
        assert(decimal(b).len() == decimal(b / 10).len() + 1);
    } else {
        assert(decimal(b).len() == 1);
        assert(decimal(a).len() == decimal(a / 10).len() + 1);
    }
}

/// A text that is cut in two at the first character of some kind can be cut
/// so in one way only: if `head1 + tail1` and `head2 + tail2` are the same
/// text, neither head holds a stopping character, and each tail is empty or
/// begins with one, then the heads are equal and so are the tails.
pub proof fn lemma_cut_is_unique(
    head1: Seq<char>,
    tail1: Seq<char>,
    head2: Seq<char>,
    tail2: Seq<char>,
    stops: spec_fn(char) -> bool,
)
    requires
        head1 + tail1 == head2 + tail2,
        forall|i: int| 0 <= i < head1.len() ==> !stops(#[trigger] head1[i]),
        forall|i: int| 0 <= i < head2.len() ==> !stops(#[trigger] head2[i]),
        tail1.len() > 0 ==> stops(tail1[0]),
        tail2.len() > 0 ==> stops(tail2[0]),
    ensures
        head1 == head2,
        tail1 == tail2,
{
    let whole = head1 + tail1;
    assert(whole.len() == head1.len() + tail1.len());
    assert(whole.len() == head2.len() + tail2.len());
    if head1.len() < head2.len() {
        assert(whole[head1.len() as int] == tail1[0]);
        assert(whole[head1.len() as int] == head2[head1.len() as int]);
        assert(false);
    }
    if head2.len() < head1.len() {
        assert((head2 + tail2)[head2.len() as int] == tail2[0]);
        assert(whole[head2.len() as int] == head1[head2.len() as int]);
        assert(false);
    }
    assert(head1 =~= whole.take(head1.len() as int));
    assert(head2 =~= (head2 + tail2).take(head1.len() as int));
    assert(tail1 =~= whole.skip(head1.len() as int));
    assert(tail2 =~= (head2 + tail2).skip(head1.len() as int));
}

/// The character that writes the digit `d`.
fn digit(d: u64) -> (c: char)
    requires
        d < 10,
    ensures
        c == digit_char(d as nat),
{
    if d == 0 {
        '0'
    } else if d == 1 {
        '1'
    } else if d == 2 {
        '2'
    } else if d == 3 {
        '3'
    } else if d == 4 {
        '4'
    } else if d == 5 {
        '5'
    } else if d == 6 {
        '6'
    } else if d == 7 {
        '7'
    } else if d == 8 {
        '8'
    } else {
        '9'
    }
}

/// Appends the decimal notation of `n` to `out`.
pub fn push_decimal(out: &mut Vec<char>, n: u64)
    ensures
        final(out)@ == old(out)@ + decimal(n as nat),
    decreases n,
{
    if n >= 10 {
        push_decimal(out, n / 10);
    }
    out.push(digit(n % 10));
    assert(out@ =~= old(out)@ + decimal(n as nat));
}

/// Appends the characters of `text` to `out`.
pub fn push_str(out: &mut Vec<char>, text: &str)
    ensures
        final(out)@ == old(out)@ + text@,
{
    let chars = chars_of(text);
    let mut i: usize = 0;
    while i < chars.len()
        invariant
            i <= chars.len(),
            chars@ == text@,
            out@ == old(out)@ + chars@.take(i as int),
        decreases chars.len() - i,
    {
        out.push(chars[i]);
        i = i + 1;
        assert(out@ =~= old(out)@ + chars@.take(i as int));
    }
    assert(chars@.take(chars.len() as int) =~= chars@);
}

/// Tells whether two texts are the same.
pub fn same_text(a: &str, b: &str) -> (same: bool)
    ensures
        same == (a@ == b@),
{
    let x = chars_of(a);
    let y = chars_of(b);
    if x.len() != y.len() {
        return false;
    }
    let mut i: usize = 0;
    while i < x.len()
        invariant
            i <= x.len(),
            x.len() == y.len(),
            x@ == a@,
            y@ == b@,
            forall|j: int| 0 <= j < i ==> x@[j] == y@[j],
        decreases x.len() - i,
    {
        if x[i] != y[i] {
            return false;
        }
        i = i + 1;
    }
    assert(x@ =~= y@);
    true
}

/// A copy of `text`.
pub fn copy_text(text: &str) -> (copy: String)
    ensures
        copy@ == text@,
{
    let chars = chars_of(text);
    string_of(&chars)
}

/// The digit that the character `c` writes.
pub open spec fn digit_of(c: char) -> nat {
    if c == '0' {
        0
    } else if c == '1' {
        1
    } else if c == '2' {
        2
    } else if c == '3' {
        3
    } else if c == '4' {
        4
    } else if c == '5' {
        5
    } else if c == '6' {
        6
    } else if c == '7' {
        7
    } else if c == '8' {
        8
    } else {
        9
    }
}

/// The number that a row of digits writes, leading zeros allowed.
pub open spec fn digits_value(digits: Seq<char>) -> nat
    decreases digits.len(),
{
    if digits.len() == 0 {
        0
    } else {
        digits_value(digits.drop_last()) * 10 + digit_of(digits.last())
    }
}

/// Whether `text` is the decimal notation of a number that fits in 64 bits.
pub open spec fn is_number_text(text: Seq<char>) -> bool {
    exists|n: u64| #[trigger] decimal(n as nat) == text
}

/// A decimal notation begins with a zero only if it is the notation of
/// zero.
pub proof fn lemma_decimal_leading(n: nat)
    ensures
        decimal(n)[0] == '0' <==> n == 0,
        n == 0 ==> decimal(n).len() == 1,
    decreases n,
{
    if n >= 10 {
        lemma_decimal_leading(n / 10);
        lemma_decimal_digits(n / 10);
        assert(decimal(n)[0] == decimal(n / 10)[0]);
    }
}

/// A row of digits without a leading zero is the decimal notation of the
/// number it writes.
pub proof fn lemma_decimal_of_digits(digits: Seq<char>)
    requires
        digits.len() > 0,
        forall|i: int| 0 <= i < digits.len() ==> is_digit(#[trigger] digits[i]),
        digits.len() == 1 || digits[0] != '0',
    ensures
        decimal(digits_value(digits)) == digits,
    decreases digits.len(),
{
    let init = digits.drop_last();
    let last = digits.last();
    assert(is_digit(last));
    assert(digit_char(digit_of(last)) == last);
    if digits.len() == 1 {
        assert(init.len() == 0);
        assert(digits_value(init) == 0);
        assert(digits_value(digits) == digit_of(last));
        assert(decimal(digits_value(digits)) =~= digits);
    } else {
        assert forall|i: int| 0 <= i < init.len() implies is_digit(#[trigger] init[i]) by {
            assert(init[i] == digits[i]);
        }
        assert(init[0] == digits[0]);
        lemma_decimal_of_digits(init);
        lemma_decimal_leading(digits_value(init));
        let value = digits_value(digits);
        assert(value == digits_value(init) * 10 + digit_of(last));
        assert(digits_value(init) >= 1);
        assert(value >= 10);
        assert(value / 10 == digits_value(init));
        assert(value % 10 == digit_of(last));
        assert(decimal(value) =~= digits);
    }
}

/// The notation of a number is not empty, holds digits only, and has no
/// leading zero.
pub proof fn lemma_number_text_shape(text: Seq<char>)
    requires
        is_number_text(text),
    ensures
        text.len() > 0,
        forall|i: int| 0 <= i < text.len() ==> is_digit(#[trigger] text[i]),
        text.len() == 1 || text[0] != '0',
{
    let n = choose|n: u64| #[trigger] decimal(n as nat) == text;
    lemma_decimal_digits(n as nat);
    lemma_decimal_leading(n as nat);
}

/// The digit that the character `c` writes.
pub fn digit_value(c: char) -> (d: u64)
    requires
        is_digit(c),
    ensures
        d == digit_of(c),
        d < 10,
{
    if c == '0' {
        0
    } else if c == '1' {
        1
    } else if c == '2' {
        2
    } else if c == '3' {
        3
    } else if c == '4' {
        4
    } else if c == '5' {
        5
    } else if c == '6' {
        6
    } else if c == '7' {
        7
    } else if c == '8' {
        8
    } else {
        9
    }
}

/// Tells whether `c` is one of the ten decimal digits.
pub fn is_digit_char(c: char) -> (digit: bool)
    ensures
        digit == is_digit(c),
{
    '0' <= c && c <= '9'
}

/// Tells whether `text` is the decimal notation of a number that fits in
/// 64 bits: a row of digits without a leading zero whose value is at most
/// the largest such number.
pub fn is_number(text: &str) -> (number: bool)
    ensures
        number == is_number_text(text@),
{
    let chars = chars_of(text);
    let len = chars.len();
    if len == 0 {
        proof {
            if is_number_text(chars@) {
                lemma_number_text_shape(chars@);
            }
        }
        return false;
    }
    let mut value: u64 = 0;
    let mut too_large = false;
    let mut i: usize = 0;
    assert(chars@.take(0) =~= Seq::<char>::empty());
    while i < len
        invariant
            i <= len,
            len == chars.len(),
            chars@ == text@,
            forall|k: int| 0 <= k < i ==> is_digit(#[trigger] chars@[k]),
            !too_large ==> value == digits_value(chars@.take(i as int)),
            too_large ==> digits_value(chars@.take(i as int)) > u64::MAX,
        decreases len - i,
    {
        let c = chars[i];
        if !is_digit_char(c) {
            proof {
                if is_number_text(chars@) {
                    lemma_number_text_shape(chars@);
                }
            }
            return false;
        }
        let d = digit_value(c);
        proof {
            assert(chars@.take(i + 1).drop_last() =~= chars@.take(i as int));
            assert(chars@.take(i + 1).last() == c);
        }
        if too_large || value > (u64::MAX - d) / 10 {
            too_large = true;
        } else {
            value = value * 10 + d;
        }
        i = i + 1;
    }
    assert(chars@.take(len as int) =~= chars@);
    if len > 1 && chars[0] == '0' {
        proof {
            if is_number_text(chars@) {
                lemma_number_text_shape(chars@);
            }
        }
        return false;
    }
    proof {
        lemma_decimal_of_digits(chars@);
        if too_large {
            assert forall|n: u64| #[trigger] decimal(n as nat) != chars@ by {
                if decimal(n as nat) == chars@ {
                    lemma_decimal_injective(n as nat, digits_value(chars@));
                }
            }
        } else {
            assert(decimal(value as nat) == chars@);
        }
    }
    !too_large
}

} // verus!

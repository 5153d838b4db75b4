//! Text primitives: numbers written in a radix and read back, substrings,
//! trailing characters, and bytes read as text.

use vstd::prelude::*;
use vstd::string::*;
use vstd::utf8::{decode_utf8, valid_utf8};

verus! {

/// `String::push` appends one character.
pub assume_specification[ String::push ](s: &mut String, c: char)
    ensures
        final(s)@ == old(s)@.push(c),
;

/// The text that stands for bytes that are not UTF-8.
pub open spec fn invalid_utf8_text() -> Seq<char> {
    "<invalid utf8>"@
}

/// Bytes read as text: their UTF-8 decoding, or a fixed marker where there is none.
pub open spec fn text_of(bytes: Seq<u8>) -> Seq<char> {
    if valid_utf8(bytes) {
        decode_utf8(bytes)
    } else {
        invalid_utf8_text()
    }
}

/// What `String::from_utf8_lossy` makes of `bytes`.
pub uninterp spec fn lossy_text(bytes: Seq<u8>) -> Seq<char>;

/// Bytes read as text whatever they are: their UTF-8 decoding, or what
/// `String::from_utf8_lossy` makes of them where there is none.
pub open spec fn shown_text(bytes: Seq<u8>) -> Seq<char> {
    if valid_utf8(bytes) {
        decode_utf8(bytes)
    } else {
        lossy_text(bytes)
    }
}

/// `std::str::from_utf8`: the text that the bytes encode, exactly when they are
/// valid UTF-8.
#[verifier::external_body]
fn checked_utf8(bytes: &[u8]) -> (text: Option<&str>)
    ensures
        text is Some <==> valid_utf8(bytes@),
        text matches Some(s) ==> s@ == decode_utf8(bytes@),
{
    std::str::from_utf8(bytes).ok()
}

/// `String::from_utf8_lossy`: a text that depends on the bytes alone, and that is
/// their decoding where they are valid UTF-8. How it places the replacement
/// characters in other bytes is left to its name.
#[verifier::external_body]
pub(crate) fn from_utf8_lossy(bytes: &[u8]) -> (text: String)
    ensures
        text@ == lossy_text(bytes@),
        valid_utf8(bytes@) ==> text@ == decode_utf8(bytes@),
{
    String::from_utf8_lossy(bytes).to_string()
}

/// Reads bytes as text, with a marker in place of what is not UTF-8.
pub fn text_from_bytes(bytes: &[u8]) -> (text: String)
    ensures
        text@ == text_of(bytes@),
{
    match checked_utf8(bytes) {
        Some(s) => s.to_owned(),
        None => "<invalid utf8>".to_owned(),
    }
}

/// The character that stands for a digit, upper case above nine.
pub open spec fn digit_char(digit: nat) -> char {
    if digit < 10 {
        ('0' as u32 + digit) as char
    } else {
        ('A' as u32 + (digit - 10)) as char
    }
}

/// `n` written in `radix`, most significant digit first, without leading zeros.
pub open spec fn radix_text(n: nat, radix: nat) -> Seq<char>
    decreases n,
{
    if radix < 2 {
        Seq::empty()
    } else if n < radix {
        seq![digit_char(n)]
    } else {
        proof {
            lemma_quotient_is_smaller(n, radix);
        }
        radix_text(n / radix, radix).push(digit_char(n % radix))
    }
}

/// `n` in decimal.
pub open spec fn decimal_text(n: nat) -> Seq<char> {
    radix_text(n, 10)
}

/// `n` in upper-case hexadecimal.
pub open spec fn hex_text(n: nat) -> Seq<char> {
    radix_text(n, 16)
}

/// The number that a digit stands for, in either case.
pub open spec fn digit_value(c: char, radix: nat) -> Option<nat> {
    let value = if '0' <= c <= '9' {
        c as u32 - '0' as u32
    } else if 'a' <= c <= 'z' {
        c as u32 - 'a' as u32 + 10
    } else if 'A' <= c <= 'Z' {
        c as u32 - 'A' as u32 + 10
    } else {
        radix as int
    };
    if value < radix {
        Some(value as nat)
    } else {
        None
    }
}

/// The number that a sequence of digits stands for; `None` where one is no digit.
pub open spec fn digits_value(digits: Seq<char>, radix: nat) -> Option<nat>
    decreases digits.len(),
{
    if digits.len() == 0 {
        Some(0)
    } else {
        match (digits_value(digits.drop_last(), radix), digit_value(digits.last(), radix)) {
            (Some(high), Some(low)) => Some(high * radix + low),
            _ => None,
        }
    }
}

/// A text read as an unsigned number of at most `max`: one optional `+`, then one
/// or more digits.
pub open spec fn unsigned_value(text: Seq<char>, radix: nat, max: nat) -> Option<nat> {
    let digits = if text.len() > 0 && text[0] == '+' {
        text.skip(1)
    } else {
        text
    };
    match digits_value(digits, radix) {
        Some(n) if digits.len() > 0 && n <= max => Some(n),
        _ => None,
    }
}

/// Whether `part` occurs in `whole` without a gap.
pub open spec fn occurs_in(part: Seq<char>, whole: Seq<char>) -> bool {
    exists|i: int|
        0 <= i <= whole.len() - part.len() && #[trigger] whole.subrange(i, i + part.len()) == part
}

/// `text` without the run of `c` that it ends in.
pub open spec fn trimmed_end(text: Seq<char>, c: char) -> Seq<char>
    decreases text.len(),
{
    if text.len() > 0 && text.last() == c {
        trimmed_end(text.drop_last(), c)
    } else {
        text
    }
}

pub proof fn lemma_quotient_is_smaller(n: nat, radix: nat)
    by (nonlinear_arith)
    requires
        2 <= radix <= n,
    ensures
        n / radix < n,
{
}

/// A number written in a radix reads back as itself.
pub proof fn lemma_radix_text_reads_back(n: nat, radix: nat)
    requires
        2 <= radix <= 16,
    ensures
        digits_value(radix_text(n, radix), radix) == Some(n),
        radix_text(n, radix).len() > 0,
        radix_text(n, radix)[0] != '+',
        forall|i: int|
            0 <= i < radix_text(n, radix).len() ==> digit_value(
                #[trigger] radix_text(n, radix)[i],
                radix,
            ) is Some,
    decreases n,
{
    let text = radix_text(n, radix);
    if n < radix {
        assert(text.drop_last() =~= Seq::<char>::empty());
        assert(digit_value(digit_char(n), radix) == Some(n));
        assert(digits_value(text.drop_last(), radix) == Some(0nat));
        assert(0 * radix + n == n);
    } else {
        lemma_quotient_is_smaller(n, radix);
        lemma_radix_text_reads_back(n / radix, radix);
        let high = radix_text(n / radix, radix);
        let low = n % radix;
        assert(text == high.push(digit_char(low)));
        assert(text.drop_last() =~= high);
        assert(digit_value(digit_char(low), radix) == Some(low));
        assert((n / radix) * radix + n % radix == n) by (nonlinear_arith)
            requires
                radix >= 2,
        ;
        assert forall|i: int| 0 <= i < text.len() implies digit_value(
            #[trigger] text[i],
            radix,
        ) is Some by {
            if i < high.len() {
                assert(text[i] == high[i]);
            }
        }
    }
}

/// The value of more digits is no smaller than the value of the first of them.
proof fn lemma_more_digits_are_no_less(digits: Seq<char>, n: int, radix: nat)
    requires
        0 <= n <= digits.len(),
        radix >= 1,
        digits_value(digits, radix) is Some,
    ensures
        digits_value(digits.take(n), radix) is Some,
        digits_value(digits.take(n), radix)->0 <= digits_value(digits, radix)->0,
    decreases digits.len() - n,
{
    if n == digits.len() {
        assert(digits.take(n) =~= digits);
    } else {
        lemma_more_digits_are_no_less(digits, n + 1, radix);
        let longer = digits.take(n + 1);
        assert(longer.drop_last() =~= digits.take(n));
        let high = digits_value(digits.take(n), radix)->0;
        assert(high * radix >= high) by (nonlinear_arith)
            requires
                radix >= 1,
        ;
    }
}

fn push_digit(out: &mut String, digit: u8)
    requires
        digit < 16,
    ensures
        final(out)@ == old(out)@.push(digit_char(digit as nat)),
{
    if digit < 10 {
        out.push((0x30 + digit) as char);
    } else {
        out.push((0x41 + (digit - 10)) as char);
    }
}

fn push_radix(out: &mut String, n: u64, radix: u64)
    requires
        2 <= radix <= 16,
    ensures
        final(out)@ == old(out)@ + radix_text(n as nat, radix as nat),
    decreases n,
{
    if n < radix {
        push_digit(out, n as u8);
    } else {
        proof {
            lemma_quotient_is_smaller(n as nat, radix as nat);
        }
        push_radix(out, n / radix, radix);
        push_digit(out, (n % radix) as u8);
    }
}

/// `n` in decimal.
pub fn to_decimal(n: u64) -> (text: String)
    ensures
        text@ == decimal_text(n as nat),
{
    let mut out = String::new();
    push_radix(&mut out, n, 10);
    out
}

/// `n` in upper-case hexadecimal.
pub fn to_hex(n: u64) -> (text: String)
    ensures
        text@ == hex_text(n as nat),
{
    let mut out = String::new();
    push_radix(&mut out, n, 16);
    out
}

/// `first` followed by `second`.
pub fn joined(first: &str, second: &str) -> (text: String)
    ensures
        text@ == first@ + second@,
{
    let mut out = first.to_owned();
    out.append(second);
    out
}

fn to_chars(text: &str) -> (chars: Vec<char>)
    ensures
        chars@ == text@,
{
    let mut chars: Vec<char> = Vec::new();
    for c in iter: text.chars()
        invariant
            chars@ == iter.seq().take(iter.index() as int),
            iter.seq() == text@,
    {
        chars.push(c);
    }
    chars
}

/// Whether two texts hold the same characters.
pub fn same_text(x: &str, y: &str) -> (same: bool)
    ensures
        same == (x@ == y@),
{
    let a = x.as_bytes();
    let b = y.as_bytes();
    proof {
        vstd::utf8::encode_utf8_decode_utf8(x@);
        vstd::utf8::encode_utf8_decode_utf8(y@);
    }
    if a.len() != b.len() {
        return false;
    }
    let mut i: usize = 0;
    while i < a.len()
        invariant
            a@ == x.spec_bytes(),
            b@ == y.spec_bytes(),
            a.len() == b.len(),
            i <= a.len(),
            forall|k: int| 0 <= k < i ==> a@[k] == b@[k],
        decreases a.len() - i,
    {
        if a[i] != b[i] {
            return false;
        }
        i = i + 1;
    }
    assert(a@ =~= b@);
    true
}

/// Reads a decimal number of at most `max`.
pub fn parse_decimal(text: &str, max: u64) -> (value: Option<u64>)
    ensures
        match value {
            Some(n) => unsigned_value(text@, 10, max as nat) == Some(n as nat),
            None => unsigned_value(text@, 10, max as nat) is None,
        },
{
    let chars = to_chars(text);
    let start: usize = if chars.len() > 0 && chars[0] == '+' {
        1
    } else {
        0
    };
    let ghost digits = text@.skip(start as int);
    assert(start == 0 ==> digits =~= text@);
    if chars.len() == start {
        return None;
    }
    let mut value: u64 = 0;
    let mut i: usize = start;
    while i < chars.len()
        invariant
            chars@ == text@,
            start <= i <= chars.len(),
            start < chars.len(),
            digits == text@.skip(start as int),
            digits == if text@.len() > 0 && text@[0] == '+' {
                text@.skip(1)
            } else {
                text@
            },
            value <= max,
            digits_value(digits.take(i - start), 10) == Some(value as nat),
        decreases chars.len() - i,
    {
        let c = chars[i];
        let ghost longer = digits.take(i + 1 - start);
        assert(longer.drop_last() =~= digits.take(i - start));
        assert(longer.last() == c);
        proof {
            if digits_value(digits, 10) is Some {
                lemma_more_digits_are_no_less(digits, i + 1 - start, 10);
            }
        }
        if !('0' <= c && c <= '9') {
            return None;
        }
        let digit: u64 = c as u64 - 0x30;
        if value > max / 10 || digit > max - value * 10 {
            return None;
        }
        value = value * 10 + digit;
        i = i + 1;
    }
    assert(digits.take(i - start) =~= digits);
    Some(value)
}

/// Whether `part` occurs in `whole`.
pub fn contains_text(whole: &str, part: &str) -> (found: bool)
    ensures
        found == occurs_in(part@, whole@),
{
    let w = to_chars(whole);
    let p = to_chars(part);
    if p.len() > w.len() {
        return false;
    }
    let mut i: usize = 0;
    while i <= w.len() - p.len()
        invariant
            w@ == whole@,
            p@ == part@,
            p.len() <= w.len(),
            i <= w.len() - p.len() + 1,
            forall|k: int|
                0 <= k < i ==> #[trigger] whole@.subrange(k, k + part@.len()) != part@,
        decreases w.len() - p.len() + 1 - i,
    {
        let mut j: usize = 0;
        while j < p.len() && w[i + j] == p[j]
            invariant
                i + p.len() <= w.len(),
                j <= p.len(),
                w@.subrange(i as int, i + j) == p@.take(j as int),
            decreases p.len() - j,
        {
            assert(w@.subrange(i as int, i + j + 1) =~= w@.subrange(i as int, i + j).push(
                w@[i + j],
            ));
            assert(p@.take(j + 1) =~= p@.take(j as int).push(p@[j as int]));
            j = j + 1;
        }
        if j == p.len() {
            assert(p@.take(j as int) =~= p@);
            assert(whole@.subrange(i as int, i + part@.len()) == part@);
            return true;
        }
        assert(whole@.subrange(i as int, i + part@.len())[j as int] != part@[j as int]);
        i = i + 1;
    }
    false
}

/// `text` without the run of `c` that it ends in.
pub fn trim_end(text: &str, c: char) -> (trimmed: String)
    ensures
        trimmed@ == trimmed_end(text@, c),
{
    let chars = to_chars(text);
    let mut n: usize = chars.len();
    assert(text@.take(n as int) =~= text@);
    while n > 0 && chars[n - 1] == c
        invariant
            chars@ == text@,
            n <= chars.len(),
            trimmed_end(text@, c) == trimmed_end(text@.take(n as int), c),
        decreases n,
    {
        assert(text@.take(n as int).drop_last() =~= text@.take(n - 1));
        n = n - 1;
    }
    assert(text@.take(n as int) =~= text@.subrange(0, n as int));
    text.substring_char(0, n).to_owned()
}

/// Numbers are written digit by digit, most significant first: one below the radix is
/// its digit, and appending a digit multiplies by the radix.
pub proof fn law_digits_are_appended(n: nat, digit: nat)
    requires
        n > 0,
    ensures
        digit < 10 ==> decimal_text(digit) == seq![(48 + digit) as char],
        digit < 10 ==> decimal_text(10 * n + digit) == decimal_text(n).push((48 + digit) as char),
        digit < 10 ==> hex_text(digit) == seq![(48 + digit) as char],
        10 <= digit < 16 ==> hex_text(digit) == seq![(55 + digit) as char],
        digit < 16 ==> hex_text(16 * n + digit) == hex_text(n) + hex_text(digit),
{
    if digit < 10 {
        assert((10 * n + digit) / 10 == n && (10 * n + digit) % 10 == digit);
    }
    if digit < 16 {
        assert((16 * n + digit) / 16 == n && (16 * n + digit) % 16 == digit);
        assert(hex_text(n).push(digit_char(digit)) =~= hex_text(n) + hex_text(digit));
    }
}

/// Decimal digits are read back as the number that they write, with or without a plus
/// sign and leading zeros, exactly where it is at most the greatest number allowed.
pub proof fn law_written_numbers_are_read(n: nat, max: nat, zeros: nat)
    ensures
        ({
            let padded = Seq::new(zeros, |i: int| '0') + decimal_text(n);
            let expected = if n <= max {
                Some(n)
            } else {
                None
            };
            &&& unsigned_value(decimal_text(n), 10, max) == expected
            &&& unsigned_value(padded, 10, max) == expected
            &&& unsigned_value(seq!['+'] + padded, 10, max) == expected
        }),
{
    let none = Seq::new(0, |i: int| '0');
    lemma_padded_digits(n, 0);
    lemma_padded_digits(n, zeros);
    assert(none + decimal_text(n) =~= decimal_text(n));
    let padded = Seq::new(zeros, |i: int| '0') + decimal_text(n);
    assert((seq!['+'] + padded).skip(1) =~= padded);
    assert(padded[0] != '+') by {
        lemma_radix_text_reads_back(n, 10);
        if zeros == 0 {
            assert(padded =~= decimal_text(n));
        }
    }
    lemma_radix_text_reads_back(n, 10);
}

proof fn lemma_padded_digits(n: nat, zeros: nat)
    ensures
        digits_value(Seq::new(zeros, |i: int| '0') + decimal_text(n), 10) == Some(n),
        (Seq::new(zeros, |i: int| '0') + decimal_text(n)).len() > 0,
    decreases n,
{
    let pad = Seq::new(zeros, |i: int| '0');
    let text = pad + decimal_text(n);
    lemma_radix_text_reads_back(n, 10);
    if n < 10 {
        assert(text.drop_last() =~= pad);
        lemma_zeros_are_nothing(zeros);
        assert(digit_value(text.last(), 10) == Some(n));
    } else {
        lemma_quotient_is_smaller(n, 10);
        lemma_padded_digits(n / 10, zeros);
        assert(text.drop_last() =~= pad + decimal_text(n / 10));
        assert(digit_value(text.last(), 10) == Some(n % 10));
    }
}

proof fn lemma_zeros_are_nothing(zeros: nat)
    ensures
        digits_value(Seq::new(zeros, |i: int| '0'), 10) == Some(0nat),
    decreases zeros,
{
    let pad = Seq::new(zeros, |i: int| '0');
    if zeros > 0 {
        lemma_zeros_are_nothing((zeros - 1) as nat);
        assert(pad.drop_last() =~= Seq::new((zeros - 1) as nat, |i: int| '0'));
        assert(digit_value('0', 10) == Some(0nat));
    }
}

/// A text that holds anything but decimal digits behind one optional plus sign, or no
/// digit at all, is no number.
pub proof fn law_other_texts_are_no_numbers(text: Seq<char>, max: nat, i: int)
    requires
        0 <= i < text.len(),
        !('0' <= text[i] <= '9'),
        text[i] == '+' ==> i > 0 || text.len() == 1,
    ensures
        unsigned_value(text, 10, max) is None,
        unsigned_value(Seq::empty(), 10, max) is None,
{
    let digits = if text[0] == '+' {
        text.skip(1)
    } else {
        text
    };
    if digits.len() > 0 {
        let k = if text[0] == '+' {
            i - 1
        } else {
            i
        };
        if 0 <= k {
            lemma_no_digit_no_value(digits, k);
        }
    }
}

proof fn lemma_no_digit_no_value(digits: Seq<char>, k: int)
    requires
        0 <= k < digits.len(),
        !('0' <= digits[k] <= '9'),
    ensures
        digits_value(digits, 10) is None,
    decreases digits.len(),
{
    if k < digits.len() - 1 {
        lemma_no_digit_no_value(digits.drop_last(), k);
    } else {
        assert(digit_value(digits.last(), 10) is None);
    }
}

/// Trimming takes off a run of the character at the end, and all of it: what is left
/// does not end in the character, and only that character was taken.
pub proof fn law_trimming_takes_the_run_off(text: Seq<char>, c: char)
    ensures
        trimmed_end(text, c).len() <= text.len(),
        trimmed_end(text, c) == text.take(trimmed_end(text, c).len() as int),
        trimmed_end(text, c).len() > 0 ==> trimmed_end(text, c).last() != c,
        forall|i: int| trimmed_end(text, c).len() <= i < text.len() ==> #[trigger] text[i] == c,
    decreases text.len(),
{
    if text.len() > 0 && text.last() == c {
        let head = text.drop_last();
        law_trimming_takes_the_run_off(head, c);
        let kept = trimmed_end(text, c);
        assert(kept =~= text.take(kept.len() as int));
        assert forall|i: int| kept.len() <= i < text.len() implies #[trigger] text[i] == c by {
            if i < head.len() {
                assert(head[i] == text[i]);
            }
        }
    } else {
        assert(text =~= text.take(text.len() as int));
    }
}

/// Text is read back from its bytes, and bytes that encode no text are marked alike.
pub proof fn law_text_is_read_back(text: Seq<char>, bytes: Seq<u8>)
    ensures
        text_of(vstd::utf8::encode_utf8(text)) == text,
        shown_text(vstd::utf8::encode_utf8(text)) == text,
        !valid_utf8(bytes) ==> text_of(bytes) == "<invalid utf8>"@,
{
    vstd::utf8::encode_utf8_valid_utf8(text);
    vstd::utf8::encode_utf8_decode_utf8(text);
}

}

//! Whole numbers in decimal notation.
use vstd::prelude::*;

use crate::text::chars_of;

verus! {

/// The character of one decimal digit.
pub open spec fn digit(d: nat) -> char {
    (48 + d) as char
}

/// The decimal notation of `n`, without leading zeros.
pub open spec fn digits(n: nat) -> Seq<char>
    decreases n,
{
    if n < 10 {
        seq![digit(n)]
    } else {
        digits(n / 10).push(digit(n % 10))
    }
}

/// The decimal notation of `n`, with a minus sign where it is negative.
pub open spec fn signed_digits(n: int) -> Seq<char> {
    if n < 0 {
        seq!['-'] + digits((-n) as nat)
    } else {
        digits(n as nat)
    }
}

/// Appends the decimal notation of `n`.
fn push_digits(out: &mut String, n: u64)
    ensures
        final(out)@ == old(out)@ + digits(n as nat),
    decreases n,
{
    if n >= 10 {
        push_digits(out, n / 10);
    }
    let d: u8 = (n % 10) as u8;
    out.push((48 + d) as char);
    assert(out@ =~= old(out)@ + digits(n as nat));
}

/// The decimal notation of `n`.
pub fn unsigned_text(n: u64) -> (result: String)
    ensures
        result@ == digits(n as nat),
{
    let mut result = String::new();
    push_digits(&mut result, n);
    assert(result@ =~= digits(n as nat));
    result
}

/// The decimal notation of `n`, with a minus sign where it is negative.
pub fn signed_text(n: i32) -> (result: String)
    ensures
        result@ == signed_digits(n as int),
{
    let mut result = String::new();
    if n < 0 {
        result.push('-');
        let magnitude: u64 = (-(n as i64)) as u64;
        push_digits(&mut result, magnitude);
        assert(result@ =~= signed_digits(n as int));
    } else {
        push_digits(&mut result, n as u64);
        assert(result@ =~= signed_digits(n as int));
    }
    result
}

/// Why a text is no number.
#[derive(Clone, Copy, Debug, PartialEq, Eq, Structural)]
pub enum NumberFault {
    Empty,
    InvalidDigit,
    TooLarge,
}

impl NumberFault {
    pub open spec fn text(self) -> Seq<char> {
        match self {
            NumberFault::Empty => "cannot parse integer from empty string"@,
            NumberFault::InvalidDigit => "invalid digit found in string"@,
            NumberFault::TooLarge => "number too large to fit in target type"@,
        }
    }

    /// The message that tells of the fault.
    pub fn message(&self) -> (result: String)
        ensures
            result@ == self.text(),
    {
        match *self {
            NumberFault::Empty => "cannot parse integer from empty string".to_owned(),
            NumberFault::InvalidDigit => "invalid digit found in string".to_owned(),
            NumberFault::TooLarge => "number too large to fit in target type".to_owned(),
        }
    }
}

/// Reads the digits of `s` after a number `value` that has been read: the first character at
/// fault decides the fault.
pub open spec fn scan(s: Seq<char>, value: nat, max: nat) -> Result<nat, NumberFault>
    decreases s.len(),
{
    if s.len() == 0 {
        Ok(value)
    } else if !('0' <= s[0] <= '9') {
        Err(NumberFault::InvalidDigit)
    } else if value * 10 + (s[0] as nat - 48) > max {
        Err(NumberFault::TooLarge)
    } else {
        scan(s.drop_first(), (value * 10 + (s[0] as nat - 48)) as nat, max)
    }
}

/// The number that `s` writes in decimal digits, which one plus sign may precede, if it is at
/// most `max`.
pub open spec fn number(s: Seq<char>, max: nat) -> Result<nat, NumberFault> {
    if s.len() == 0 {
        Err(NumberFault::Empty)
    } else if s[0] == '+' {
        if s.len() == 1 {
            Err(NumberFault::InvalidDigit)
        } else {
            scan(s.drop_first(), 0, max)
        }
    } else {
        scan(s, 0, max)
    }
}

/// The number that the text writes, if it is at most `max`.
pub fn parse_number(text: &str, max: u64) -> (result: Result<u64, NumberFault>)
    ensures
        match result {
            Ok(n) => number(text@, max as nat) == Ok::<nat, NumberFault>(n as nat),
            Err(fault) => number(text@, max as nat) == Err::<nat, NumberFault>(fault),
        },
        result matches Ok(n) ==> n <= max,
{
    let chars = chars_of(text);
    if chars.len() == 0 {
        return Err(NumberFault::Empty);
    }
    let mut i: usize = 0;
    if chars[0] == '+' {
        if chars.len() == 1 {
            return Err(NumberFault::InvalidDigit);
        }
        i = 1;
    }
    let mut value: u64 = 0;
    assert(chars@.skip(0) == chars@);
    assert(chars@.skip(1) == chars@.drop_first());
    while i < chars.len()
        invariant
            i <= chars@.len(),
            chars@ == text@,
            value <= max,
            number(text@, max as nat) == scan(chars@.skip(i as int), value as nat, max as nat),
        decreases chars@.len() - i,
    {
        let c = chars[i];
        assert(chars@.skip(i as int)[0] == c);
        assert(chars@.skip(i as int).drop_first() == chars@.skip(i + 1));
        if !('0' <= c && c <= '9') {
            return Err(NumberFault::InvalidDigit);
        }
        let wide: u128 = (value as u128) * 10 + (c as u128 - 48);
        if wide > max as u128 {
            return Err(NumberFault::TooLarge);
        }
        value = wide as u64;
        i = i + 1;
    }
    Ok(value)
}

/// Reading one more digit extends the number that was read.
proof fn lemma_scan_push(s: Seq<char>, value: nat, max: nat, d: nat)
    requires
        d < 10,
        scan(s, value, max) is Ok,
        scan(s, value, max)->Ok_0 * 10 + d <= max,
    ensures
        scan(s.push(digit(d)), value, max) == Ok::<nat, NumberFault>(
            (scan(s, value, max)->Ok_0 * 10 + d) as nat,
        ),
    decreases s.len(),
{
    let longer = s.push(digit(d));
    assert('0' <= digit(d) <= '9' && digit(d) as nat == 48 + d);
    if s.len() == 0 {
        assert(longer.drop_first() =~= Seq::<char>::empty());
        assert(scan(longer.drop_first(), (value * 10 + d) as nat, max) == Ok::<nat, NumberFault>(
            (value * 10 + d) as nat,
        ));
    } else {
        assert(longer[0] == s[0]);
        assert(longer.drop_first() == s.drop_first().push(digit(d)));
        lemma_scan_push(s.drop_first(), (value * 10 + (s[0] as nat - 48)) as nat, max, d);
    }
}

/// Decimal notation has at least one character, and digits only.
pub proof fn lemma_digits(n: nat)
    ensures
        digits(n).len() > 0,
        forall|i: int| 0 <= i < digits(n).len() ==> '0' <= #[trigger] digits(n)[i] <= '9',
    decreases n,
{
    if n >= 10 {
        lemma_digits(n / 10);
        assert('0' <= digit(n % 10) <= '9');
    } else {
        assert('0' <= digit(n) <= '9');
    }
}

proof fn lemma_scan_digits(n: nat, max: nat)
    requires
        n <= max,
    ensures
        scan(digits(n), 0, max) == Ok::<nat, NumberFault>(n),
    decreases n,
{
    if n < 10 {
        let none = Seq::<char>::empty();
        assert(scan(none, 0, max) == Ok::<nat, NumberFault>(0));
        lemma_scan_push(none, 0, max, n);
        assert(none.push(digit(n)) =~= digits(n));
    } else {
        lemma_scan_digits(n / 10, max);
        lemma_scan_push(digits(n / 10), 0, max, n % 10);
    }
}

/// Reading the decimal notation of a number gives the number back.
pub proof fn law_number_of_digits(n: nat, max: nat)
    requires
        n <= max,
    ensures
        number(digits(n), max) == Ok::<nat, NumberFault>(n),
{
    lemma_digits(n);
    lemma_scan_digits(n, max);
}

/// A number that is read is at most the greatest that is allowed.
pub proof fn lemma_number_bound(s: Seq<char>, max: nat)
    ensures
        number(s, max) is Ok ==> number(s, max)->Ok_0 <= max,
{
    if s.len() > 0 {
        lemma_scan_bound(s, 0, max);
        lemma_scan_bound(s.drop_first(), 0, max);
    }
}

proof fn lemma_scan_bound(s: Seq<char>, value: nat, max: nat)
    requires
        value <= max,
    ensures
        scan(s, value, max) is Ok ==> scan(s, value, max)->Ok_0 <= max,
    decreases s.len(),
{
    if s.len() > 0 && '0' <= s[0] <= '9' && value * 10 + (s[0] as nat - 48) <= max {
        lemma_scan_bound(s.drop_first(), (value * 10 + (s[0] as nat - 48)) as nat, max);
    }
}

proof fn lemma_scan_more(s: Seq<char>, value: nat, max: nat, c: char)
    ensures
        scan(s.push(c), value, max) == match scan(s, value, max) {
            Err(fault) => Err(fault),
            Ok(n) => if !('0' <= c <= '9') {
                Err(NumberFault::InvalidDigit)
            } else if n * 10 + (c as nat - 48) > max {
                Err(NumberFault::TooLarge)
            } else {
                Ok((n * 10 + (c as nat - 48)) as nat)
            },
        },
    decreases s.len(),
{
    let longer = s.push(c);
    if s.len() == 0 {
        assert(longer.drop_first() =~= s);
        assert(longer[0] == c);
        if '0' <= c <= '9' && value * 10 + (c as nat - 48) <= max {
            let next = (value * 10 + (c as nat - 48)) as nat;
            assert(scan(longer.drop_first(), next, max) == Ok::<nat, NumberFault>(next));
        }
    } else {
        assert(longer[0] == s[0]);
        assert(longer.drop_first() =~= s.drop_first().push(c));
        if '0' <= s[0] <= '9' && value * 10 + (s[0] as nat - 48) <= max {
            lemma_scan_more(
                s.drop_first(),
                (value * 10 + (s[0] as nat - 48)) as nat,
                max,
                c,
            );
        }
    }
}

/// Numbers are read in decimal notation: a digit after a number that was read makes it ten times as
/// great and adds the digit, a first digit or one after a plus sign alone is itself, any other
/// character is a fault, and so is a number above the greatest that is allowed. A fault stays one
/// whatever follows.
pub proof fn law_reading_digits(s: Seq<char>, c: char, max: nat)
    requires
        s.len() > 0,
        s != seq!['+'],
    ensures
        number(Seq::<char>::empty(), max) == Err::<nat, NumberFault>(NumberFault::Empty),
        number(seq!['+'], max) == Err::<nat, NumberFault>(NumberFault::InvalidDigit),
        number(seq!['+', '+'], max) == Err::<nat, NumberFault>(NumberFault::InvalidDigit),
        c != '+' ==> number(seq![c], max) == number(seq!['+', c], max),
        c != '+' ==> number(seq![c], max) == if !(48 <= c as int <= 57) {
            Err(NumberFault::InvalidDigit)
        } else if c as int - 48 > max {
            Err(NumberFault::TooLarge)
        } else {
            Ok((c as int - 48) as nat)
        },
        number(s.push(c), max) == match number(s, max) {
            Err(fault) => Err(fault),
            Ok(n) => if !(48 <= c as int <= 57) {
                Err(NumberFault::InvalidDigit)
            } else if n * 10 + (c as int - 48) > max {
                Err(NumberFault::TooLarge)
            } else {
                Ok((n * 10 + (c as int - 48)) as nat)
            },
        },
{
    let none = Seq::<char>::empty();
    assert(scan(none, 0, max) == Ok::<nat, NumberFault>(0));
    lemma_scan_more(none, 0, max, c);
    assert(none.push(c) =~= seq![c]);
    assert(seq!['+', c].drop_first() =~= seq![c]);
    assert(seq!['+', '+'].drop_first() =~= seq!['+']);
    assert(s.push(c)[0] == s[0]);
    if s[0] == '+' {
        if s.len() == 1 {
            assert(s =~= seq!['+']);
        }
        assert(s.push(c).drop_first() =~= s.drop_first().push(c));
        lemma_scan_more(s.drop_first(), 0, max, c);
    } else {
        lemma_scan_more(s, 0, max, c);
    }
}

/// A number is written without leading zeros.
pub proof fn law_no_leading_zero(n: nat)
    ensures
        digits(n).len() > 0,
        digits(n)[0] == '0' ==> n == 0 && digits(n).len() == 1,
        n == 0 ==> digits(n) == seq!['0'],
    decreases n,
{
    lemma_digits(n);
    if n >= 10 {
        law_no_leading_zero(n / 10);
    } else {
        assert(digits(n) =~= seq![digit(n)]);
    }
}

/// A negative number is written as a minus sign and the number without its sign.
pub proof fn law_sign(n: nat)
    ensures
        signed_digits(n as int) == digits(n),
        n > 0 ==> signed_digits(-(n as int)) == seq!['-'] + digits(n),
{
}

/// What is said of a text that is no number.
pub proof fn law_texts_of_faults()
    ensures
        NumberFault::Empty.text() == "cannot parse integer from empty string"@,
        NumberFault::InvalidDigit.text() == "invalid digit found in string"@,
        NumberFault::TooLarge.text() == "number too large to fit in target type"@,
{
}

} // verus!

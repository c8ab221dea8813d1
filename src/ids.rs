use vstd::prelude::*;

verus! {

/// A process identifier.
#[derive(Clone, Copy, Debug, PartialEq, Eq, Structural, PartialOrd, Ord, Hash)]
pub struct Pid(pub i32);

impl Pid {
    pub fn raw(self) -> (r: i32)
        ensures
            r == self.0,
    {
        self.0
    }
}

/// A user identifier.
#[derive(Clone, Copy, Debug, PartialEq, Eq, Structural, PartialOrd, Ord, Hash)]
pub struct Uid(pub u32);

impl Uid {
    pub fn raw(self) -> (r: u32)
        ensures
            r == self.0,
    {
        self.0
    }
}

pub open spec fn is_digit(c: char) -> bool {
    '0' <= c && c <= '9'
}

pub open spec fn digit_value(c: char) -> int {
    (c as int) - ('0' as int)
}

/// The number that the decimal digits `s` spell.
pub open spec fn digits_value(s: Seq<char>) -> int
    decreases s.len(),
{
    if s.len() == 0 {
        0
    } else {
        10 * digits_value(s.drop_last()) + digit_value(s.last())
    }
}

/// The digits of a decimal numeral, after an optional `+`.
pub open spec fn numeral_digits(s: Seq<char>) -> Seq<char> {
    if s.len() > 0 && s[0] == '+' {
        s.drop_first()
    } else {
        s
    }
}

/// Whether `s` is an unsigned decimal numeral: an optional `+`, then one or
/// more digits.
pub open spec fn is_numeral(s: Seq<char>) -> bool {
    let d = numeral_digits(s);
    d.len() > 0 && forall|i: int| 0 <= i < d.len() ==> is_digit(#[trigger] d[i])
}

proof fn lemma_digits_value_nonneg(s: Seq<char>)
    requires
        forall|i: int| 0 <= i < s.len() ==> is_digit(#[trigger] s[i]),
    ensures
        digits_value(s) >= 0,
    decreases s.len(),
{
    if s.len() > 0 {
        lemma_digits_value_nonneg(s.drop_last());
    }
}

/// Reads an unsigned decimal numeral that is at most `max`.
pub fn parse_decimal(s: &str, max: u64) -> (r: Option<u64>)
    ensures
        r matches Option::Some(v) ==> is_numeral(s@) && v == digits_value(numeral_digits(s@)) && v <= max,
        r is None ==> !is_numeral(s@) || digits_value(numeral_digits(s@)) > max,
{
    let len = s.unicode_len();
    let mut i: usize = 0;
    if len > 0 && s.get_char(0) == '+' {
        i = 1;
    }
    let ghost d = numeral_digits(s@);
    assert(d =~= s@.subrange(i as int, len as int));
    if i == len {
        return None;
    }
    let start = i;
    let mut value: u64 = 0;
    while i < len
        invariant
            start <= i <= len,
            len == s@.len(),
            d == s@.subrange(start as int, len as int),
            d == numeral_digits(s@),
            forall|k: int| start <= k < i ==> is_digit(#[trigger] s@[k]),
            value as int == digits_value(s@.subrange(start as int, i as int)),
            value <= max,
        decreases len - i,
    {
        let c = s.get_char(i);
        assert(s@.subrange(start as int, i + 1).drop_last() =~= s@.subrange(start as int, i as int));
        if !('0' <= c && c <= '9') {
            assert(d[i - start] == c);
            assert(!is_digit(d[i - start]));
            assert(!is_numeral(s@)) by {
                if is_numeral(s@) {
                    let dd = numeral_digits(s@);
                    assert(dd == d);
                    assert(is_digit(dd[i - start]));
                }
            }
            return None;
        }
        let digit = (c as u32 - '0' as u32) as u64;
        if digit > max || value > (max - digit) / 10 {
            proof {
                assert(value * 10 + digit > max) by (nonlinear_arith)
                    requires
                        digit > max || value > (max - digit) / 10,
                        value >= 0,
                ;
                assert(digits_value(s@.subrange(start as int, i + 1)) == value * 10 + digit);
                if is_numeral(s@) {
                    let dd = numeral_digits(s@);
                    assert(dd == d);
                    assert(forall|k: int| 0 <= k < dd.len() ==> is_digit(#[trigger] dd[k]));
                    lemma_value_grows(d, (i + 1 - start) as int);
                    assert(d.subrange(0, (i + 1 - start) as int) =~= s@.subrange(start as int, i + 1));
                }
            }
            return None;
        }
        value = value * 10 + digit;
        i = i + 1;
    }
    assert(s@.subrange(start as int, i as int) =~= d);
    Some(value)
}

/// The value of a prefix of digits never exceeds the value of the whole.
proof fn lemma_value_grows(d: Seq<char>, k: int)
    requires
        0 <= k <= d.len(),
        forall|i: int| 0 <= i < d.len() ==> is_digit(#[trigger] d[i]),
    ensures
        digits_value(d.subrange(0, k)) <= digits_value(d),
    decreases d.len() - k,
{
    if k < d.len() {
        lemma_value_grows(d, k + 1);
        assert(d.subrange(0, k + 1).drop_last() =~= d.subrange(0, k));
        lemma_digits_value_nonneg(d.subrange(0, k));
    } else {
        assert(d.subrange(0, k) =~= d);
    }
}

impl Uid {
    /// Reads a user id written as a decimal numeral.
    pub fn parse(s: &str) -> (r: Option<Uid>)
        ensures
            r matches Option::Some(u) ==> is_numeral(s@) && u.0 == digits_value(numeral_digits(s@)),
            r is None ==> !is_numeral(s@) || digits_value(numeral_digits(s@)) > u32::MAX,
    {
        match parse_decimal(s, u32::MAX as u64) {
            Some(v) => Some(Uid(v as u32)),
            None => None,
        }
    }
}

impl Pid {
    /// Reads a process id written as a decimal numeral.
    pub fn parse(s: &str) -> (r: Option<Pid>)
        ensures
            r matches Option::Some(p) ==> is_numeral(s@) && p.0 == digits_value(numeral_digits(s@)),
            r is None ==> !is_numeral(s@) || digits_value(numeral_digits(s@)) > i32::MAX,
    {
        match parse_decimal(s, i32::MAX as u64) {
            Some(v) => Some(Pid(v as i32)),
            None => None,
        }
    }
}

} // verus!

use vstd::prelude::*;

verus! {

/// The pieces of `s` between occurrences of `sep`; `n` separators give
/// `n + 1` pieces, empty ones included.
pub open spec fn split_on(s: Seq<u8>, sep: u8) -> Seq<Seq<u8>>
    decreases s.len(),
{
    if s.len() == 0 {
        seq![Seq::empty()]
    } else {
        let prev = split_on(s.drop_last(), sep);
        if s.last() == sep {
            prev.push(Seq::empty())
        } else {
            prev.update(prev.len() - 1, prev.last().push(s.last()))
        }
    }
}

pub(crate) proof fn lemma_split_nonempty(s: Seq<u8>, sep: u8)
    ensures
        split_on(s, sep).len() >= 1,
    decreases s.len(),
{
    if s.len() > 0 {
        lemma_split_nonempty(s.drop_last(), sep);
    }
}

pub open spec fn views(v: Seq<Vec<u8>>) -> Seq<Seq<u8>> {
    Seq::new(v.len(), |i: int| v[i]@)
}

/// Splits `s[from..]` at every `sep`.
pub fn split_bytes(s: &Vec<u8>, from: usize, sep: u8) -> (r: Vec<Vec<u8>>)
    requires
        from <= s.len(),
    ensures
        views(r@) == split_on(s@.subrange(from as int, s.len() as int), sep),
{
    let mut done: Vec<Vec<u8>> = Vec::new();
    let mut cur: Vec<u8> = Vec::new();
    let mut i: usize = from;
    assert(s@.subrange(from as int, from as int) =~= Seq::<u8>::empty());
    assert(views(done@).push(cur@) =~= split_on(s@.subrange(from as int, i as int), sep));
    while i < s.len()
        invariant
            from <= i <= s.len(),
            views(done@).push(cur@) == split_on(s@.subrange(from as int, i as int), sep),
        decreases s.len() - i,
    {
        let b = s[i];
        let ghost prev = split_on(s@.subrange(from as int, i as int), sep);
        assert(s@.subrange(from as int, i + 1).drop_last() =~= s@.subrange(from as int, i as int));
        if b == sep {
            let finished = cur;
            done.push(finished);
            cur = Vec::new();
            assert(views(done@).push(cur@) =~= prev.push(Seq::empty()));
        } else {
            cur.push(b);
            assert(views(done@).push(cur@) =~= prev.update(prev.len() - 1, prev.last().push(b)));
        }
        i = i + 1;
    }
    let ghost pieces = views(done@).push(cur@);
    done.push(cur);
    assert(views(done@) =~= pieces);
    done
}

pub open spec fn is_digit_byte(b: u8) -> bool {
    0x30 <= b <= 0x39
}

/// The number that the decimal digit bytes `s` spell.
pub open spec fn digit_bytes_value(s: Seq<u8>) -> int
    decreases s.len(),
{
    if s.len() == 0 {
        0
    } else {
        10 * digit_bytes_value(s.drop_last()) + (s.last() - 0x30)
    }
}

pub open spec fn all_digits(s: Seq<u8>) -> bool {
    s.len() > 0 && forall|i: int| 0 <= i < s.len() ==> is_digit_byte(#[trigger] s[i])
}

proof fn lemma_value_nonneg(s: Seq<u8>)
    requires
        forall|i: int| 0 <= i < s.len() ==> is_digit_byte(#[trigger] s[i]),
    ensures
        digit_bytes_value(s) >= 0,
    decreases s.len(),
{
    if s.len() > 0 {
        lemma_value_nonneg(s.drop_last());
    }
}

proof fn lemma_value_grows(d: Seq<u8>, k: int)
    requires
        0 <= k <= d.len(),
        forall|i: int| 0 <= i < d.len() ==> is_digit_byte(#[trigger] d[i]),
    ensures
        digit_bytes_value(d.subrange(0, k)) <= digit_bytes_value(d),
    decreases d.len() - k,
{
    if k < d.len() {
        lemma_value_grows(d, k + 1);
        assert(d.subrange(0, k + 1).drop_last() =~= d.subrange(0, k));
        lemma_value_nonneg(d.subrange(0, k));
    } else {
        assert(d.subrange(0, k) =~= d);
    }
}

/// Reads the digits `s[start..]` as a number at most `max`.
fn parse_digits(s: &Vec<u8>, start: usize, max: u64) -> (r: Option<u64>)
    requires
        start <= s.len(),
    ensures
        ({
            let d = s@.subrange(start as int, s.len() as int);
            &&& r matches Option::Some(v) ==> all_digits(d) && v == digit_bytes_value(d) && v <= max
            &&& r is None ==> !all_digits(d) || digit_bytes_value(d) > max
        }),
{
    let ghost d = s@.subrange(start as int, s.len() as int);
    if start == s.len() {
        return None;
    }
    let mut i: usize = start;
    let mut value: u64 = 0;
    while i < s.len()
        invariant
            start <= i <= s.len(),
            d == s@.subrange(start as int, s.len() as int),
            forall|k: int| start <= k < i ==> is_digit_byte(#[trigger] s@[k]),
            value as int == digit_bytes_value(s@.subrange(start as int, i as int)),
            value <= max,
        decreases s.len() - i,
    {
        let b = s[i];
        assert(s@.subrange(start as int, i + 1).drop_last() =~= s@.subrange(start as int, i as int));
        if !(0x30 <= b && b <= 0x39) {
            assert(d[i - start] == b);
            assert(!all_digits(d));
            return None;
        }
        let digit = (b - 0x30) as u64;
        if digit > max || value > (max - digit) / 10 {
            proof {
                assert(value * 10 + digit > max) by (nonlinear_arith)
                    requires
                        digit > max || value > (max - digit) / 10,
                        value >= 0,
                ;
                assert(digit_bytes_value(s@.subrange(start as int, i + 1)) == value * 10 + digit);
                if all_digits(d) {
                    lemma_value_grows(d, (i + 1 - start) as int);
                    assert(d.subrange(0, (i + 1 - start) as int) =~= s@.subrange(start as int, i + 1));
                }
            }
            return None;
        }
        value = value * 10 + digit;
        i = i + 1;
    }
    assert(s@.subrange(start as int, i as int) =~= d);
    Some(value)
}

/// The value of a decimal numeral in bytes: an optional sign, then digits.
/// `None` where it is not one, or where a minus sign stands and `signed` is
/// false.
pub open spec fn numeral_value(s: Seq<u8>, signed: bool) -> Option<int> {
    if s.len() > 0 && s[0] == 0x2d && signed {
        if all_digits(s.drop_first()) {
            Option::Some(-digit_bytes_value(s.drop_first()))
        } else {
            Option::None
        }
    } else if s.len() > 0 && s[0] == 0x2b {
        if all_digits(s.drop_first()) {
            Option::Some(digit_bytes_value(s.drop_first()))
        } else {
            Option::None
        }
    } else if all_digits(s) {
        Option::Some(digit_bytes_value(s))
    } else {
        Option::None
    }
}

/// Reads an unsigned decimal number that fits in `u64`.
pub fn parse_u64(s: &Vec<u8>) -> (r: Option<u64>)
    ensures
        r matches Option::Some(x) ==> numeral_value(s@, false) == Option::Some(x as int),
        r is None ==> match numeral_value(s@, false) {
            Option::Some(v) => v > u64::MAX,
            Option::None => true,
        },
{
    let start: usize = if s.len() > 0 && s[0] == 0x2b {
        1
    } else {
        0
    };
    assert(start == 1 ==> s@.subrange(1, s.len() as int) =~= s@.drop_first());
    assert(start == 0 ==> s@.subrange(0, s.len() as int) =~= s@);
    proof {
        if start == 0 && s.len() > 0 && s[0] == 0x2d {
            assert(!is_digit_byte(s@[0]));
        }
    }
    parse_digits(s, start, u64::MAX)
}

/// Reads a signed decimal number that fits in `i32`.
pub fn parse_i32(s: &Vec<u8>) -> (r: Option<i32>)
    ensures
        r matches Option::Some(x) ==> numeral_value(s@, true) == Option::Some(x as int),
        r is None ==> match numeral_value(s@, true) {
            Option::Some(v) => !(i32::MIN <= v <= i32::MAX),
            Option::None => true,
        },
{
    let negative = s.len() > 0 && s[0] == 0x2d;
    let start: usize = if s.len() > 0 && (s[0] == 0x2b || s[0] == 0x2d) {
        1
    } else {
        0
    };
    assert(start == 1 ==> s@.subrange(1, s.len() as int) =~= s@.drop_first());
    assert(start == 0 ==> s@.subrange(0, s.len() as int) =~= s@);
    let max: u64 = if negative {
        2147483648
    } else {
        2147483647
    };
    match parse_digits(s, start, max) {
        Some(v) => if negative {
            Some((0 - v as i64) as i32)
        } else {
            Some(v as i32)
        },
        None => None,
    }
}

} // verus!

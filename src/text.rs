use vstd::prelude::*;

verus! {

pub open spec fn repeat_char(c: char, n: int) -> Seq<char> {
    Seq::new(if n >= 0 { n as nat } else { 0 }, |_i: int| c)
}

pub open spec fn spaces(n: int) -> Seq<char> {
    repeat_char(' ', n)
}

/// `s` cut to at most `w` characters; a cut text ends in an ellipsis.
pub open spec fn truncated(s: Seq<char>, w: int) -> Seq<char> {
    if s.len() <= w {
        s
    } else if w <= 0 {
        Seq::empty()
    } else {
        s.take(w - 1).push('…')
    }
}

/// `s` cut to `w` characters if longer, and filled with spaces on the right
/// to exactly `w` characters.
pub open spec fn fit_left(s: Seq<char>, w: int) -> Seq<char> {
    let t = truncated(s, w);
    t + spaces(w - t.len())
}

/// `s` cut to `w` characters if longer, and centred in exactly `w`
/// characters; an odd space goes to the right.
pub open spec fn fit_center(s: Seq<char>, w: int) -> Seq<char> {
    let t = truncated(s, w);
    let gap = w - t.len();
    spaces(gap / 2) + t + spaces(gap - gap / 2)
}

/// `s` filled with spaces on the right to at least `w` characters; a longer
/// text stays whole.
pub open spec fn pad_left(s: Seq<char>, w: int) -> Seq<char> {
    if s.len() >= w {
        s
    } else {
        s + spaces(w - s.len())
    }
}

pub proof fn lemma_truncated_len(s: Seq<char>, w: int)
    requires
        w >= 0,
    ensures
        truncated(s, w).len() == if s.len() <= w {
            s.len() as int
        } else {
            w
        },
        fit_left(s, w).len() == w,
        fit_center(s, w).len() == w,
{
}

/// Relies on `String::push`: the character is appended.
#[verifier::external_body]
pub(crate) fn push_char(s: &mut String, c: char)
    ensures
        final(s)@ == old(s)@.push(c),
{
    s.push(c);
}

/// Appends `n` copies of `c`.
pub fn push_repeat(out: &mut String, c: char, n: usize)
    ensures
        final(out)@ == old(out)@ + repeat_char(c, n as int),
{
    let ghost start = out@;
    let mut i: usize = 0;
    while i < n
        invariant
            i <= n,
            out@ == start + repeat_char(c, i as int),
        decreases n - i,
    {
        push_char(out, c);
        i = i + 1;
        assert(out@ =~= start + repeat_char(c, i as int));
    }
}

/// Shortens `string` to at most `max_len` characters, marking a cut with a
/// trailing ellipsis.
pub fn truncate_string(string: &mut String, max_len: usize)
    ensures
        final(string)@ == truncated(old(string)@, max_len as int),
{
    let len = string.as_str().unicode_len();
    if len > max_len {
        let mut cut = String::new();
        if max_len > 0 {
            let head = string.as_str().substring_char(0, max_len - 1);
            cut.append(head);
            push_char(&mut cut, '…');
            assert(cut@ =~= truncated(old(string)@, max_len as int));
        } else {
            assert(cut@ =~= truncated(old(string)@, max_len as int));
        }
        *string = cut;
    }
}

/// Appends `text` cut and filled to exactly `w` characters, left-aligned.
pub fn push_fit_left(out: &mut String, text: &str, w: usize)
    ensures
        final(out)@ == old(out)@ + fit_left(text@, w as int),
{
    let mut value = String::new();
    value.append(text);
    truncate_string(&mut value, w);
    let len = value.as_str().unicode_len();
    out.append(value.as_str());
    push_repeat(out, ' ', w - len);
    assert(out@ =~= old(out)@ + fit_left(text@, w as int));
}

/// Appends `text` cut and filled to exactly `w` characters, centred.
pub fn push_fit_center(out: &mut String, text: &str, w: usize)
    ensures
        final(out)@ == old(out)@ + fit_center(text@, w as int),
{
    let mut value = String::new();
    value.append(text);
    truncate_string(&mut value, w);
    let len = value.as_str().unicode_len();
    let gap = w - len;
    push_repeat(out, ' ', gap / 2);
    out.append(value.as_str());
    push_repeat(out, ' ', gap - gap / 2);
    assert(out@ =~= old(out)@ + fit_center(text@, w as int));
}

/// Appends `text` filled with spaces to at least `w` characters.
pub fn push_pad_left(out: &mut String, text: &str, w: usize)
    ensures
        final(out)@ == old(out)@ + pad_left(text@, w as int),
{
    let len = text.unicode_len();
    out.append(text);
    if len < w {
        push_repeat(out, ' ', w - len);
    }
    assert(out@ =~= old(out)@ + pad_left(text@, w as int));
}


pub open spec fn digit_char(d: int) -> char {
    (('0' as int) + d) as char
}

/// The decimal numeral of `n`, without leading zeros.
pub open spec fn dec(n: nat) -> Seq<char>
    decreases n,
{
    if n < 10 {
        seq![digit_char(n as int)]
    } else {
        dec(n / 10).push(digit_char((n % 10) as int))
    }
}

/// The decimal numeral of `n`, filled with leading zeros to `w` digits.
pub open spec fn dec_zero_padded(n: nat, w: int) -> Seq<char> {
    repeat_char('0', w - dec(n).len()) + dec(n)
}

fn digit(d: u64) -> (c: char)
    requires
        d < 10,
    ensures
        c == digit_char(d as int),
{
    if d == 0 {
        '0'
    } else if d == 1 {
        '1'
    } else if d == 2 {
        '2'
    } else if d == 3 {
        '3'
    } else if d == 4 {
        '4'
    } else if d == 5 {
        '5'
    } else if d == 6 {
        '6'
    } else if d == 7 {
        '7'
    } else if d == 8 {
        '8'
    } else {
        '9'
    }
}

/// Appends the decimal numeral of `n`.
pub fn push_decimal(out: &mut String, n: u64)
    ensures
        final(out)@ == old(out)@ + dec(n as nat),
    decreases n,
{
    if n >= 10 {
        push_decimal(out, n / 10);
    }
    push_char(out, digit(n % 10));
    assert(final(out)@ =~= old(out)@ + dec(n as nat));
}

/// Appends the decimal numeral of `n` with leading zeros to `w` digits.
pub fn push_zero_padded(out: &mut String, n: u64, w: usize)
    ensures
        final(out)@ == old(out)@ + dec_zero_padded(n as nat, w as int),
{
    let len = decimal_len(n);
    if len < w {
        push_repeat(out, '0', w - len);
    } else {
        assert(repeat_char('0', w - dec(n as nat).len()) =~= Seq::<char>::empty());
    }
    push_decimal(out, n);
    assert(final(out)@ =~= old(out)@ + dec_zero_padded(n as nat, w as int));
}

pub open spec fn pow10(k: nat) -> nat
    decreases k,
{
    if k == 0 {
        1
    } else {
        10 * pow10((k - 1) as nat)
    }
}

proof fn lemma_dec_len(n: nat, k: nat)
    requires
        n < pow10(k),
        k >= 1,
    ensures
        dec(n).len() <= k,
    decreases k,
{
    if n >= 10 {
        assert(k >= 2) by {
            if k == 1 {
                assert(pow10(1) == 10) by {
                    reveal_with_fuel(pow10, 2);
                }
            }
        }
        assert(n / 10 < pow10((k - 1) as nat));
        lemma_dec_len(n / 10, (k - 1) as nat);
    }
}

/// Number of digits of `n` in decimal.
pub fn decimal_len(n: u64) -> (r: usize)
    ensures
        r == dec(n as nat).len(),
        1 <= r <= 20,
    decreases n,
{
    proof {
        assert(pow10(20) == 100_000_000_000_000_000_000) by {
            reveal_with_fuel(pow10, 21);
        }
        lemma_dec_len(n as nat, 20);
    }
    if n >= 10 {
        decimal_len(n / 10) + 1
    } else {
        1
    }
}

/// The decimal numeral of `n`, with a minus sign where negative.
pub open spec fn int_text(n: int) -> Seq<char> {
    if n < 0 {
        seq!['-'] + dec((-n) as nat)
    } else {
        dec(n as nat)
    }
}

pub fn push_int(out: &mut String, n: i64)
    ensures
        final(out)@ == old(out)@ + int_text(n as int),
{
    if n < 0 {
        push_char(out, '-');
        let m: u64 = if n == i64::MIN {
            9223372036854775808u64
        } else {
            (-n) as u64
        };
        push_decimal(out, m);
        assert(final(out)@ =~= old(out)@ + int_text(n as int));
    } else {
        push_decimal(out, n as u64);
    }
}

pub open spec fn pow1024(k: nat) -> nat
    decreases k,
{
    if k == 0 {
        1
    } else {
        1024 * pow1024((k - 1) as nat)
    }
}

/// The largest `k` up to 6 for which 1024^k is at most `m`, from `k` on.
pub open spec fn unit_from(m: nat, k: nat) -> nat
    decreases 6 - k,
{
    if k >= 6 || pow1024(k + 1) > m {
        k
    } else {
        unit_from(m, k + 1)
    }
}

/// The binary unit of a memory size: 0 for bytes, 1 for KiB, and on to EiB.
pub open spec fn mem_unit(mem: nat) -> nat {
    unit_from(if mem == 0 { 1 } else { mem }, 0)
}

pub open spec fn unit_name(k: nat) -> Seq<char> {
    if k == 0 {
        seq!['B']
    } else {
        seq![
            if k == 1 { 'K' } else if k == 2 { 'M' } else if k == 3 { 'G' } else if k == 4 { 'T' } else if k == 5 { 'P' } else { 'E' },
            'i',
            'B',
        ]
    }
}

/// `mem` in tenths of its unit, rounded to nearest, ties to even.
pub open spec fn mem_tenths(mem: nat) -> nat {
    let d = pow1024(mem_unit(mem));
    let q = (mem * 10) / d;
    let r = (mem * 10) % d;
    if 2 * r > d || (2 * r == d && q % 2 == 1) {
        q + 1
    } else {
        q
    }
}

/// A memory size in its largest binary unit that keeps it at least one,
/// with one decimal: `1.5 KiB`.
pub open spec fn mem_text(mem: nat) -> Seq<char> {
    let t = mem_tenths(mem);
    dec(t / 10) + seq!['.'] + dec(t % 10) + seq![' '] + unit_name(mem_unit(mem))
}

proof fn lemma_pow1024_bounds(k: nat)
    requires
        k <= 7,
    ensures
        1 <= pow1024(k) <= 0x8000_0000_0000_0000_0000,
        k <= 6 ==> pow1024(k) <= 0x1000_0000_0000_0000,
    decreases k,
{
    if k > 0 {
        lemma_pow1024_bounds((k - 1) as nat);
    }
    reveal_with_fuel(pow1024, 8);
}

pub fn format_mem(mem: u64) -> (r: String)
    ensures
        r@ == mem_text(mem as nat),
{
    let m: u128 = if mem == 0 {
        1
    } else {
        mem as u128
    };
    let mut k: u64 = 0;
    let mut d: u128 = 1;
    proof {
        reveal_with_fuel(pow1024, 8);
    }
    while k < 6 && d * 1024 <= m
        invariant
            k <= 6,
            d == pow1024(k as nat),
            d <= 0x1000_0000_0000_0000,
            unit_from(m as nat, 0) == unit_from(m as nat, k as nat),
        decreases 6 - k,
    {
        proof {
            lemma_pow1024_bounds((k + 1) as nat);
        }
        d = d * 1024;
        k = k + 1;
    }
    proof {
        lemma_pow1024_bounds(k as nat);
        if k < 6 {
            lemma_pow1024_bounds((k + 1) as nat);
        }
    }
    let q: u128 = (mem as u128 * 10) / d;
    let rem: u128 = (mem as u128 * 10) % d;
    let t: u128 = if 2 * rem > d || (2 * rem == d && q % 2 == 1) {
        q + 1
    } else {
        q
    };
    assert(t as nat == mem_tenths(mem as nat));
    assert(q as int <= (mem as int) * 10) by (nonlinear_arith)
        requires
            q as int == ((mem as int) * 10) / (d as int),
            d >= 1,
            mem >= 0,
    ;
    let mut out = String::new();
    push_decimal(&mut out, (t / 10) as u64);
    push_char(&mut out, '.');
    push_decimal(&mut out, (t % 10) as u64);
    push_char(&mut out, ' ');
    if k == 0 {
        push_char(&mut out, 'B');
    } else {
        let c = if k == 1 {
            'K'
        } else if k == 2 {
            'M'
        } else if k == 3 {
            'G'
        } else if k == 4 {
            'T'
        } else if k == 5 {
            'P'
        } else {
            'E'
        };
        push_char(&mut out, c);
        push_char(&mut out, 'i');
        push_char(&mut out, 'B');
    }
    assert(out@ =~= mem_text(mem as nat));
    out
}


/// Pairs each item with whether it is the first.
pub fn mark_first<T>(items: Vec<T>) -> (r: Vec<(bool, T)>)
    ensures
        r.len() == items.len(),
        forall|i: int| 0 <= i < r.len() ==> #[trigger] r@[i] == (i == 0, items@[i]),
{
    let ghost orig = items@;
    let mut rest = items;
    let mut out: Vec<(bool, T)> = Vec::new();
    while rest.len() > 0
        invariant
            out.len() + rest.len() == orig.len(),
            rest@ == orig.subrange(out.len() as int, orig.len() as int),
            forall|i: int| 0 <= i < out.len() ==> #[trigger] out@[i] == (i == 0, orig[i]),
        decreases rest.len(),
    {
        let item = rest.remove(0);
        let first = out.len() == 0;
        out.push((first, item));
        assert(rest@ =~= orig.subrange(out.len() as int, orig.len() as int));
    }
    out
}

} // verus!

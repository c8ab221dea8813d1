use vstd::prelude::*;

verus! {

/// Sum of the first `i` entries.
pub open spec fn sum_to(s: Seq<int>, i: int) -> int
    decreases i,
{
    if i <= 0 {
        0
    } else {
        sum_to(s, i - 1) + s[i - 1]
    }
}

/// Sum of the first `i` entries that are flagged.
pub open spec fn flagged_sum_to(s: Seq<int>, f: Seq<bool>, i: int) -> int
    decreases i,
{
    if i <= 0 {
        0
    } else {
        flagged_sum_to(s, f, i - 1) + if f[i - 1] {
            s[i - 1]
        } else {
            0
        }
    }
}

/// Number of flags set among the first `i`.
pub open spec fn count_to(f: Seq<bool>, i: int) -> int
    decreases i,
{
    if i <= 0 {
        0
    } else {
        count_to(f, i - 1) + if f[i - 1] {
            1int
        } else {
            0
        }
    }
}

pub open spec fn as_ints(w: Seq<usize>) -> Seq<int> {
    Seq::new(w.len(), |i: int| w[i] as int)
}

pub open spec fn ceil_div(a: int, b: int) -> int {
    (a + b - 1) / b
}

/// Division that rounds toward zero.
pub open spec fn trunc_div(a: int, b: int) -> int {
    if a >= 0 {
        a / b
    } else {
        -((-a) / b)
    }
}

/// Width of a line: the columns' widths plus the fixed `overhead`
/// (padding and separators).
pub open spec fn total_width(w: Seq<usize>, overhead: int) -> int {
    sum_to(as_ints(w), w.len() as int) + overhead
}

pub open spec fn shrinkable_width(w: Seq<usize>, f: Seq<bool>) -> int {
    flagged_sum_to(as_ints(w), f, w.len() as int)
}

/// The part of the line that shrinking cannot touch.
pub open spec fn fixed_width(w: Seq<usize>, f: Seq<bool>, overhead: int) -> int {
    total_width(w, overhead) - shrinkable_width(w, f)
}

/// The target, raised to the fixed width where it is below it.
pub open spec fn effective_target(w: Seq<usize>, f: Seq<bool>, overhead: int, target: int) -> int {
    if target >= fixed_width(w, f, overhead) {
        target
    } else {
        fixed_width(w, f, overhead)
    }
}

/// Whether fitting changes anything: the line is wider than the target, some
/// width can shrink, and the arithmetic of the blend stays in range.
pub open spec fn needs_fit(w: Seq<usize>, f: Seq<bool>, overhead: int, target: int) -> bool {
    &&& total_width(w, overhead) > target
    &&& shrinkable_width(w, f) > 0
    &&& 4 * total_width(w, overhead) <= usize::MAX
}

/// Width of a shrinkable column after the blended pass: between removing a
/// share of the excess proportional to the column's width and giving every
/// shrinkable column an equal share of the room. The proportional cut weighs
/// `(4 * total - 3 * target) / (4 * total)`: a quarter when the line is just
/// over the target, more the further it is over, so that a large excess is
/// cut mostly in proportion and a small one is split mostly evenly.
pub open spec fn blend_at(w: Seq<usize>, f: Seq<bool>, overhead: int, target: int, i: int) -> int {
    let total = total_width(w, overhead);
    let s = shrinkable_width(w, f);
    let t = effective_target(w, f, overhead, target);
    let excess = total - t;
    let room = t - fixed_width(w, f, overhead);
    let equal = room / count_to(f, w.len() as int);
    let scaled = w[i] - ceil_div(excess * w[i], s);
    if f[i] {
        equal + trunc_div((scaled - equal) * (4 * total - 3 * t), 4 * total)
    } else {
        w[i] as int
    }
}

pub open spec fn blended(w: Seq<usize>, f: Seq<bool>, overhead: int, target: int) -> Seq<int> {
    Seq::new(w.len(), |i: int| blend_at(w, f, overhead, target, i))
}

/// What the blended pass leaves over (positive) or takes too much (negative).
pub open spec fn slack(w: Seq<usize>, f: Seq<bool>, overhead: int, target: int) -> int {
    let room = effective_target(w, f, overhead, target) - fixed_width(w, f, overhead);
    room - flagged_sum_to(blended(w, f, overhead, target), f, w.len() as int)
}

/// How much of `amount` the flagged columns before `i` give up, each as much
/// as it has, front to back.
pub open spec fn cut_before(b: Seq<int>, f: Seq<bool>, amount: int, i: int) -> int
    decreases i,
{
    if i <= 0 {
        0
    } else {
        let prev = cut_before(b, f, amount, i - 1);
        prev + if f[i - 1] {
            if b[i - 1] <= amount - prev {
                b[i - 1]
            } else {
                amount - prev
            }
        } else {
            0
        }
    }
}

pub open spec fn cut_at(b: Seq<int>, f: Seq<bool>, amount: int, i: int) -> int {
    cut_before(b, f, amount, i + 1) - cut_before(b, f, amount, i)
}

/// Final width of column `i`.
pub open spec fn fitted_at(w: Seq<usize>, f: Seq<bool>, overhead: int, target: int, i: int) -> int {
    let b = blended(w, f, overhead, target);
    let d = slack(w, f, overhead, target);
    let n = w.len() as int;
    if !needs_fit(w, f, overhead, target) {
        w[i] as int
    } else if d >= 0 {
        b[i] + d / n + if i < d % n {
            1int
        } else {
            0
        }
    } else {
        b[i] - cut_at(b, f, -d, i)
    }
}


pub(crate) proof fn lemma_sums(s: Seq<int>, f: Seq<bool>, i: int)
    requires
        0 <= i <= s.len(),
        f.len() == s.len(),
        forall|j: int| 0 <= j < s.len() ==> 0 <= #[trigger] s[j],
    ensures
        0 <= flagged_sum_to(s, f, i) <= sum_to(s, i),
        0 <= count_to(f, i) <= i,
        count_to(f, i) == 0 ==> flagged_sum_to(s, f, i) == 0,
    decreases i,
{
    if i > 0 {
        lemma_sums(s, f, i - 1);
    }
}

pub(crate) proof fn lemma_sum_mono(s: Seq<int>, i: int, j: int)
    requires
        0 <= i <= j <= s.len(),
        forall|k: int| 0 <= k < s.len() ==> 0 <= #[trigger] s[k],
    ensures
        sum_to(s, i) <= sum_to(s, j),
    decreases j,
{
    if i < j {
        lemma_sum_mono(s, i, j - 1);
    }
}

proof fn lemma_ceil_share(e: int, w: int, s: int)
    requires
        0 <= e <= s,
        0 < s,
        0 <= w,
    ensures
        0 <= ceil_div(e * w, s) <= w,
{
    assert(0 <= e * w <= s * w) by (nonlinear_arith)
        requires
            0 <= e <= s,
            0 <= w,
    ;
    assert((e * w + s - 1) / s <= w) by (nonlinear_arith)
        requires
            e * w <= s * w,
            0 < s,
    ;
    assert(0 <= (e * w + s - 1) / s) by (nonlinear_arith)
        requires
            0 <= e * w,
            0 < s,
    ;
}

proof fn lemma_weighted(a: int, num: int, den: int)
    requires
        0 <= a,
        0 < num <= den,
    ensures
        0 <= a * num / den <= a,
        a * num <= a * den,
{
    assert(a * num <= a * den) by (nonlinear_arith)
        requires
            0 <= a,
            num <= den,
    ;
    assert(a * num / den <= a) by (nonlinear_arith)
        requires
            a * num <= a * den,
            0 < den,
    ;
    assert(0 <= a * num / den) by (nonlinear_arith)
        requires
            0 <= a,
            0 < num,
            0 < den,
    ;
}

proof fn lemma_elem_le_sum(s: Seq<int>, j: int)
    requires
        0 <= j < s.len(),
        forall|k: int| 0 <= k < s.len() ==> 0 <= #[trigger] s[k],
    ensures
        s[j] <= sum_to(s, s.len() as int),
{
    lemma_sum_mono(s, 0, j);
    lemma_sum_mono(s, j + 1, s.len() as int);
    assert(sum_to(s, j + 1) == sum_to(s, j) + s[j]);
}

fn copy_widths(w: &Vec<usize>) -> (r: Vec<usize>)
    ensures
        r@ == w@,
{
    let mut r: Vec<usize> = Vec::new();
    let mut i: usize = 0;
    while i < w.len()
        invariant
            i <= w.len(),
            r@ == w@.take(i as int),
        decreases w.len() - i,
    {
        r.push(w[i]);
        i = i + 1;
        assert(r@ =~= w@.take(i as int));
    }
    assert(r@ =~= w@);
    r
}

/// Fits a row of column widths into `target` characters.
///
/// `overhead` is the part of the line that belongs to no column (padding and
/// separators). Where the line is wider than the target, only the columns
/// flagged in `shrinkable` lose width: a blend of a proportional cut and an
/// equal split, after which the rounding slack is handed out one unit at a
/// time from the first column on (or, where the blend took too little, taken
/// from the first shrinkable columns), so that the line meets the target
/// exactly whenever the target leaves room for the fixed part.
pub fn fit_widths(widths: &Vec<usize>, shrinkable: &Vec<bool>, overhead: usize, target: usize) -> (r: Vec<usize>)
    requires
        widths.len() == shrinkable.len(),
    ensures
        r.len() == widths.len(),
        forall|i: int|
            0 <= i < widths.len() ==> r@[i] as int == fitted_at(
                widths@,
                shrinkable@,
                overhead as int,
                target as int,
                i,
            ),
{
    let ghost w = widths@;
    let ghost f = shrinkable@;
    let ghost ws = as_ints(w);
    let n = widths.len();
    assert forall|j: int| 0 <= j < ws.len() implies 0 <= #[trigger] ws[j] by {}
    let mut total: u128 = overhead as u128;
    let mut ssum: u128 = 0;
    let mut k: u128 = 0;
    let mut i: usize = 0;
    while i < n
        invariant
            i <= n,
            n == w.len(),
            f.len() == n,
            w == widths@,
            f == shrinkable@,
            ws == as_ints(w),
            forall|j: int| 0 <= j < ws.len() ==> 0 <= #[trigger] ws[j],
            total as int == sum_to(ws, i as int) + overhead,
            ssum as int == flagged_sum_to(ws, f, i as int),
            k as int == count_to(f, i as int),
            total <= usize::MAX,
        decreases n - i,
    {
        proof {
            lemma_sums(ws, f, i as int);
        }
        total = total + widths[i] as u128;
        if shrinkable[i] {
            ssum = ssum + widths[i] as u128;
            k = k + 1;
        }
        i = i + 1;
        if total > usize::MAX as u128 {
            proof {
                lemma_sum_mono(ws, i as int, n as int);
            }
            return copy_widths(widths);
        }
    }
    proof {
        lemma_sums(ws, f, n as int);
    }
    if !(total > target as u128 && ssum > 0 && 4 * total <= usize::MAX as u128) {
        return copy_widths(widths);
    }
    let fixed: u128 = total - ssum;
    let t: u128 = if target as u128 >= fixed {
        target as u128
    } else {
        fixed
    };
    let room: u128 = t - fixed;
    let excess: u128 = total - t;
    let equal: u128 = room / k;
    assert(t <= total);
    let num: u128 = 4 * total - 3 * t;
    let den: u128 = 4 * total;
    assert(equal <= room) by (nonlinear_arith)
        requires
            equal == room / k,
            k > 0,
    ;
    let mut b: Vec<usize> = Vec::new();
    let mut bsum: u128 = 0;
    let mut i: usize = 0;
    while i < n
        invariant
            i <= n,
            n == w.len(),
            f.len() == n,
            w == widths@,
            f == shrinkable@,
            needs_fit(w, f, overhead as int, target as int),
            total as int == total_width(w, overhead as int),
            ssum as int == shrinkable_width(w, f),
            k as int == count_to(f, n as int),
            t as int == effective_target(w, f, overhead as int, target as int),
            fixed as int == fixed_width(w, f, overhead as int),
            room == t - fixed,
            excess == total - t,
            equal == room / k,
            equal <= room,
            num == 4 * total - 3 * t,
            t <= total,
            den == 4 * total,
            excess <= ssum,
            ssum <= total,
            b.len() == i,
            forall|j: int| 0 <= j < i ==> b@[j] as int == blend_at(w, f, overhead as int, target as int, j),
            forall|j: int| 0 <= j < i ==> b@[j] <= total,
            bsum as int == flagged_sum_to(blended(w, f, overhead as int, target as int), f, i as int),
            bsum <= i as int * 0x4000_0000_0000_0000,
        decreases n - i,
    {
        let wi = widths[i];
        proof {
            lemma_elem_le_sum(as_ints(w), i as int);
            assert(as_ints(w)[i as int] == wi);
        }
        if shrinkable[i] {
            proof {
                lemma_ceil_share(excess as int, wi as int, ssum as int);
            }
            assert(excess * (wi as u128) <= 0xFFFF_FFFF_FFFF_FFFF * 0xFFFF_FFFF_FFFF_FFFF) by (nonlinear_arith)
                requires
                    excess <= 0xFFFF_FFFF_FFFF_FFFFu128,
                    wi <= 0xFFFF_FFFF_FFFF_FFFFu128,
            ;
            let cut: u128 = (excess * (wi as u128) + ssum - 1) / ssum;
            let scaled: u128 = wi as u128 - cut;
            let bi: u128 = if scaled >= equal {
                proof {
                    lemma_weighted((scaled - equal) as int, num as int, den as int);
                    assert((scaled - equal) * num <= 0xFFFF_FFFF_FFFF_FFFF * 0xFFFF_FFFF_FFFF_FFFF) by (nonlinear_arith)
                        requires
                            scaled - equal <= 0xFFFF_FFFF_FFFF_FFFFu128,
                            num <= 0xFFFF_FFFF_FFFF_FFFFu128,
                    ;
                }
                equal + ((scaled - equal) * num) / den
            } else {
                proof {
                    let sc = scaled as int;
                    let eq = equal as int;
                    let nm = num as int;
                    assert((sc - eq) * nm == -((eq - sc) * nm)) by (nonlinear_arith);
                    assert((sc - eq) * nm < 0) by (nonlinear_arith)
                        requires
                            sc < eq,
                            nm > 0,
                    ;
                }
                proof {
                    lemma_weighted((equal - scaled) as int, num as int, den as int);
                    assert((equal - scaled) * num <= 0xFFFF_FFFF_FFFF_FFFF * 0xFFFF_FFFF_FFFF_FFFF) by (nonlinear_arith)
                        requires
                            equal - scaled <= 0xFFFF_FFFF_FFFF_FFFFu128,
                            num <= 0xFFFF_FFFF_FFFF_FFFFu128,
                    ;
                }
                equal - ((equal - scaled) * num) / den
            };
            b.push(bi as usize);
            bsum = bsum + bi;
        } else {
            b.push(wi);
        }
        proof {
            assert(blended(w, f, overhead as int, target as int)[i as int] == blend_at(
                w,
                f,
                overhead as int,
                target as int,
                i as int,
            ));
        }
        i = i + 1;
    }
    let mut r: Vec<usize> = Vec::new();
    let ghost bs = blended(w, f, overhead as int, target as int);
    assert(bs.len() == n);
    if bsum <= room {
        let d: u128 = room - bsum;
        let q: u128 = d / (n as u128);
        let rem: u128 = d % (n as u128);
        assert(q <= d) by (nonlinear_arith)
            requires
                q == d / (n as u128),
                n > 0,
        ;
        let mut i: usize = 0;
        while i < n
            invariant
                i <= n,
                n == w.len(),
                bs.len() == n,
                b.len() == n,
                forall|j: int| 0 <= j < n ==> b@[j] as int == bs[j],
                forall|j: int| 0 <= j < n ==> b@[j] <= total,
                needs_fit(w, f, overhead as int, target as int),
                total as int == total_width(w, overhead as int),
                d as int == slack(w, f, overhead as int, target as int),
                bs == blended(w, f, overhead as int, target as int),
                q as int == (d as int) / (n as int),
                rem as int == (d as int) % (n as int),
                q <= d,
                d <= room,
                room <= total,
                4 * total <= usize::MAX,
                r.len() == i,
                forall|j: int|
                    0 <= j < i ==> r@[j] as int == fitted_at(w, f, overhead as int, target as int, j),
            decreases n - i,
        {
            let extra: u128 = if (i as u128) < rem {
                1
            } else {
                0
            };
            proof {
                assert(b@[i as int] as int == bs[i as int]);
                assert(fitted_at(w, f, overhead as int, target as int, i as int) == bs[i as int] + q + extra);
            }
            r.push((b[i] as u128 + q + extra) as usize);
            i = i + 1;
        }
    } else {
        let amount: u128 = bsum - room;
        let mut taken: u128 = 0;
        let mut i: usize = 0;
        while i < n
            invariant
                i <= n,
                n == w.len(),
                f.len() == n,
                f == shrinkable@,
                bs.len() == n,
                b.len() == n,
                forall|j: int| 0 <= j < n ==> b@[j] as int == bs[j],
                needs_fit(w, f, overhead as int, target as int),
                amount as int == -slack(w, f, overhead as int, target as int),
                bs == blended(w, f, overhead as int, target as int),
                taken as int == cut_before(bs, f, amount as int, i as int),
                taken <= amount,
                amount > 0,
                r.len() == i,
                forall|j: int|
                    0 <= j < i ==> r@[j] as int == fitted_at(w, f, overhead as int, target as int, j),
            decreases n - i,
        {
            let bi = b[i];
            let cut: u128 = if shrinkable[i] {
                if (bi as u128) <= amount - taken {
                    bi as u128
                } else {
                    amount - taken
                }
            } else {
                0
            };
            proof {
                assert(cut_before(bs, f, amount as int, i as int + 1) == taken + cut);
                assert(cut_at(bs, f, amount as int, i as int) == cut);
                assert(b@[i as int] as int == bs[i as int]);
                assert(fitted_at(w, f, overhead as int, target as int, i as int) == bi - cut);
            }
            r.push((bi as u128 - cut) as usize);
            taken = taken + cut;
            i = i + 1;
        }
    }
    r
}


pub open spec fn fitted(w: Seq<usize>, f: Seq<bool>, overhead: int, target: int) -> Seq<int> {
    Seq::new(w.len(), |i: int| fitted_at(w, f, overhead, target, i))
}

proof fn lemma_unflagged_agree(s: Seq<int>, t: Seq<int>, f: Seq<bool>, i: int)
    requires
        0 <= i <= s.len(),
        s.len() == t.len(),
        f.len() == s.len(),
        forall|j: int| 0 <= j < s.len() && !f[j] ==> s[j] == t[j],
    ensures
        sum_to(s, i) - flagged_sum_to(s, f, i) == sum_to(t, i) - flagged_sum_to(t, f, i),
    decreases i,
{
    if i > 0 {
        lemma_unflagged_agree(s, t, f, i - 1);
    }
}

proof fn lemma_blend_nonneg(w: Seq<usize>, f: Seq<bool>, overhead: int, target: int, i: int)
    requires
        0 <= i < w.len(),
        f.len() == w.len(),
        needs_fit(w, f, overhead, target),
        overhead >= 0,
    ensures
        blend_at(w, f, overhead, target, i) >= 0,
{
    let ws = as_ints(w);
    assert forall|j: int| 0 <= j < ws.len() implies 0 <= #[trigger] ws[j] by {}
    lemma_sums(ws, f, w.len() as int);
    let total = total_width(w, overhead);
    let s = shrinkable_width(w, f);
    let t = effective_target(w, f, overhead, target);
    let excess = total - t;
    let room = t - fixed_width(w, f, overhead);
    let k = count_to(f, w.len() as int);
    let equal = room / k;
    if f[i] {
        assert(k > 0);
        assert(equal >= 0) by (nonlinear_arith)
            requires
                room >= 0,
                k > 0,
                equal == room / k,
        ;
        lemma_ceil_share(excess, w[i] as int, s);
        let scaled = w[i] - ceil_div(excess * w[i], s);
        let num = 4 * total - 3 * t;
        let den = 4 * total;
        if scaled >= equal {
            lemma_weighted(scaled - equal, num, den);
        } else {
            lemma_weighted(equal - scaled, num, den);
            assert((scaled - equal) * num == -((equal - scaled) * num)) by (nonlinear_arith);
            assert((scaled - equal) * num < 0) by (nonlinear_arith)
                requires
                    scaled < equal,
                    num > 0,
            ;
        }
    }
}

proof fn lemma_cut_total(b: Seq<int>, f: Seq<bool>, amount: int, i: int)
    requires
        0 <= i <= b.len(),
        f.len() == b.len(),
        amount >= 0,
        forall|j: int| 0 <= j < b.len() && f[j] ==> b[j] >= 0,
    ensures
        cut_before(b, f, amount, i) == if amount <= flagged_sum_to(b, f, i) {
            amount
        } else {
            flagged_sum_to(b, f, i)
        },
        flagged_sum_to(b, f, i) >= 0,
    decreases i,
{
    if i > 0 {
        lemma_cut_total(b, f, amount, i - 1);
    }
}

proof fn lemma_cut_sum(b: Seq<int>, r: Seq<int>, f: Seq<bool>, amount: int, i: int)
    requires
        0 <= i <= b.len(),
        f.len() == b.len(),
        r.len() == b.len(),
        forall|j: int| 0 <= j < b.len() ==> r[j] == b[j] - cut_at(b, f, amount, j),
    ensures
        sum_to(r, i) == sum_to(b, i) - cut_before(b, f, amount, i),
    decreases i,
{
    if i > 0 {
        lemma_cut_sum(b, r, f, amount, i - 1);
    }
}

proof fn lemma_spread_sum(b: Seq<int>, r: Seq<int>, d: int, i: int)
    requires
        0 <= i <= b.len(),
        r.len() == b.len(),
        b.len() > 0,
        d >= 0,
        forall|j: int|
            0 <= j < b.len() ==> r[j] == b[j] + d / (b.len() as int) + if j < d % (b.len() as int) {
                1int
            } else {
                0
            },
    ensures
        sum_to(r, i) == sum_to(b, i) + i * (d / (b.len() as int)) + if i < d % (b.len() as int) {
            i
        } else {
            d % (b.len() as int)
        },
    decreases i,
{
    let q = d / (b.len() as int);
    let m = d % (b.len() as int);
    assert(0 <= m < b.len());
    if i > 0 {
        lemma_spread_sum(b, r, d, i - 1);
        assert(i * q == (i - 1) * q + q) by (nonlinear_arith);
        assert(r[i - 1] == b[i - 1] + q + if i - 1 < m {
            1int
        } else {
            0
        });
    } else {
        assert(i * q == 0) by (nonlinear_arith)
            requires
                i == 0,
        ;
    }
}

/// Fitting never makes a width negative.
pub proof fn lemma_fitted_nonneg(w: Seq<usize>, f: Seq<bool>, overhead: int, target: int, i: int)
    requires
        f.len() == w.len(),
        overhead >= 0,
        0 <= i < w.len(),
    ensures
        fitted_at(w, f, overhead, target, i) >= 0,
{
    if needs_fit(w, f, overhead, target) {
        let n = w.len() as int;
        let b = blended(w, f, overhead, target);
        let d = slack(w, f, overhead, target);
        assert forall|j: int| 0 <= j < n && f[j] implies b[j] >= 0 by {
            lemma_blend_nonneg(w, f, overhead, target, j);
        }
        lemma_blend_nonneg(w, f, overhead, target, i);
        if d >= 0 {
            assert(d / n >= 0) by (nonlinear_arith)
                requires
                    d >= 0,
                    n > 0,
            ;
        } else {
            lemma_cut_total(b, f, -d, i);
            lemma_cut_total(b, f, -d, i + 1);
        }
    }
}

/// A table whose line is at least as wide as the target, and whose fixed
/// part fits in the target, is fitted to exactly the target width: the
/// widths after fitting, plus the overhead, add up to the target.
pub proof fn lemma_fit_meets_target(w: Seq<usize>, f: Seq<bool>, overhead: int, target: int)
    requires
        f.len() == w.len(),
        overhead >= 0,
        fixed_width(w, f, overhead) <= target <= total_width(w, overhead),
        4 * total_width(w, overhead) <= usize::MAX,
    ensures
        sum_to(fitted(w, f, overhead, target), w.len() as int) + overhead == target,
{
    let n = w.len() as int;
    let ws = as_ints(w);
    let r = fitted(w, f, overhead, target);
    assert forall|j: int| 0 <= j < ws.len() implies 0 <= #[trigger] ws[j] by {}
    lemma_sums(ws, f, n);
    if !needs_fit(w, f, overhead, target) {
        assert(r =~= ws);
    } else {
        let b = blended(w, f, overhead, target);
        let d = slack(w, f, overhead, target);
        lemma_unflagged_agree(b, ws, f, n);
        if d >= 0 {
            assert(n > 0);
            lemma_spread_sum(b, r, d, n);
            assert(n * (d / n) + d % n == d) by (nonlinear_arith)
                requires
                    n > 0,
            ;
        } else {
            assert forall|j: int| 0 <= j < n && f[j] implies b[j] >= 0 by {
                lemma_blend_nonneg(w, f, overhead, target, j);
            }
            lemma_cut_total(b, f, -d, n);
            lemma_cut_sum(b, r, f, -d, n);
        }
    }
}

} // verus!

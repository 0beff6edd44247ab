use vstd::prelude::*;
use vstd::seq_lib::{group_to_multiset_ensures, lemma_multiset_commutative};
use crate::scalar::{Scalar, is_zero_value, is_sum, is_difference, is_product, is_quotient,
    is_square_root, is_magnitude, is_count_value, compares_above};

verus! {

broadcast use group_to_multiset_ensures;

/// `s` holds the running totals of `xs`, starting from zero.
pub open spec fn running_totals<T: Scalar>(xs: Seq<T>, s: Seq<T>) -> bool {
    &&& s.len() == xs.len() + 1
    &&& is_zero_value(s[0])
    &&& forall|k: int| 0 <= k < xs.len() ==> is_sum(s[k], xs[k], #[trigger] s[k + 1])
}

/// `v` is the total of `xs`, added up from zero in order.
pub open spec fn is_total<T: Scalar>(xs: Seq<T>, v: T) -> bool {
    exists|s: Seq<T>| #[trigger] running_totals(xs, s) && s.last() == v
}

/// `m` is the arithmetic mean of `xs`: their total divided by their count.
pub open spec fn is_mean<T: Scalar>(xs: Seq<T>, m: T) -> bool {
    exists|t: T, c: T| #![trigger is_total(xs, t), is_quotient(t, c, m)] is_total(xs, t) && is_count_value(xs.len() as usize, c) && is_quotient(t, c, m)
}

/// `q` is the square of `x` less `m`.
pub open spec fn is_squared_deviation<T: Scalar>(x: T, m: T, q: T) -> bool {
    exists|d: T| is_difference(x, m, d) && #[trigger] is_product(d, d, q)
}

/// `ds[k]` is the square of `xs[k]` less `m`.
pub open spec fn squared_deviations<T: Scalar>(xs: Seq<T>, m: T, ds: Seq<T>) -> bool {
    &&& ds.len() == xs.len()
    &&& forall|k: int| 0 <= k < xs.len()
            ==> is_squared_deviation(xs[k], m, #[trigger] ds[k])
}

/// `r` is the sample standard deviation of `xs`: the square root of the
/// total squared deviation from the mean divided by one less than the count.
pub open spec fn is_standard_deviation<T: Scalar>(xs: Seq<T>, r: T) -> bool {
    exists|m: T, ds: Seq<T>, t: T, c: T, v: T|
        #![trigger is_mean(xs, m), squared_deviations(xs, m, ds), is_total(ds, t), is_quotient(t, c, v)]
    {
        &&& is_mean(xs, m)
        &&& squared_deviations(xs, m, ds)
        &&& is_total(ds, t)
        &&& is_count_value((xs.len() - 1) as usize, c)
        &&& is_quotient(t, c, v)
        &&& is_square_root(v, r)
    }
}

/// `b` says whether the z-score of `x`, against mean `m` and standard
/// deviation `s`, is larger in magnitude than `threshold`.
pub open spec fn is_outlier_flag<T: Scalar>(x: T, m: T, s: T, threshold: T, b: bool) -> bool {
    exists|d: T, z: T, a: T| #![trigger is_difference(x, m, d), is_quotient(d, s, z), is_magnitude(z, a)]
    {
        &&& is_difference(x, m, d)
        &&& is_quotient(d, s, z)
        &&& is_magnitude(z, a)
        &&& compares_above(a, threshold, b)
    }
}

/// The items of `xs` whose flag in `keep` is set, in their order.
pub open spec fn selected<T>(xs: Seq<T>, keep: Seq<bool>) -> Seq<T>
    decreases xs.len(),
{
    if xs.len() == 0 || keep.len() != xs.len() {
        Seq::empty()
    } else {
        let rest = selected(xs.drop_last(), keep.drop_last());
        if keep.last() {
            rest.push(xs.last())
        } else {
            rest
        }
    }
}

/// The total of `xs`.
fn total<T: Scalar>(xs: &Vec<T>) -> (v: T)
    ensures
        is_total(xs@, v),
{
    let mut acc = T::zero();
    let ghost mut s: Seq<T> = seq![acc];
    let mut k: usize = 0;
    while k < xs.len()
        invariant
            k <= xs@.len(),
            s.len() == k + 1,
            is_zero_value(s[0]),
            s.last() == acc,
            forall|t: int| 0 <= t < k ==> is_sum(s[t], xs@[t], #[trigger] s[t + 1]),
        decreases xs@.len() - k,
    {
        let next = acc.plus(xs[k]);
        proof {
            s = s.push(next);
        }
        acc = next;
        k = k + 1;
    }
    assert(running_totals(xs@, s));
    acc
}

/// The arithmetic mean, or `None` for no values.
pub fn calculate_mean<T: Scalar>(numbers: &Vec<T>) -> (r: Option<T>)
    ensures
        r.is_none() <==> numbers@.len() == 0,
        r.is_some() ==> is_mean(numbers@, r.unwrap()),
{
    if numbers.len() == 0 {
        return None;
    }
    let t = total(numbers);
    let c = T::from_count(numbers.len());
    let m = t.divided_by(c);
    assert(is_total(numbers@, t) && is_count_value(numbers@.len() as usize, c) && is_quotient(t, c, m));
    Some(m)
}

/// The sample standard deviation, with divisor one less than the count;
/// `None` for fewer than two values.
pub fn calculate_std<T: Scalar>(numbers: &Vec<T>) -> (r: Option<T>)
    ensures
        r.is_none() <==> numbers@.len() < 2,
        r.is_some() ==> is_standard_deviation(numbers@, r.unwrap()),
{
    if numbers.len() < 2 {
        return None;
    }
    let m = calculate_mean(numbers).unwrap();
    let mut ds: Vec<T> = Vec::new();
    let mut k: usize = 0;
    while k < numbers.len()
        invariant
            k <= numbers@.len(),
            ds@.len() == k,
            forall|t: int| 0 <= t < k
                ==> is_squared_deviation(numbers@[t], m, #[trigger] ds@[t]),
        decreases numbers@.len() - k,
    {
        let d = numbers[k].minus(m);
        let sq = d.times(d);
        ds.push(sq);
        assert(is_difference(numbers@[k as int], m, d) && is_product(d, d, ds@[k as int]));
        k = k + 1;
    }
    assert(squared_deviations(numbers@, m, ds@));
    let t = total(&ds);
    let c = T::from_count(numbers.len() - 1);
    let v = t.divided_by(c);
    let r = v.square_root();
    assert(is_mean(numbers@, m) && squared_deviations(numbers@, m, ds@) && is_total(ds@, t) && is_quotient(t, c, v));
    Some(r)
}

/// The values whose z-score against the mean and standard deviation of all
/// of them exceeds `threshold` in magnitude, in their order; `None` for
/// fewer than two values, where the deviation is undefined.
pub fn identify_outliers<T: Scalar>(numbers: &Vec<T>, threshold: T) -> (r: Option<Vec<T>>)
    ensures
        r.is_none() <==> numbers@.len() < 2,
        r.is_some() ==> exists|m: T, s: T, keep: Seq<bool>|
            #![trigger is_mean(numbers@, m), is_standard_deviation(numbers@, s), selected(numbers@, keep)]
        {
            &&& is_mean(numbers@, m)
            &&& is_standard_deviation(numbers@, s)
            &&& keep.len() == numbers@.len()
            &&& forall|k: int| 0 <= k < numbers@.len() ==> is_outlier_flag(numbers@[k], m, s, threshold, #[trigger] keep[k])
            &&& r.unwrap()@ == selected(numbers@, keep)
        },
{
    if numbers.len() < 2 {
        return None;
    }
    let m = calculate_mean(numbers).unwrap();
    let s = calculate_std(numbers).unwrap();
    let mut out: Vec<T> = Vec::new();
    let ghost mut keep: Seq<bool> = Seq::empty();
    let mut k: usize = 0;
    while k < numbers.len()
        invariant
            k <= numbers@.len(),
            keep.len() == k,
            forall|t: int| 0 <= t < k ==> is_outlier_flag(numbers@[t], m, s, threshold, #[trigger] keep[t]),
            out@ == selected(numbers@.take(k as int), keep),
        decreases numbers@.len() - k,
    {
        let x = numbers[k];
        let d = x.minus(m);
        let z = d.divided_by(s);
        let a = z.magnitude();
        let flag = a.exceeds(threshold);
        assert(is_difference(x, m, d) && is_quotient(d, s, z) && is_magnitude(z, a) && compares_above(a, threshold, flag));
        let ghost prev = keep;
        proof {
            keep = keep.push(flag);
            assert(numbers@.take(k + 1).drop_last() =~= numbers@.take(k as int));
            assert(keep.drop_last() =~= prev);
        }
        if flag {
            out.push(x);
        }
        k = k + 1;
    }
    assert(numbers@.take(numbers@.len() as int) =~= numbers@);
    Some(out)
}

/// `r` is `100 · (v / span)`: `v` as a percentage of `span`.
pub open spec fn is_percentage_of<T: Scalar>(v: T, span: T, r: T) -> bool {
    exists|q: T, h: T| #![trigger is_quotient(v, span, q), is_product(h, q, r)]
        is_quotient(v, span, q) && is_count_value(100, h) && is_product(h, q, r)
}

/// `r` is the middle item of `s`, or for an even length the mean of the two
/// middle items.
pub open spec fn is_middle<T: Scalar>(s: Seq<T>, r: T) -> bool {
    let n = s.len() as int;
    &&& n % 2 == 1 ==> r == s[n / 2]
    &&& n % 2 == 0 ==> exists|t: T, two: T| #![trigger is_sum(s[n / 2 - 1], s[n / 2], t), is_quotient(t, two, r)]
            is_sum(s[n / 2 - 1], s[n / 2], t) && is_count_value(2, two) && is_quotient(t, two, r)
}

/// `x` may stand before `y` in ascending order: `x` was not found to
/// exceed `y`, or `y` was found to exceed `x`.
pub open spec fn in_order<T: Scalar>(x: T, y: T) -> bool {
    compares_above(x, y, false) || compares_above(y, x, true)
}

/// Each item of `s` may stand before the next.
pub open spec fn is_ascending<T: Scalar>(s: Seq<T>) -> bool {
    forall|k: int| 0 <= k < s.len() - 1 ==> #[trigger] in_order(s[k], s[k + 1])
}

/// `r` is the middle, in the sense of `is_middle`, of an ascending
/// arrangement of `xs`.
pub open spec fn is_median<T: Scalar>(xs: Seq<T>, r: T) -> bool {
    exists|s: Seq<T>| s.to_multiset() == xs.to_multiset() && s.len() == xs.len() && is_ascending(s)
        && #[trigger] is_middle(s, r)
}

/// The number of values that exceed `bound`.
pub fn count_exceeding<T: Scalar>(values: &Vec<T>, bound: T) -> (r: usize)
    ensures
        exists|keep: Seq<bool>| #![trigger selected(values@, keep)]
        {
            &&& keep.len() == values@.len()
            &&& forall|k: int| 0 <= k < values@.len() ==> compares_above(values@[k], bound, #[trigger] keep[k])
            &&& r == selected(values@, keep).len()
        },
{
    let mut count: usize = 0;
    let ghost mut keep: Seq<bool> = Seq::empty();
    let mut k: usize = 0;
    while k < values.len()
        invariant
            k <= values@.len(),
            keep.len() == k,
            forall|t: int| 0 <= t < k ==> compares_above(values@[t], bound, #[trigger] keep[t]),
            count == selected(values@.take(k as int), keep).len(),
            count <= k,
        decreases values@.len() - k,
    {
        let flag = values[k].exceeds(bound);
        let ghost prev = keep;
        proof {
            keep = keep.push(flag);
            assert(values@.take(k + 1).drop_last() =~= values@.take(k as int));
            assert(keep.drop_last() =~= prev);
        }
        if flag {
            count = count + 1;
        }
        k = k + 1;
    }
    assert(values@.take(values@.len() as int) =~= values@);
    count
}

/// Each value as a percentage of `span`, in order.
pub fn relative_percentages<T: Scalar>(values: &Vec<T>, span: T) -> (r: Vec<T>)
    ensures
        r@.len() == values@.len(),
        forall|k: int| 0 <= k < values@.len() ==> is_percentage_of(values@[k], span, #[trigger] r@[k]),
{
    let mut out: Vec<T> = Vec::new();
    let mut k: usize = 0;
    while k < values.len()
        invariant
            k <= values@.len(),
            out@.len() == k,
            forall|t: int| 0 <= t < k ==> is_percentage_of(values@[t], span, #[trigger] out@[t]),
        decreases values@.len() - k,
    {
        let q = values[k].divided_by(span);
        let h = T::from_count(100);
        let p = h.times(q);
        assert(is_quotient(values@[k as int], span, q) && is_product(h, q, p));
        out.push(p);
        k = k + 1;
    }
    out
}

/// `a` and `b`, each ascending, merged into one ascending sequence: at each
/// step the head of `a` is taken unless it exceeds the head of `b`.
fn merge<T: Scalar>(a: &Vec<T>, b: &Vec<T>) -> (r: Vec<T>)
    requires
        a@.len() + b@.len() <= usize::MAX,
        is_ascending(a@),
        is_ascending(b@),
    ensures
        r@.len() == a@.len() + b@.len(),
        r@.to_multiset() == a@.to_multiset().add(b@.to_multiset()),
        is_ascending(r@),
{
    let mut r: Vec<T> = Vec::new();
    let mut i: usize = 0;
    let mut j: usize = 0;
    while i < a.len() || j < b.len()
        invariant
            a@.len() + b@.len() <= usize::MAX,
            is_ascending(a@),
            is_ascending(b@),
            i <= a@.len(),
            j <= b@.len(),
            r@.len() == i + j,
            r@.to_multiset() == a@.take(i as int).to_multiset().add(b@.take(j as int).to_multiset()),
            is_ascending(r@),
            r@.len() > 0 && i < a@.len() ==> in_order(r@.last(), a@[i as int]),
            r@.len() > 0 && j < b@.len() ==> in_order(r@.last(), b@[j as int]),
        decreases a@.len() - i + b@.len() - j,
    {
        let take_a = if j >= b.len() {
            true
        } else if i >= a.len() {
            false
        } else {
            let above = a[i].exceeds(b[j]);
            assert(compares_above(a@[i as int], b@[j as int], above));
            !above
        };
        let ghost before = r@;
        if take_a {
            assert(a@.take(i + 1) =~= a@.take(i as int).push(a@[i as int]));
            r.push(a[i]);
            proof {
                assert forall|k: int| 0 <= k < r@.len() - 1 implies #[trigger] in_order(r@[k], r@[k + 1]) by {
                    if k < before.len() - 1 {
                        assert(r@[k] == before[k] && r@[k + 1] == before[k + 1]);
                    }
                }
                if i + 1 < a@.len() {
                    assert(in_order(a@[i as int], a@[i + 1]));
                }
            }
            i = i + 1;
        } else {
            assert(b@.take(j + 1) =~= b@.take(j as int).push(b@[j as int]));
            r.push(b[j]);
            proof {
                assert forall|k: int| 0 <= k < r@.len() - 1 implies #[trigger] in_order(r@[k], r@[k + 1]) by {
                    if k < before.len() - 1 {
                        assert(r@[k] == before[k] && r@[k + 1] == before[k + 1]);
                    }
                }
                if j + 1 < b@.len() {
                    assert(in_order(b@[j as int], b@[j + 1]));
                }
            }
            j = j + 1;
        }
    }
    assert(a@.take(a@.len() as int) =~= a@);
    assert(b@.take(b@.len() as int) =~= b@);
    r
}

/// The items `lo..hi` of `xs`, merge sorted.
fn merge_sort<T: Scalar>(xs: &Vec<T>, lo: usize, hi: usize) -> (r: Vec<T>)
    requires
        lo <= hi <= xs@.len(),
    ensures
        r@.len() == hi - lo,
        r@.to_multiset() == xs@.subrange(lo as int, hi as int).to_multiset(),
        is_ascending(r@),
    decreases hi - lo,
{
    if hi - lo <= 1 {
        let mut r: Vec<T> = Vec::new();
        if hi > lo {
            r.push(xs[lo]);
        }
        assert(r@ =~= xs@.subrange(lo as int, hi as int));
        return r;
    }
    let mid = lo + (hi - lo) / 2;
    let left = merge_sort(xs, lo, mid);
    let right = merge_sort(xs, mid, hi);
    proof {
        assert(xs@.subrange(lo as int, hi as int)
            =~= xs@.subrange(lo as int, mid as int) + xs@.subrange(mid as int, hi as int));
        lemma_multiset_commutative(xs@.subrange(lo as int, mid as int), xs@.subrange(mid as int, hi as int));
    }
    merge(&left, &right)
}

/// The median: the middle of the values in ascending order, or the mean
/// of the two middle ones for an even count; `None` for no values.
///
/// The order is the one `exceeds` gives, through a merge sort: the
/// arrangement is a permutation of the values in which no item was found to
/// exceed the next.
pub fn calculate_median<T: Scalar>(numbers: &Vec<T>) -> (r: Option<T>)
    ensures
        r.is_none() <==> numbers@.len() == 0,
        r.is_some() ==> is_median(numbers@, r.unwrap()),
{
    let n = numbers.len();
    if n == 0 {
        return None;
    }
    let sorted = merge_sort(numbers, 0, n);
    assert(numbers@.subrange(0, n as int) =~= numbers@);
    assert(sorted@.to_multiset() == numbers@.to_multiset());
    let mid = n / 2;
    if n % 2 == 0 {
        let t = sorted[mid - 1].plus(sorted[mid]);
        let two = T::from_count(2);
        let m = t.divided_by(two);
        assert(is_sum(sorted@[mid - 1], sorted@[mid as int], t) && is_quotient(t, two, m));
        assert(is_middle(sorted@, m));
        assert(is_median(numbers@, m));
        Some(m)
    } else {
        let m = sorted[mid];
        assert(is_middle(sorted@, m));
        assert(is_median(numbers@, m));
        Some(m)
    }
}

} // verus!

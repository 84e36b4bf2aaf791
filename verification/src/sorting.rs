//! Ascending order of numbers.
use crate::scalar::Scalar;
use vstd::prelude::*;

verus! {

/// No number stands before a smaller one.
pub open spec fn ascending(s: Seq<Scalar>) -> bool {
    forall|i: int, j: int| 0 <= i <= j < s.len() ==> (#[trigger] s[i]).value() <= (#[trigger] s[j]).value()
}

pub open spec fn all_numbers(s: Seq<Scalar>) -> bool {
    forall|i: int| 0 <= i < s.len() ==> !(#[trigger] s[i]).nan()
}

/// Merges two ascending sequences; of equal numbers, the first sequence's come
/// first.
fn merge(a: &Vec<Scalar>, b: &Vec<Scalar>) -> (r: Vec<Scalar>)
    requires
        ascending(a@),
        ascending(b@),
        all_numbers(a@),
        all_numbers(b@),
    ensures
        ascending(r@),
        all_numbers(r@),
        r@.to_multiset() == a@.to_multiset().add(b@.to_multiset()),
{
    broadcast use vstd::seq_lib::group_to_multiset_ensures;

    let mut out: Vec<Scalar> = Vec::new();
    let mut i: usize = 0;
    let mut j: usize = 0;
    proof {
        assert(a@.take(0) =~= Seq::<Scalar>::empty());
        assert(b@.take(0) =~= Seq::<Scalar>::empty());
        assert(out@.to_multiset() =~= a@.take(0).to_multiset().add(b@.take(0).to_multiset()));
    }
    while i < a.len() || j < b.len()
        invariant
            i <= a@.len(),
            j <= b@.len(),
            ascending(a@),
            ascending(b@),
            all_numbers(a@),
            all_numbers(b@),
            ascending(out@),
            all_numbers(out@),
            forall|k: int, l: int|
                0 <= k < out@.len() && i <= l < a@.len() ==> (#[trigger] out@[k]).value() <= (
                #[trigger] a@[l]).value(),
            forall|k: int, l: int|
                0 <= k < out@.len() && j <= l < b@.len() ==> (#[trigger] out@[k]).value() <= (
                #[trigger] b@[l]).value(),
            out@.to_multiset() == a@.take(i as int).to_multiset().add(
                b@.take(j as int).to_multiset(),
            ),
        decreases a@.len() - i + b@.len() - j,
    {
        let first: bool = if i >= a.len() {
            false
        } else if j >= b.len() {
            true
        } else {
            a[i].le(b[j])
        };
        if first {
            let x: Scalar = a[i];
            out.push(x);
            proof {
                broadcast use vstd::seq_lib::group_to_multiset_ensures;

                assert(a@.take(i + 1) =~= a@.take(i as int).push(x));
                assert(out@.to_multiset() =~= a@.take(i + 1).to_multiset().add(
                    b@.take(j as int).to_multiset(),
                ));
            }
            i = i + 1;
        } else {
            let x: Scalar = b[j];
            out.push(x);
            proof {
                broadcast use vstd::seq_lib::group_to_multiset_ensures;

                assert(b@.take(j + 1) =~= b@.take(j as int).push(x));
                assert(out@.to_multiset() =~= a@.take(i as int).to_multiset().add(
                    b@.take(j + 1).to_multiset(),
                ));
            }
            j = j + 1;
        }
    }
    assert(a@.take(i as int) =~= a@);
    assert(b@.take(j as int) =~= b@);
    out
}

fn slice_of(s: &Vec<Scalar>, low: usize, high: usize) -> (r: Vec<Scalar>)
    requires
        low <= high <= s@.len(),
    ensures
        r@ == s@.subrange(low as int, high as int),
{
    let mut out: Vec<Scalar> = Vec::new();
    let mut k: usize = low;
    while k < high
        invariant
            low <= k <= high <= s@.len(),
            out@ == s@.subrange(low as int, k as int),
        decreases high - k,
    {
        out.push(s[k]);
        k = k + 1;
        assert(out@ =~= s@.subrange(low as int, k as int));
    }
    out
}

fn merge_sort(s: &Vec<Scalar>) -> (r: Vec<Scalar>)
    requires
        all_numbers(s@),
    ensures
        ascending(r@),
        all_numbers(r@),
        r@.to_multiset() == s@.to_multiset(),
    decreases s@.len(),
{
    let n: usize = s.len();
    if n <= 1 {
        let whole: Vec<Scalar> = slice_of(s, 0, n);
        assert(whole@ =~= s@);
        return whole;
    }
    let middle: usize = n / 2;
    let left: Vec<Scalar> = slice_of(s, 0, middle);
    let right: Vec<Scalar> = slice_of(s, middle, n);
    let a: Vec<Scalar> = merge_sort(&left);
    let b: Vec<Scalar> = merge_sort(&right);
    proof {
        assert(left@ + right@ =~= s@);
        vstd::seq_lib::lemma_multiset_commutative(left@, right@);
    }
    merge(&a, &b)
}

/// The items can be put in order: no two need be compared, or all of them are
/// numbers.
pub open spec fn orderable(s: Seq<Scalar>) -> bool {
    s.len() <= 1 || all_numbers(s)
}

/// The numbers in ascending order; none if there are several and one of them
/// is not a number. One alone is in order whatever it is.
pub fn sort(s: &Vec<Scalar>) -> (r: Option<Vec<Scalar>>)
    ensures
        r is Some <==> orderable(s@),
        r matches Some(t) ==> ascending(t@) && t@.to_multiset() == s@.to_multiset(),
{
    if s.len() <= 1 {
        let all: Vec<Scalar> = slice_of(s, 0, s.len());
        assert(all@ =~= s@);
        return Some(all);
    }
    let mut k: usize = 0;
    while k < s.len()
        invariant
            k <= s@.len(),
            s@.len() > 1,
            forall|i: int| 0 <= i < k ==> !(#[trigger] s@[i]).nan(),
        decreases s@.len() - k,
    {
        if s[k].is_nan() {
            return None;
        }
        k = k + 1;
    }
    Some(merge_sort(s))
}

/// The numbers below a bound.
pub open spec fn count_below(s: Seq<Scalar>, bound: int) -> nat
    decreases s.len(),
{
    if s.len() == 0 {
        0
    } else {
        count_below(s.drop_last(), bound) + if s.last().value() < bound {
            1nat
        } else {
            0nat
        }
    }
}

/// How many numbers are below a bound does not depend on their order.
proof fn lemma_count_of_multiset(s: Seq<Scalar>, bound: int)
    ensures
        count_below(s, bound) == s.to_multiset().filter(|x: Scalar| x.value() < bound).len(),
    decreases s.len(),
{
    broadcast use vstd::seq_lib::group_to_multiset_ensures;
    broadcast use vstd::multiset::group_multiset_axioms;

    let small = |x: Scalar| x.value() < bound;
    if s.len() == 0 {
        assert(s.to_multiset().filter(small) =~= vstd::multiset::Multiset::empty());
    } else {
        let head = s.drop_last();
        lemma_count_of_multiset(head, bound);
        assert(head.push(s.last()) =~= s);
        if small(s.last()) {
            assert(s.to_multiset().filter(small) =~= head.to_multiset().filter(small).insert(
                s.last(),
            ));
        } else {
            assert(s.to_multiset().filter(small) =~= head.to_multiset().filter(small));
        }
    }
}

/// In ascending order the numbers below a bound come first.
proof fn lemma_count_ascending(s: Seq<Scalar>, k: int, bound: int)
    requires
        ascending(s),
        0 <= k < s.len(),
    ensures
        s[k].value() < bound ==> count_below(s, bound) >= k + 1,
        s[k].value() >= bound ==> count_below(s, bound) <= k,
    decreases s.len(),
{
    let head = s.drop_last();
    if k < s.len() - 1 {
        lemma_count_ascending(head, k, bound);
    } else if s.len() > 1 {
        lemma_count_ascending(head, k - 1, bound);
        lemma_count_limit(head, bound);
    }
}

proof fn lemma_count_limit(s: Seq<Scalar>, bound: int)
    ensures
        count_below(s, bound) <= s.len(),
    decreases s.len(),
{
    if s.len() > 0 {
        lemma_count_limit(s.drop_last(), bound);
    }
}

/// Numbers have one ascending order, as far as their values go.
pub proof fn lemma_order_unique(s: Seq<Scalar>, t: Seq<Scalar>, k: int)
    requires
        ascending(s),
        ascending(t),
        s.to_multiset() == t.to_multiset(),
        0 <= k < s.len(),
    ensures
        s.len() == t.len(),
        s[k].value() == t[k].value(),
{
    s.to_multiset_ensures();
    t.to_multiset_ensures();
    let low: int = if s[k].value() < t[k].value() {
        t[k].value()
    } else {
        s[k].value()
    };
    lemma_count_of_multiset(s, low);
    lemma_count_of_multiset(t, low);
    lemma_count_ascending(s, k, low);
    lemma_count_ascending(t, k, low);
}

} // verus!

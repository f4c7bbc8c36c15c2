//! What it means for a sequence to be sorted, to be a stable rearrangement of
//! another, and the sequence that a stable merge of two runs produces.

use vstd::prelude::*;
use vstd::seq_lib::lemma_multiset_commutative;
use crate::order::{equiv, le, lemma_le_refl, lemma_le_total, lemma_le_trans, lt, total_order};

verus! {

/// No element of `s` is ordered strictly before an earlier one.
pub open spec fn sorted<T: Ord>(s: Seq<T>) -> bool {
    forall|i: int, j: int| 0 <= i < j < s.len() ==> le(#[trigger] s[i], #[trigger] s[j])
}

/// Every element of `s` is ordered strictly before its predecessor.
pub open spec fn strictly_decreasing<T: Ord>(s: Seq<T>) -> bool {
    forall|i: int| 0 < i < s.len() ==> lt(#[trigger] s[i], s[i - 1])
}

/// `x` is ordered before or equal to every element of `s`.
pub open spec fn lower_bound<T: Ord>(x: T, s: Seq<T>) -> bool {
    forall|i: int| 0 <= i < s.len() ==> le(x, #[trigger] s[i])
}

/// Every element of `s` is ordered before or equal to `x`.
pub open spec fn upper_bound<T: Ord>(s: Seq<T>, x: T) -> bool {
    forall|i: int| 0 <= i < s.len() ==> le(#[trigger] s[i], x)
}

/// The elements of `s` that compare equal to `x`, in the order in which they
/// stand in `s`.
pub open spec fn class_of<T: Ord>(s: Seq<T>, x: T) -> Seq<T> {
    s.filter(|y: T| equiv(x, y))
}

/// `a` holds the elements of `b`, and elements that compare equal stand in
/// `a` in the order in which they stand in `b`.
pub open spec fn stable_rearrangement<T: Ord>(a: Seq<T>, b: Seq<T>) -> bool {
    forall|x: T| #[trigger] class_of(a, x) == class_of(b, x)
}

/// `a` holds exactly the elements of `b`, each as often as `b` does.
pub open spec fn permutation<T>(a: Seq<T>, b: Seq<T>) -> bool {
    a.to_multiset() == b.to_multiset()
}

/// The stable merge of the runs `a` and `b`: the smaller head comes first, and
/// the head of `a` wins a tie.
pub open spec fn merge_seq<T: Ord>(a: Seq<T>, b: Seq<T>) -> Seq<T>
    decreases a.len() + b.len(),
{
    if a.len() == 0 {
        b
    } else if b.len() == 0 {
        a
    } else if le(a[0], b[0]) {
        seq![a[0]] + merge_seq(a.drop_first(), b)
    } else {
        seq![b[0]] + merge_seq(a, b.drop_first())
    }
}

/// A sequence and the classes of its parts.
pub proof fn lemma_class_of_add<T: Ord>(a: Seq<T>, b: Seq<T>, x: T)
    ensures
        class_of(a + b, x) == class_of(a, x) + class_of(b, x),
{
    Seq::filter_distributes_over_add(a, b, |y: T| equiv(x, y));
}

/// The class of `x` in a sequence of one element.
pub proof fn lemma_class_of_one<T: Ord>(e: T, x: T)
    ensures
        class_of(seq![e], x) == if equiv(x, e) {
            seq![e]
        } else {
            Seq::<T>::empty()
        },
{
    let p = |y: T| equiv(x, y);
    assert(seq![e] =~= Seq::<T>::empty().push(e));
    Seq::<T>::empty().lemma_filter_push(e, p);
    reveal(Seq::filter);
    assert(Seq::<T>::empty().filter(p) =~= Seq::<T>::empty());
    assert(Seq::<T>::empty().push(e) =~= seq![e]);
}

/// A sequence without an element that compares equal to `x` has an empty
/// class of `x`.
pub proof fn lemma_class_of_none<T: Ord>(s: Seq<T>, x: T)
    requires
        forall|i: int| 0 <= i < s.len() ==> !equiv(x, #[trigger] s[i]),
    ensures
        class_of(s, x) == Seq::<T>::empty(),
    decreases s.len(),
{
    let p = |y: T| equiv(x, y);
    reveal(Seq::filter);
    if s.len() > 0 {
        assert(!equiv(x, s[s.len() - 1]));
        assert forall|i: int| 0 <= i < s.drop_last().len() implies !equiv(
            x,
            #[trigger] s.drop_last()[i],
        ) by {
            assert(s.drop_last()[i] == s[i]);
        }
        lemma_class_of_none(s.drop_last(), x);
    }
    assert(s.filter(p) =~= Seq::<T>::empty());
}

/// The merge holds the elements of both runs.
pub proof fn lemma_merge_len<T: Ord>(a: Seq<T>, b: Seq<T>)
    ensures
        merge_seq(a, b).len() == a.len() + b.len(),
    decreases a.len() + b.len(),
{
    if a.len() == 0 || b.len() == 0 {
    } else if le(a[0], b[0]) {
        lemma_merge_len(a.drop_first(), b);
    } else {
        lemma_merge_len(a, b.drop_first());
    }
}

/// The merge is a permutation of the two runs, one after the other.
pub proof fn lemma_merge_permutation<T: Ord>(a: Seq<T>, b: Seq<T>)
    ensures
        permutation(merge_seq(a, b), a + b),
    decreases a.len() + b.len(),
{
    if a.len() == 0 {
        assert(a + b =~= b);
    } else if b.len() == 0 {
        assert(a + b =~= a);
    } else if le(a[0], b[0]) {
        let rest = merge_seq(a.drop_first(), b);
        lemma_merge_permutation(a.drop_first(), b);
        lemma_multiset_commutative(seq![a[0]], rest);
        lemma_multiset_commutative(seq![a[0]], a.drop_first() + b);
        assert(seq![a[0]] + (a.drop_first() + b) =~= a + b);
    } else {
        let rest = merge_seq(a, b.drop_first());
        lemma_merge_permutation(a, b.drop_first());
        lemma_multiset_commutative(seq![b[0]], rest);
        lemma_multiset_commutative(seq![b[0]], a + b.drop_first());
        lemma_multiset_commutative(a, b.drop_first());
        lemma_multiset_commutative(seq![b[0]], b.drop_first());
        lemma_multiset_commutative(a, b);
        assert(seq![b[0]] + b.drop_first() =~= b);
        assert(seq![b[0]].to_multiset().add(a.to_multiset().add(b.drop_first().to_multiset()))
            =~= a.to_multiset().add(seq![b[0]].to_multiset().add(b.drop_first().to_multiset())));
    }
}

/// A bound below both runs is a bound below their merge.
pub proof fn lemma_merge_lower_bound<T: Ord>(a: Seq<T>, b: Seq<T>, x: T)
    requires
        lower_bound(x, a),
        lower_bound(x, b),
    ensures
        lower_bound(x, merge_seq(a, b)),
    decreases a.len() + b.len(),
{
    let m = merge_seq(a, b);
    if a.len() == 0 || b.len() == 0 {
    } else if le(a[0], b[0]) {
        let rest = merge_seq(a.drop_first(), b);
        assert forall|i: int| 0 <= i < a.drop_first().len() implies le(
            x,
            #[trigger] a.drop_first()[i],
        ) by {
            assert(a.drop_first()[i] == a[i + 1]);
        }
        lemma_merge_lower_bound(a.drop_first(), b, x);
        assert forall|i: int| 0 <= i < m.len() implies le(x, #[trigger] m[i]) by {
            if i > 0 {
                assert(m[i] == rest[i - 1]);
            } else {
                assert(m[0] == a[0]);
            }
        }
    } else {
        let rest = merge_seq(a, b.drop_first());
        assert forall|i: int| 0 <= i < b.drop_first().len() implies le(
            x,
            #[trigger] b.drop_first()[i],
        ) by {
            assert(b.drop_first()[i] == b[i + 1]);
        }
        lemma_merge_lower_bound(a, b.drop_first(), x);
        assert forall|i: int| 0 <= i < m.len() implies le(x, #[trigger] m[i]) by {
            if i > 0 {
                assert(m[i] == rest[i - 1]);
            } else {
                assert(m[0] == b[0]);
            }
        }
    }
}

/// The tail of a sorted sequence is sorted, and its head is a bound below it.
pub proof fn lemma_sorted_drop_first<T: Ord>(s: Seq<T>)
    requires
        sorted(s),
        s.len() > 0,
    ensures
        sorted(s.drop_first()),
        lower_bound(s[0], s.drop_first()),
{
    let t = s.drop_first();
    assert forall|i: int, j: int| 0 <= i < j < t.len() implies le(
        #[trigger] t[i],
        #[trigger] t[j],
    ) by {
        assert(t[i] == s[i + 1] && t[j] == s[j + 1]);
    }
    assert forall|i: int| 0 <= i < t.len() implies le(s[0], #[trigger] t[i]) by {
        assert(t[i] == s[i + 1]);
    }
}

/// A sorted sequence behind a bound below it is sorted.
pub proof fn lemma_sorted_cons<T: Ord>(x: T, s: Seq<T>)
    requires
        sorted(s),
        lower_bound(x, s),
    ensures
        sorted(seq![x] + s),
{
    let t = seq![x] + s;
    assert forall|i: int, j: int| 0 <= i < j < t.len() implies le(
        #[trigger] t[i],
        #[trigger] t[j],
    ) by {
        assert(t[j] == s[j - 1]);
        if i > 0 {
            assert(t[i] == s[i - 1]);
        }
    }
}

/// The merge of two sorted runs is sorted.
pub proof fn lemma_merge_sorted<T: Ord>(a: Seq<T>, b: Seq<T>)
    requires
        total_order::<T>(),
        sorted(a),
        sorted(b),
    ensures
        sorted(merge_seq(a, b)),
    decreases a.len() + b.len(),
{
    if a.len() == 0 || b.len() == 0 {
    } else if le(a[0], b[0]) {
        lemma_sorted_drop_first(a);
        lemma_merge_sorted(a.drop_first(), b);
        assert forall|j: int| 0 <= j < b.len() implies le(a[0], #[trigger] b[j]) by {
            if j > 0 {
                lemma_le_trans(a[0], b[0], b[j]);
            }
        }
        lemma_merge_lower_bound(a.drop_first(), b, a[0]);
        lemma_sorted_cons(a[0], merge_seq(a.drop_first(), b));
    } else {
        lemma_sorted_drop_first(b);
        lemma_merge_sorted(a, b.drop_first());
        lemma_le_total(a[0], b[0]);
        assert forall|i: int| 0 <= i < a.len() implies le(b[0], #[trigger] a[i]) by {
            if i > 0 {
                lemma_le_trans(b[0], a[0], a[i]);
            }
        }
        lemma_merge_lower_bound(a, b.drop_first(), b[0]);
        lemma_sorted_cons(b[0], merge_seq(a, b.drop_first()));
    }
}

/// The merge of two runs, the first of them sorted, is a stable rearrangement
/// of the first run followed by the second.
pub proof fn lemma_merge_stable<T: Ord>(a: Seq<T>, b: Seq<T>)
    requires
        total_order::<T>(),
        sorted(a),
    ensures
        stable_rearrangement(merge_seq(a, b), a + b),
    decreases a.len() + b.len(),
{
    assert forall|x: T| #[trigger] class_of(merge_seq(a, b), x) == class_of(a + b, x) by {
        lemma_class_of_add(a, b, x);
        if a.len() == 0 {
            assert(a + b =~= b);
        } else if b.len() == 0 {
            assert(a + b =~= a);
        } else if le(a[0], b[0]) {
            lemma_sorted_drop_first(a);
            lemma_merge_stable(a.drop_first(), b);
            let rest = merge_seq(a.drop_first(), b);
            assert(class_of(rest, x) == class_of(a.drop_first() + b, x));
            lemma_class_of_add(seq![a[0]], rest, x);
            lemma_class_of_add(seq![a[0]], a.drop_first() + b, x);
            assert(seq![a[0]] + (a.drop_first() + b) =~= a + b);
        } else {
            lemma_merge_stable(a, b.drop_first());
            let rest = merge_seq(a, b.drop_first());
            assert(class_of(rest, x) == class_of(a + b.drop_first(), x));
            lemma_class_of_add(seq![b[0]], rest, x);
            lemma_class_of_add(a, b.drop_first(), x);
            lemma_class_of_add(seq![b[0]], b.drop_first(), x);
            lemma_class_of_one(b[0], x);
            assert(seq![b[0]] + b.drop_first() =~= b);
            if equiv(x, b[0]) {
                // every element of `a` is strictly after `b[0]`, so none is in the class
                assert forall|i: int| 0 <= i < a.len() implies !equiv(x, #[trigger] a[i]) by {
                    if equiv(x, a[i]) {
                        if i > 0 {
                            lemma_le_trans(a[0], a[i], x);
                        }
                        lemma_le_trans(a[0], x, b[0]);
                    }
                }
                lemma_class_of_none(a, x);
                assert(class_of(a, x) + class_of(b, x) =~= class_of(b, x));
                assert(seq![b[0]] + (class_of(a, x) + class_of(b.drop_first(), x)) =~= seq![b[0]]
                    + class_of(b.drop_first(), x));
            } else {
                assert(Seq::<T>::empty() + class_of(rest, x) =~= class_of(rest, x));
                assert(Seq::<T>::empty() + class_of(b.drop_first(), x) =~= class_of(
                    b.drop_first(),
                    x,
                ));
            }
        }
    }
}

/// While the heads of the first run are not behind the head of the second,
/// the merge starts with them.
pub proof fn lemma_merge_block_left<T: Ord>(a: Seq<T>, b: Seq<T>, i: int, j: int, k: int)
    requires
        0 <= i,
        0 <= k,
        i + k <= a.len(),
        0 <= j < b.len(),
        forall|t: int| i <= t < i + k ==> le(#[trigger] a[t], b[j]),
    ensures
        merge_seq(a.skip(i), b.skip(j)) == a.subrange(i, i + k) + merge_seq(
            a.skip(i + k),
            b.skip(j),
        ),
    decreases k,
{
    if k == 0 {
        assert(a.subrange(i, i) + merge_seq(a.skip(i), b.skip(j)) =~= merge_seq(
            a.skip(i),
            b.skip(j),
        ));
    } else {
        assert(a.skip(i)[0] == a[i]);
        assert(b.skip(j)[0] == b[j]);
        assert(a.skip(i).drop_first() =~= a.skip(i + 1));
        lemma_merge_block_left(a, b, i + 1, j, k - 1);
        assert(seq![a[i]] + (a.subrange(i + 1, i + k) + merge_seq(a.skip(i + k), b.skip(j)))
            =~= a.subrange(i, i + k) + merge_seq(a.skip(i + k), b.skip(j)));
    }
}

/// While the heads of the second run are strictly before the head of the
/// first, the merge starts with them.
pub proof fn lemma_merge_block_right<T: Ord>(a: Seq<T>, b: Seq<T>, i: int, j: int, k: int)
    requires
        0 <= i < a.len(),
        0 <= j,
        0 <= k,
        j + k <= b.len(),
        forall|t: int| j <= t < j + k ==> lt(#[trigger] b[t], a[i]),
    ensures
        merge_seq(a.skip(i), b.skip(j)) == b.subrange(j, j + k) + merge_seq(
            a.skip(i),
            b.skip(j + k),
        ),
    decreases k,
{
    if k == 0 {
        assert(b.subrange(j, j) + merge_seq(a.skip(i), b.skip(j)) =~= merge_seq(
            a.skip(i),
            b.skip(j),
        ));
    } else {
        assert(a.skip(i)[0] == a[i]);
        assert(b.skip(j)[0] == b[j]);
        assert(b.skip(j).drop_first() =~= b.skip(j + 1));
        lemma_merge_block_right(a, b, i, j + 1, k - 1);
        assert(seq![b[j]] + (b.subrange(j + 1, j + k) + merge_seq(a.skip(i), b.skip(j + k)))
            =~= b.subrange(j, j + k) + merge_seq(a.skip(i), b.skip(j + k)));
    }
}

/// Once one run is used up, the merge is what is left of the other.
pub proof fn lemma_merge_rest<T: Ord>(a: Seq<T>, b: Seq<T>, i: int, j: int)
    requires
        0 <= i <= a.len(),
        0 <= j <= b.len(),
        i == a.len() || j == b.len(),
    ensures
        i == a.len() ==> merge_seq(a.skip(i), b.skip(j)) == b.skip(j),
        i < a.len() ==> merge_seq(a.skip(i), b.skip(j)) == a.skip(i),
{
}

/// Every stretch of a sorted sequence is sorted.
pub proof fn lemma_sorted_subrange<T: Ord>(s: Seq<T>, from: int, to: int)
    requires
        sorted(s),
        0 <= from <= to <= s.len(),
    ensures
        sorted(s.subrange(from, to)),
{
    let t = s.subrange(from, to);
    assert forall|i: int, j: int| 0 <= i < j < t.len() implies le(
        #[trigger] t[i],
        #[trigger] t[j],
    ) by {
        assert(t[i] == s[from + i] && t[j] == s[from + j]);
    }
}

/// Where the last element of the second run is not before the last of the
/// first, the merge ends with it.
pub proof fn lemma_merge_push_right<T: Ord>(a: Seq<T>, b: Seq<T>)
    requires
        total_order::<T>(),
        sorted(a),
        sorted(b),
        b.len() > 0,
        a.len() > 0 ==> le(a.last(), b.last()),
    ensures
        merge_seq(a, b) == merge_seq(a, b.drop_last()).push(b.last()),
    decreases a.len() + b.len(),
{
    let bd = b.drop_last();
    if a.len() == 0 {
        assert(bd.push(b.last()) =~= b);
    } else if le(a[0], b[0]) {
        let a1 = a.drop_first();
        lemma_sorted_drop_first(a);
        if a1.len() > 0 {
            assert(a1.last() == a.last());
        }
        lemma_merge_push_right(a1, b);
        if bd.len() == 0 {
            assert(merge_seq(a1, bd) =~= a1);
            assert(seq![a[0]] + a1.push(b.last()) =~= a.push(b.last()));
        } else {
            assert(bd[0] == b[0]);
            assert(seq![a[0]] + merge_seq(a1, bd).push(b.last()) =~= (seq![a[0]] + merge_seq(
                a1,
                bd,
            )).push(b.last()));
        }
    } else {
        let b1 = b.drop_first();
        lemma_sorted_drop_first(b);
        if b1.len() == 0 {
            if a.len() > 1 {
                lemma_le_trans(a[0], a.last(), b[0]);
            }
        } else {
            assert(b1.last() == b.last());
            lemma_merge_push_right(a, b1);
            assert(bd[0] == b[0]);
            assert(bd.drop_first() =~= b1.drop_last());
            assert(seq![b[0]] + merge_seq(a, b1.drop_last()).push(b.last()) =~= (seq![b[0]]
                + merge_seq(a, b1.drop_last())).push(b.last()));
        }
    }
}

/// Where the last element of the second run is strictly before the last of
/// the first, the merge ends with the last element of the first run.
pub proof fn lemma_merge_push_left<T: Ord>(a: Seq<T>, b: Seq<T>)
    requires
        total_order::<T>(),
        sorted(a),
        sorted(b),
        a.len() > 0,
        b.len() > 0 ==> lt(b.last(), a.last()),
    ensures
        merge_seq(a, b) == merge_seq(a.drop_last(), b).push(a.last()),
    decreases a.len() + b.len(),
{
    let ad = a.drop_last();
    if b.len() == 0 {
        assert(ad.push(a.last()) =~= a);
        assert(merge_seq(ad, b) =~= ad);
    } else if le(a[0], b[0]) {
        let a1 = a.drop_first();
        lemma_sorted_drop_first(a);
        if a1.len() == 0 {
            if b.len() > 1 {
                crate::order::lemma_le_lt_trans(b[0], b.last(), a[0]);
            }
        } else {
            assert(a1.last() == a.last());
            lemma_merge_push_left(a1, b);
            assert(ad[0] == a[0]);
            assert(ad.drop_first() =~= a1.drop_last());
            assert(seq![a[0]] + merge_seq(a1.drop_last(), b).push(a.last()) =~= (seq![a[0]]
                + merge_seq(a1.drop_last(), b)).push(a.last()));
        }
    } else {
        let b1 = b.drop_first();
        lemma_sorted_drop_first(b);
        if b1.len() > 0 {
            assert(b1.last() == b.last());
        }
        lemma_merge_push_left(a, b1);
        if ad.len() == 0 {
            assert(merge_seq(ad, b1) =~= b1);
            assert(seq![b[0]] + b1.push(a.last()) =~= b.push(a.last()));
        } else {
            assert(ad[0] == a[0]);
            assert(seq![b[0]] + merge_seq(ad, b1).push(a.last()) =~= (seq![b[0]] + merge_seq(
                ad,
                b1,
            )).push(a.last()));
        }
    }
}

/// While the last elements of the first run are strictly behind the last of
/// the second, the merge ends with them.
pub proof fn lemma_merge_block_back_left<T: Ord>(a: Seq<T>, b: Seq<T>, i: int, j: int, k: int)
    requires
        total_order::<T>(),
        sorted(a),
        sorted(b),
        0 <= k <= i <= a.len(),
        0 <= j <= b.len(),
        j > 0 ==> forall|t: int| i - k <= t < i ==> lt(b[j - 1], #[trigger] a[t]),
    ensures
        merge_seq(a.take(i), b.take(j)) == merge_seq(a.take(i - k), b.take(j)) + a.subrange(
            i - k,
            i,
        ),
    decreases k,
{
    if k == 0 {
        assert(merge_seq(a.take(i), b.take(j)) + a.subrange(i, i) =~= merge_seq(
            a.take(i),
            b.take(j),
        ));
    } else {
        lemma_sorted_subrange(a, 0, i);
        lemma_sorted_subrange(b, 0, j);
        assert(a.take(i).last() == a[i - 1]);
        if j > 0 {
            assert(b.take(j).last() == b[j - 1]);
        }
        lemma_merge_push_left(a.take(i), b.take(j));
        assert(a.take(i).drop_last() =~= a.take(i - 1));
        lemma_merge_block_back_left(a, b, i - 1, j, k - 1);
        assert((merge_seq(a.take(i - k), b.take(j)) + a.subrange(i - k, i - 1)).push(a[i - 1])
            =~= merge_seq(a.take(i - k), b.take(j)) + a.subrange(i - k, i));
    }
}

/// While the last elements of the second run are not before the last of the
/// first, the merge ends with them.
pub proof fn lemma_merge_block_back_right<T: Ord>(a: Seq<T>, b: Seq<T>, i: int, j: int, k: int)
    requires
        total_order::<T>(),
        sorted(a),
        sorted(b),
        0 <= i <= a.len(),
        0 <= k <= j <= b.len(),
        i > 0 ==> forall|t: int| j - k <= t < j ==> le(a[i - 1], #[trigger] b[t]),
    ensures
        merge_seq(a.take(i), b.take(j)) == merge_seq(a.take(i), b.take(j - k)) + b.subrange(
            j - k,
            j,
        ),
    decreases k,
{
    if k == 0 {
        assert(merge_seq(a.take(i), b.take(j)) + b.subrange(j, j) =~= merge_seq(
            a.take(i),
            b.take(j),
        ));
    } else {
        lemma_sorted_subrange(a, 0, i);
        lemma_sorted_subrange(b, 0, j);
        assert(b.take(j).last() == b[j - 1]);
        if i > 0 {
            assert(a.take(i).last() == a[i - 1]);
        }
        lemma_merge_push_right(a.take(i), b.take(j));
        assert(b.take(j).drop_last() =~= b.take(j - 1));
        lemma_merge_block_back_right(a, b, i, j - 1, k - 1);
        assert((merge_seq(a.take(i), b.take(j - k)) + b.subrange(j - k, j - 1)).push(b[j - 1])
            =~= merge_seq(a.take(i), b.take(j - k)) + b.subrange(j - k, j));
    }
}

/// What of the second run is not before any element of the first stays
/// behind the merge of the rest.
pub proof fn lemma_merge_tail<T: Ord>(a: Seq<T>, b: Seq<T>, j: int)
    requires
        total_order::<T>(),
        sorted(a),
        sorted(b),
        0 <= j <= b.len(),
        a.len() > 0 ==> forall|t: int| j <= t < b.len() ==> le(a.last(), #[trigger] b[t]),
    ensures
        merge_seq(a, b) == merge_seq(a, b.take(j)) + b.skip(j),
{
    assert(a.take(a.len() as int) =~= a);
    assert(b.take(b.len() as int) =~= b);
    lemma_merge_block_back_right(a, b, a.len() as int, b.len() as int, b.len() - j);
}

/// A sorted sequence stays sorted when an element not before its last one
/// is added behind it.
pub proof fn lemma_sorted_push<T: Ord>(s: Seq<T>, k: int)
    requires
        total_order::<T>(),
        0 < k < s.len(),
        sorted(s.take(k)),
        le(s[k - 1], s[k]),
    ensures
        sorted(s.take(k + 1)),
{
    let t = s.take(k + 1);
    assert forall|i: int, j: int| 0 <= i < j < t.len() implies le(
        #[trigger] t[i],
        #[trigger] t[j],
    ) by {
        if j < k {
            assert(s.take(k)[i] == t[i] && s.take(k)[j] == t[j]);
        } else if i < k - 1 {
            assert(s.take(k)[i] == t[i] && s.take(k)[k - 1] == s[k - 1]);
            lemma_le_trans(t[i], s[k - 1], s[k]);
        }
    }
}

/// In a strictly decreasing sequence every element is strictly before all
/// that stand in front of it.
pub proof fn lemma_strictly_decreasing_pairs<T: Ord>(s: Seq<T>, i: int, j: int)
    requires
        total_order::<T>(),
        strictly_decreasing(s),
        0 <= i < j < s.len(),
    ensures
        lt(s[j], s[i]),
    decreases j - i,
{
    if j - 1 > i {
        lemma_strictly_decreasing_pairs(s, i, j - 1);
        crate::order::lemma_lt_le(s[j], s[j - 1]);
        crate::order::lemma_le_lt_trans(s[j], s[j - 1], s[i]);
    }
}

/// A sequence with one element that compares equal to `x` has that element
/// as its class of `x`.
pub proof fn lemma_class_of_single<T: Ord>(s: Seq<T>, x: T, k: int)
    requires
        0 <= k < s.len(),
        equiv(x, s[k]),
        forall|i: int| 0 <= i < s.len() && i != k ==> !equiv(x, #[trigger] s[i]),
    ensures
        class_of(s, x) == seq![s[k]],
{
    let p = s.take(k);
    let q = s.skip(k + 1);
    assert(s =~= p + seq![s[k]] + q);
    lemma_class_of_add(p + seq![s[k]], q, x);
    lemma_class_of_add(p, seq![s[k]], x);
    lemma_class_of_one(s[k], x);
    assert forall|i: int| 0 <= i < p.len() implies !equiv(x, #[trigger] p[i]) by {
        assert(p[i] == s[i]);
    }
    assert forall|i: int| 0 <= i < q.len() implies !equiv(x, #[trigger] q[i]) by {
        assert(q[i] == s[i + k + 1]);
    }
    lemma_class_of_none(p, x);
    lemma_class_of_none(q, x);
    assert(Seq::<T>::empty() + seq![s[k]] + Seq::<T>::empty() =~= seq![s[k]]);
}

/// A strictly decreasing sequence read backwards is sorted, and a stable
/// rearrangement: no two of its elements compare equal.
pub proof fn lemma_reverse_strictly_decreasing<T: Ord>(s: Seq<T>)
    requires
        total_order::<T>(),
        strictly_decreasing(s),
    ensures
        sorted(s.reverse()),
        stable_rearrangement(s.reverse(), s),
        permutation(s.reverse(), s),
{
    let r = s.reverse();
    let n = s.len() as int;
    assert forall|i: int, j: int| 0 <= i < j < r.len() implies le(
        #[trigger] r[i],
        #[trigger] r[j],
    ) by {
        lemma_strictly_decreasing_pairs(s, n - 1 - j, n - 1 - i);
        crate::order::lemma_lt_le(s[n - 1 - i], s[n - 1 - j]);
    }
    assert forall|x: T| #[trigger] class_of(r, x) == class_of(s, x) by {
        if exists|k: int| 0 <= k < n && equiv(x, s[k]) {
            let k = choose|k: int| 0 <= k < n && equiv(x, s[k]);
            assert forall|i: int| 0 <= i < n && i != k implies !equiv(x, #[trigger] s[i]) by {
                if equiv(x, s[i]) {
                    lemma_le_trans(s[i], x, s[k]);
                    lemma_le_trans(s[k], x, s[i]);
                    if i < k {
                        lemma_strictly_decreasing_pairs(s, i, k);
                    } else {
                        lemma_strictly_decreasing_pairs(s, k, i);
                    }
                }
            }
            assert forall|i: int| 0 <= i < n && i != n - 1 - k implies !equiv(
                x,
                #[trigger] r[i],
            ) by {
                assert(r[i] == s[n - 1 - i]);
            }
            lemma_class_of_single(s, x, k);
            lemma_class_of_single(r, x, n - 1 - k);
        } else {
            assert forall|i: int| 0 <= i < n implies !equiv(x, #[trigger] r[i]) by {
                assert(r[i] == s[n - 1 - i]);
            }
            lemma_class_of_none(s, x);
            lemma_class_of_none(r, x);
        }
    }
    s.lemma_reverse_to_multiset();
}

/// Exchanging two neighbours that do not compare equal leaves every class as
/// it is.
pub proof fn lemma_swap_neighbours_stable<T: Ord>(s: Seq<T>, j: int)
    requires
        total_order::<T>(),
        0 <= j,
        j + 1 < s.len(),
        !equiv(s[j], s[j + 1]),
    ensures
        stable_rearrangement(s.update(j, s[j + 1]).update(j + 1, s[j]), s),
        permutation(s.update(j, s[j + 1]).update(j + 1, s[j]), s),
{
    let t = s.update(j, s[j + 1]).update(j + 1, s[j]);
    let p = s.take(j);
    let q = s.skip(j + 2);
    let x = s[j];
    let y = s[j + 1];
    assert(s =~= p + (seq![x] + seq![y]) + q);
    assert(t =~= p + (seq![y] + seq![x]) + q);
    assert forall|z: T| #[trigger] class_of(t, z) == class_of(s, z) by {
        lemma_class_of_add(p + (seq![x] + seq![y]), q, z);
        lemma_class_of_add(p, seq![x] + seq![y], z);
        lemma_class_of_add(seq![x], seq![y], z);
        lemma_class_of_add(p + (seq![y] + seq![x]), q, z);
        lemma_class_of_add(p, seq![y] + seq![x], z);
        lemma_class_of_add(seq![y], seq![x], z);
        lemma_class_of_one(x, z);
        lemma_class_of_one(y, z);
        if equiv(z, x) && equiv(z, y) {
            lemma_le_trans(x, z, y);
            lemma_le_trans(y, z, x);
        }
        assert(Seq::<T>::empty() + seq![x] =~= seq![x] + Seq::<T>::empty());
        assert(Seq::<T>::empty() + seq![y] =~= seq![y] + Seq::<T>::empty());
    }
    lemma_multiset_commutative(p + (seq![x] + seq![y]), q);
    lemma_multiset_commutative(p, seq![x] + seq![y]);
    lemma_multiset_commutative(seq![x], seq![y]);
    lemma_multiset_commutative(p + (seq![y] + seq![x]), q);
    lemma_multiset_commutative(p, seq![y] + seq![x]);
    lemma_multiset_commutative(seq![y], seq![x]);
    assert(seq![x].to_multiset().add(seq![y].to_multiset()) =~= seq![y].to_multiset().add(
        seq![x].to_multiset(),
    ));
}

/// Being a stable rearrangement is transitive.
pub proof fn lemma_stable_trans<T: Ord>(a: Seq<T>, b: Seq<T>, c: Seq<T>)
    requires
        stable_rearrangement(a, b),
        stable_rearrangement(b, c),
    ensures
        stable_rearrangement(a, c),
{
    assert forall|x: T| #[trigger] class_of(a, x) == class_of(c, x) by {
        assert(class_of(a, x) == class_of(b, x));
        assert(class_of(b, x) == class_of(c, x));
    }
}

/// Every sequence is a stable rearrangement of itself.
pub proof fn lemma_stable_refl<T: Ord>(a: Seq<T>)
    ensures
        stable_rearrangement(a, a),
{
}

/// The class of an element holds it as often as the sequence does.
pub proof fn lemma_class_count<T: Ord>(s: Seq<T>, v: T)
    requires
        total_order::<T>(),
    ensures
        class_of(s, v).to_multiset().count(v) == s.to_multiset().count(v),
    decreases s.len(),
{
    broadcast use vstd::multiset::group_multiset_axioms;

    let p = |y: T| equiv(v, y);
    if s.len() == 0 {
        reveal(Seq::filter);
        assert(class_of(s, v) =~= s);
    } else {
        let rest = s.drop_last();
        let e = s.last();
        lemma_class_count(rest, v);
        assert(s =~= rest.push(e));
        rest.lemma_filter_push(e, p);
        vstd::seq_lib::to_multiset_build(rest, e);
        if equiv(v, e) {
            vstd::seq_lib::to_multiset_build(class_of(rest, v), e);
        } else {
            lemma_le_refl(v);
        }
    }
}

/// A stable rearrangement is a permutation.
pub proof fn lemma_stable_is_permutation<T: Ord>(a: Seq<T>, b: Seq<T>)
    requires
        total_order::<T>(),
        stable_rearrangement(a, b),
    ensures
        permutation(a, b),
{
    assert forall|v: T| a.to_multiset().count(v) == b.to_multiset().count(v) by {
        lemma_class_count(a, v);
        lemma_class_count(b, v);
        assert(class_of(a, v) == class_of(b, v));
    }
    assert(a.to_multiset() =~= b.to_multiset());
}

/// The class of the head of a sequence starts with the head.
proof fn lemma_class_of_head<T: Ord>(s: Seq<T>, x: T)
    requires
        total_order::<T>(),
        s.len() > 0,
    ensures
        class_of(s, x) == class_of(seq![s[0]], x) + class_of(s.drop_first(), x),
        equiv(x, s[0]) ==> class_of(s, x).len() > 0 && class_of(s, x)[0] == s[0],
{
    assert(s =~= seq![s[0]] + s.drop_first());
    lemma_class_of_add(seq![s[0]], s.drop_first(), x);
    lemma_class_of_one(s[0], x);
}

/// The head of a sorted sequence stands in the other of two sorted sequences
/// with the same classes, and so the head of the other is not behind it.
proof fn lemma_head_not_behind<T: Ord>(a: Seq<T>, b: Seq<T>)
    requires
        total_order::<T>(),
        a.len() > 0,
        b.len() > 0,
        sorted(b),
        stable_rearrangement(a, b),
    ensures
        le(b[0], a[0]),
{
    let x = a[0];
    lemma_le_refl(x);
    lemma_class_of_head(a, x);
    assert(class_of(b, x) == class_of(a, x));
    let found = class_of(b, x)[0];
    assert(class_of(b, x).contains(found));
    b.lemma_filter_contains_rev(|y: T| equiv(x, y), found);
    let j = choose|j: int| 0 <= j < b.len() && b[j] == found;
    if j > 0 {
        assert(le(b[0], b[j]));
    } else {
        lemma_le_refl(b[0]);
    }
}

/// A sorted sequence is the only sorted sequence among its stable
/// rearrangements: the sorted sequence with given classes is unique.
pub proof fn lemma_sorted_stable_unique<T: Ord>(a: Seq<T>, b: Seq<T>)
    requires
        total_order::<T>(),
        sorted(a),
        sorted(b),
        stable_rearrangement(a, b),
    ensures
        a == b,
    decreases a.len(),
{
    lemma_stable_is_permutation(a, b);
    vstd::seq_lib::to_multiset_len(a);
    vstd::seq_lib::to_multiset_len(b);
    if a.len() > 0 {
        // the heads compare equal, and so each is the first of its class
        lemma_head_not_behind(a, b);
        assert forall|x: T| #[trigger] class_of(b, x) == class_of(a, x) by {
            assert(class_of(a, x) == class_of(b, x));
        }
        lemma_head_not_behind(b, a);
        lemma_le_refl(a[0]);
        assert(equiv(a[0], b[0]));
        lemma_class_of_head(a, a[0]);
        lemma_class_of_head(b, a[0]);
        assert(class_of(a, a[0]) == class_of(b, a[0]));
        assert(a[0] == b[0]);
        let a1 = a.drop_first();
        let b1 = b.drop_first();
        lemma_sorted_drop_first(a);
        lemma_sorted_drop_first(b);
        assert forall|x: T| #[trigger] class_of(a1, x) == class_of(b1, x) by {
            lemma_class_of_head(a, x);
            lemma_class_of_head(b, x);
            assert(class_of(a, x) == class_of(b, x));
            let head = class_of(seq![a[0]], x);
            let ca = class_of(a1, x);
            let cb = class_of(b1, x);
            assert(head + ca == head + cb);
            assert(ca.len() == cb.len()) by {
                assert((head + ca).len() == (head + cb).len());
            }
            assert forall|i: int| 0 <= i < ca.len() implies ca[i] == cb[i] by {
                assert((head + ca)[head.len() + i] == ca[i]);
                assert((head + cb)[head.len() + i] == cb[i]);
            }
            assert(ca =~= cb);
        }
        lemma_sorted_stable_unique(a1, b1);
        assert(a =~= seq![a[0]] + a1);
        assert(b =~= seq![b[0]] + b1);
    } else {
        assert(a =~= b);
    }
}

/// What a stable sort returns is fixed by what it is given: any two sorted
/// stable rearrangements of one sequence are the same sequence.
pub proof fn lemma_stable_sort_unique<T: Ord>(input: Seq<T>, one: Seq<T>, other: Seq<T>)
    requires
        total_order::<T>(),
        sorted(one),
        stable_rearrangement(one, input),
        sorted(other),
        stable_rearrangement(other, input),
    ensures
        one == other,
{
    assert forall|x: T| #[trigger] class_of(one, x) == class_of(other, x) by {
        assert(class_of(one, x) == class_of(input, x));
        assert(class_of(other, x) == class_of(input, x));
    }
    lemma_sorted_stable_unique(one, other);
}

/// A stable sort leaves a sorted sequence as it is, and so sorting twice is
/// sorting once.
pub proof fn lemma_stable_sort_idempotent<T: Ord>(input: Seq<T>, once: Seq<T>, twice: Seq<T>)
    requires
        total_order::<T>(),
        sorted(once),
        stable_rearrangement(once, input),
        sorted(twice),
        stable_rearrangement(twice, once),
    ensures
        twice == once,
        sorted(input) ==> once == input,
{
    lemma_sorted_stable_unique(twice, once);
    if sorted(input) {
        lemma_sorted_stable_unique(once, input);
    }
}

/// Merging with an empty run changes nothing.
pub proof fn lemma_merge_empty_run<T: Ord>(s: Seq<T>)
    ensures
        merge_seq(Seq::<T>::empty(), s) == s,
        merge_seq(s, Seq::<T>::empty()) == s,
{
}

/// The stable merge of two sorted runs is the one sorted stable
/// rearrangement of the first run followed by the second.
pub proof fn lemma_merge_is_stable_sort<T: Ord>(a: Seq<T>, b: Seq<T>, merged: Seq<T>)
    requires
        total_order::<T>(),
        sorted(a),
        sorted(b),
        sorted(merged),
        stable_rearrangement(merged, a + b),
    ensures
        merged == merge_seq(a, b),
{
    lemma_merge_sorted(a, b);
    lemma_merge_stable(a, b);
    lemma_stable_sort_unique(a + b, merged, merge_seq(a, b));
}

} // verus!

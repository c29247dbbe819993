//! Bubble sort and selection sort, generic over `Ord`.
//!
//! Both always leave a permutation of their input. Where the element
//! type's comparison is a strict weak order (`orderly`), they leave it
//! sorted.
use vstd::prelude::*;
use vstd::std_specs::cmp::PartialOrdSpec;

verus! {

/// `a` comes strictly before `b` by `<`.
pub open spec fn precedes<T: PartialOrd>(a: T, b: T) -> bool {
    a.partial_cmp_spec(&b) == Some(core::cmp::Ordering::Less)
}

/// `<` on `T` follows its specification and is a strict weak order:
/// asymmetric, transitive, and with transitive incomparability.
pub open spec fn orderly<T: PartialOrd>() -> bool {
    &&& T::obeys_partial_cmp_spec()
    &&& forall|a: T, b: T| #[trigger] precedes(a, b) ==> !precedes(b, a)
    &&& forall|a: T, b: T, c: T|
        #![trigger precedes(a, b), precedes(b, c)]
        precedes(a, b) && precedes(b, c) ==> precedes(a, c)
    &&& forall|a: T, b: T, c: T|
        #![trigger precedes(a, b), precedes(b, c)]
        !precedes(a, b) && !precedes(b, c) ==> !precedes(a, c)
}

/// No element comes strictly before an earlier one.
pub open spec fn sorted<T: PartialOrd>(s: Seq<T>) -> bool {
    forall|i: int, j: int| 0 <= i < j < s.len() ==> !precedes(#[trigger] s[j], #[trigger] s[i])
}

/// Exchanges two elements of `v` (`<[T]>::swap`).
#[verifier::external_body]
fn swap_items<T>(v: &mut Vec<T>, i: usize, j: usize)
    requires
        i < old(v)@.len(),
        j < old(v)@.len(),
    ensures
        final(v)@ == old(v)@.update(i as int, old(v)@[j as int]).update(j as int, old(v)@[i as int]),
{
    v.swap(i, j);
}

/// Exchanging two elements keeps the multiset of elements.
proof fn lemma_swap_keeps_elements<T>(s: Seq<T>, i: int, j: int)
    requires
        0 <= i < s.len(),
        0 <= j < s.len(),
    ensures
        s.update(i, s[j]).update(j, s[i]).to_multiset() == s.to_multiset(),
{
    broadcast use vstd::seq_lib::lemma_multiset_commutative;

    let t = s.update(i, s[j]).update(j, s[i]);
    if i == j {
        assert(t =~= s);
    } else {
        let (a, b) = if i < j {
            (i, j)
        } else {
            (j, i)
        };
        let p0 = s.subrange(0, a);
        let p1 = s.subrange(a + 1, b);
        let p2 = s.subrange(b + 1, s.len() as int);
        assert(s =~= p0 + seq![s[a]] + p1 + seq![s[b]] + p2);
        assert(t =~= p0 + seq![s[b]] + p1 + seq![s[a]] + p2);
        assert((p0 + seq![s[a]] + p1 + seq![s[b]] + p2).to_multiset() =~= p0.to_multiset().add(
            seq![s[a]].to_multiset(),
        ).add(p1.to_multiset()).add(seq![s[b]].to_multiset()).add(p2.to_multiset()));
        assert((p0 + seq![s[b]] + p1 + seq![s[a]] + p2).to_multiset() =~= p0.to_multiset().add(
            seq![s[b]].to_multiset(),
        ).add(p1.to_multiset()).add(seq![s[a]].to_multiset()).add(p2.to_multiset()));
    }
}

/// Bubble sort: repeatedly swaps neighbours that are out of order.
pub fn bubble_sort<T: Ord>(v: &mut Vec<T>)
    ensures
        final(v)@.len() == old(v)@.len(),
        final(v)@.to_multiset() == old(v)@.to_multiset(),
        orderly::<T>() ==> sorted(final(v)@),
{
    let len = v.len();
    if len < 2 {
        proof {
            if orderly::<T>() {
                assert(sorted(v@));
            }
        }
        return;
    }
    let ghost orig = v@;
    let mut i: usize = 0;
    while i < len
        invariant
            len == v@.len(),
            i <= len,
            v@.to_multiset() == orig.to_multiset(),
            orig == old(v)@,
            orderly::<T>() ==> {
                &&& forall|a: int, b: int| len - i <= a < b < len ==> !precedes(#[trigger] v@[b], #[trigger] v@[a])
                &&& forall|a: int, b: int|
                    0 <= a < len - i <= b < len ==> !precedes(#[trigger] v@[b], #[trigger] v@[a])
            },
        decreases len - i,
    {
        let end = len - i - 1;
        let mut j: usize = 0;
        while j < end
            invariant
                len == v@.len(),
                i < len,
                end == len - i - 1,
                j <= end,
                v@.to_multiset() == orig.to_multiset(),
                orderly::<T>() ==> {
                    &&& forall|a: int, b: int| len - i <= a < b < len ==> !precedes(#[trigger] v@[b], #[trigger] v@[a])
                    &&& forall|a: int, b: int|
                        0 <= a < len - i <= b < len ==> !precedes(#[trigger] v@[b], #[trigger] v@[a])
                    &&& forall|k: int| 0 <= k <= j ==> !precedes(#[trigger] v@[j as int], #[trigger] v@[k])
                },
            decreases end - j,
        {
            let ghost before = v@;
            if v[j + 1] < v[j] {
                swap_items(v, j, j + 1);
                proof {
                    lemma_swap_keeps_elements(before, j as int, j + 1);
                    if orderly::<T>() {
                        assert(precedes(before[j + 1], before[j as int]));
                        assert forall|k: int| 0 <= k <= j + 1 implies !precedes(#[trigger] v@[j + 1], #[trigger] v@[k]) by {
                            if k < j {
                                assert(!precedes(before[j as int], before[k]));
                            }
                        }
                        assert forall|a: int, b: int|
                            0 <= a < len - i <= b < len implies !precedes(#[trigger] v@[b], #[trigger] v@[a]) by {
                            if a == j {
                                assert(!precedes(before[b], before[j + 1]));
                            } else if a == j + 1 {
                                assert(!precedes(before[b], before[j as int]));
                            } else {
                                assert(!precedes(before[b], before[a]));
                            }
                        }
                    }
                }
            } else {
                proof {
                    if orderly::<T>() {
                        assert(!precedes(v@[j + 1], v@[j as int]));
                        assert forall|k: int| 0 <= k <= j + 1 implies !precedes(#[trigger] v@[j + 1], #[trigger] v@[k]) by {
                            if k < j + 1 {
                                assert(!precedes(v@[j as int], v@[k]));
                            }
                        }
                    }
                }
            }
            j = j + 1;
        }
        proof {
            if orderly::<T>() {
                assert forall|a: int, b: int| len - (i + 1) <= a < b < len implies !precedes(#[trigger] v@[b], #[trigger] v@[a]) by {
                    if a == end {
                        assert(!precedes(v@[b], v@[a]));
                    }
                }
                assert forall|a: int, b: int|
                    0 <= a < len - (i + 1) <= b < len implies !precedes(#[trigger] v@[b], #[trigger] v@[a]) by {
                    if b == end {
                        assert(!precedes(v@[end as int], v@[a]));
                    }
                }
            }
        }
        i = i + 1;
    }
}

/// Selection sort: puts the least remaining element at each position in turn.
pub fn selection_sort<T: Ord>(v: &mut Vec<T>)
    ensures
        final(v)@.len() == old(v)@.len(),
        final(v)@.to_multiset() == old(v)@.to_multiset(),
        orderly::<T>() ==> sorted(final(v)@),
{
    let len = v.len();
    if len < 2 {
        proof {
            if orderly::<T>() {
                assert(sorted(v@));
            }
        }
        return;
    }
    let ghost orig = v@;
    let mut i: usize = 0;
    while i < len
        invariant
            len == v@.len(),
            i <= len,
            v@.to_multiset() == orig.to_multiset(),
            orig == old(v)@,
            orderly::<T>() ==> {
                &&& forall|a: int, b: int| 0 <= a < b < i ==> !precedes(#[trigger] v@[b], #[trigger] v@[a])
                &&& forall|a: int, b: int| 0 <= a < i <= b < len ==> !precedes(#[trigger] v@[b], #[trigger] v@[a])
            },
        decreases len - i,
    {
        let mut min = i;
        let mut j = i + 1;
        while j < len
            invariant
                len == v@.len(),
                i < len,
                i <= min < j <= len,
                orderly::<T>() ==> forall|k: int| i <= k < j ==> !precedes(#[trigger] v@[k], v@[min as int]),
            decreases len - j,
        {
            if v[j] < v[min] {
                proof {
                    if orderly::<T>() {
                        assert(precedes(v@[j as int], v@[min as int]));
                        assert forall|k: int| i <= k < j + 1 implies !precedes(#[trigger] v@[k], v@[j as int]) by {
                            if k < j {
                                assert(!precedes(v@[k], v@[min as int]));
                            }
                        }
                    }
                }
                min = j;
            }
            j = j + 1;
        }
        let ghost before = v@;
        swap_items(v, i, min);
        proof {
            lemma_swap_keeps_elements(before, i as int, min as int);
            if orderly::<T>() {
                assert forall|a: int, b: int| 0 <= a < b < i + 1 implies !precedes(#[trigger] v@[b], #[trigger] v@[a]) by {
                    if b == i {
                        assert(!precedes(before[min as int], before[a]));
                    } else {
                        assert(!precedes(before[b], before[a]));
                    }
                }
                assert forall|a: int, b: int| 0 <= a < i + 1 <= b < len implies !precedes(#[trigger] v@[b], #[trigger] v@[a]) by {
                    if a == i {
                        if b == min {
                            assert(!precedes(before[i as int], before[min as int]));
                        } else {
                            assert(!precedes(before[b], before[min as int]));
                        }
                    } else if b == min {
                        assert(!precedes(before[i as int], before[a]));
                    } else {
                        assert(!precedes(before[b], before[a]));
                    }
                }
            }
        }
        i = i + 1;
    }
}

} // verus!

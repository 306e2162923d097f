//! The ordering laws that sorting relies on, stated over the specification
//! that vstd gives to `PartialOrd`.
use core::cmp::Ordering;
use vstd::prelude::*;
use vstd::std_specs::cmp::PartialOrdSpec;

verus! {

/// `a` compares strictly greater than `b`.
pub open spec fn greater<T: PartialOrd>(a: T, b: T) -> bool {
    a.partial_cmp_spec(&b) == Some(Ordering::Greater)
}

/// `T`'s comparison is specified, and it behaves as a total order: "greater"
/// is asymmetric and "not greater" (that is, "at most") is transitive.
pub open spec fn is_total_order<T: PartialOrd>() -> bool {
    &&& T::obeys_partial_cmp_spec()
    &&& forall|a: T, b: T| #[trigger] greater(a, b) ==> !greater(b, a)
    &&& forall|a: T, b: T, c: T|
        !#[trigger] greater(a, b) && !#[trigger] greater(b, c) ==> !greater(a, c)
}

/// Every element is at most every element after it.
pub open spec fn is_sorted<T: PartialOrd>(s: Seq<T>) -> bool {
    forall|i: int, j: int| 0 <= i < j < s.len() ==> !greater(#[trigger] s[i], #[trigger] s[j])
}


/// The first `n` elements are in order.
pub open spec fn is_sorted_prefix<T: PartialOrd>(s: Seq<T>, n: int) -> bool {
    forall|i: int, j: int| 0 <= i < j < n ==> !greater(#[trigger] s[i], #[trigger] s[j])
}

/// `s` with its element at `from` taken out and put back at `to`.
pub open spec fn moved<T>(s: Seq<T>, from: int, to: int) -> Seq<T> {
    s.remove(from).insert(to, s[from])
}

/// One step of insertion sort: where the first `i` elements are in order,
/// `s[i]` is at least the element before position `j`, and every element
/// from `j` up to `i` is greater than it, moving `s[i]` to `j` puts the first
/// `i + 1` elements in order.
pub proof fn lemma_insertion_step<T: PartialOrd>(s: Seq<T>, i: int, j: int)
    requires
        is_total_order::<T>(),
        0 <= j <= i < s.len(),
        is_sorted_prefix(s, i),
        j > 0 ==> !greater(s[j - 1], s[i]),
        forall|t: int| j <= t < i ==> #[trigger] greater(s[t], s[i]),
    ensures
        is_sorted_prefix(moved(s, i, j), i + 1),
        moved(s, i, j).len() == s.len(),
{
    let m = moved(s, i, j);
    let x = s[i];
    assert forall|a: int, b: int| 0 <= a < b < i + 1 implies !greater(
        #[trigger] m[a],
        #[trigger] m[b],
    ) by {
        if b < j {
            assert(m[a] == s[a] && m[b] == s[b]);
        } else if b == j {
            assert(m[a] == s[a] && m[b] == x);
            if a < j - 1 {
                assert(!greater(s[a], s[j - 1]));
            }
        } else if a < j {
            assert(m[a] == s[a] && m[b] == s[b - 1]);
        } else if a == j {
            assert(m[a] == x && m[b] == s[b - 1]);
            assert(greater(s[b - 1], x));
        } else {
            assert(m[a] == s[a - 1] && m[b] == s[b - 1]);
        }
    }
}

} // verus!

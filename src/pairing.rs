//! Two sequences read side by side as (key, value) pairs, and what moving an
//! element in both at once keeps.
use vstd::prelude::*;

use crate::order::moved;

verus! {

broadcast use vstd::seq_lib::group_to_multiset_ensures;

/// The pairs `(ks[i], vs[i])`, as long as `ks`.
pub open spec fn zip_pairs<K, V>(ks: Seq<K>, vs: Seq<V>) -> Seq<(K, V)> {
    Seq::new(ks.len(), |i: int| (ks[i], vs[i]))
}

/// The value paired with `k`, if `k` occurs among the keys.
pub open spec fn lookup<K, V>(ks: Seq<K>, vs: Seq<V>, k: K) -> Option<V> {
    if ks.contains(k) {
        Some(vs[ks.index_of(k)])
    } else {
        None
    }
}

/// Moving the element at `from` to `to` in both sequences moves the pair,
/// keeps the pairs as a multiset, and keeps the keys distinct.
pub proof fn lemma_move_pairs<K, V>(ks: Seq<K>, vs: Seq<V>, from: int, to: int)
    requires
        ks.len() == vs.len(),
        0 <= to <= from < ks.len(),
    ensures
        zip_pairs(moved(ks, from, to), moved(vs, from, to)) == moved(zip_pairs(ks, vs), from, to),
        zip_pairs(moved(ks, from, to), moved(vs, from, to)).to_multiset() == zip_pairs(
            ks,
            vs,
        ).to_multiset(),
        ks.no_duplicates() ==> moved(ks, from, to).no_duplicates(),
{
    let p = zip_pairs(ks, vs);
    assert(zip_pairs(moved(ks, from, to), moved(vs, from, to)) =~= moved(p, from, to));
    assert(p.remove(from).insert(to, p[from]).to_multiset() == p.remove(from).to_multiset().insert(
        p[from],
    ));
    assert(p.remove(from).to_multiset() == p.to_multiset().remove(p[from]));
    assert(p.to_multiset().remove(p[from]).insert(p[from]) =~= p.to_multiset()) by {
        broadcast use vstd::multiset::group_multiset_axioms;

        assert(p.to_multiset().contains(p[from]));
    }
    if ks.no_duplicates() {
        let m = moved(ks, from, to);
        assert forall|a: int, b: int| 0 <= a < b < m.len() implies m[a] != m[b] by {
            let fa = if a < to {
                a
            } else if a == to {
                from
            } else if a <= from {
                a - 1
            } else {
                a
            };
            let fb = if b < to {
                b
            } else if b == to {
                from
            } else if b <= from {
                b - 1
            } else {
                b
            };
            assert(m[a] == ks[fa]);
            assert(m[b] == ks[fb]);
        }
    }
}

/// Two pairings with distinct keys and the same pairs, as a multiset, give
/// every key the same value.
pub proof fn lemma_same_pairs_same_lookup<K, V>(ks1: Seq<K>, vs1: Seq<V>, ks2: Seq<K>, vs2: Seq<V>, k: K)
    requires
        ks1.len() == vs1.len(),
        ks2.len() == vs2.len(),
        ks1.no_duplicates(),
        ks2.no_duplicates(),
        zip_pairs(ks1, vs1).to_multiset() == zip_pairs(ks2, vs2).to_multiset(),
    ensures
        lookup(ks1, vs1, k) == lookup(ks2, vs2, k),
{
    lemma_pair_found(ks1, vs1, ks2, vs2, k);
    lemma_pair_found(ks2, vs2, ks1, vs1, k);
}

proof fn lemma_pair_found<K, V>(ks1: Seq<K>, vs1: Seq<V>, ks2: Seq<K>, vs2: Seq<V>, k: K)
    requires
        ks1.len() == vs1.len(),
        ks2.len() == vs2.len(),
        ks1.no_duplicates(),
        ks2.no_duplicates(),
        zip_pairs(ks1, vs1).to_multiset() == zip_pairs(ks2, vs2).to_multiset(),
    ensures
        ks1.contains(k) ==> lookup(ks1, vs1, k) == lookup(ks2, vs2, k),
{
    if ks1.contains(k) {
        let p = ks1.index_of(k);
        let pr = (k, vs1[p]);
        let z1 = zip_pairs(ks1, vs1);
        let z2 = zip_pairs(ks2, vs2);
        assert(z1[p] == pr);
        assert(z1.contains(pr));
        assert(z1.to_multiset().contains(pr));
        assert(z2.to_multiset().contains(pr));
        assert(z2.contains(pr));
        let q = choose|q: int| 0 <= q < z2.len() && z2[q] == pr;
        assert(ks2[q] == k && vs2[q] == vs1[p]);
        assert(ks2.contains(k));
        let q2 = ks2.index_of(k);
        assert(q2 == q);
    }
}

} // verus!

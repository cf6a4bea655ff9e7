//! Sequences in the order of a relation.

use vstd::prelude::*;

verus! {

/// Whether each element of `s` stands, by `lt`, before all that follow
/// it.
pub open spec fn sorted_by<K>(s: Seq<K>, lt: spec_fn(K, K) -> bool) -> bool {
    forall|i: int, j: int| 0 <= i < j < s.len() ==> lt(#[trigger] s[i], #[trigger] s[j])
}

/// Whether `lt` never holds both ways.
pub open spec fn asymmetric<K>(lt: spec_fn(K, K) -> bool) -> bool {
    forall|x: K, y: K| !(#[trigger] lt(x, y) && lt(y, x))
}

/// Whether `a` and `b` hold the same elements.
pub open spec fn same_elements<K>(a: Seq<K>, b: Seq<K>) -> bool {
    forall|x: K| a.contains(x) <==> b.contains(x)
}

/// Two sequences that are sorted by the same asymmetric relation and
/// hold the same elements are the same sequence.
pub proof fn lemma_sorted_unique<K>(a: Seq<K>, b: Seq<K>, lt: spec_fn(K, K) -> bool)
    requires
        asymmetric(lt),
        sorted_by(a, lt),
        sorted_by(b, lt),
        same_elements(a, b),
    ensures
        a == b,
    decreases a.len(),
{
    if a.len() == 0 {
        if b.len() > 0 {
            assert(b.contains(b[0]));
            assert(a.contains(b[0]));
        }
        assert(a =~= b);
    } else {
        let x = a.last();
        assert(a.contains(x));
        assert(b.contains(x));
        let j = choose|j: int| 0 <= j < b.len() && b[j] == x;
        let y = b.last();
        if j < b.len() - 1 {
            assert(lt(b[j], y));
            assert(b.contains(y));
            assert(a.contains(y));
            let i = choose|i: int| 0 <= i < a.len() && a[i] == y;
            if i < a.len() - 1 {
                assert(lt(a[i], x));
            }
            assert(false);
        }
        let a1 = a.drop_last();
        let b1 = b.drop_last();
        assert forall|z: K| a1.contains(z) <==> b1.contains(z) by {
            if a1.contains(z) {
                let i = choose|i: int| 0 <= i < a1.len() && a1[i] == z;
                assert(a[i] == z);
                assert(lt(a[i], x));
                assert(a.contains(z));
                assert(b.contains(z));
                let k = choose|k: int| 0 <= k < b.len() && b[k] == z;
                assert(b1[k] == z);
            }
            if b1.contains(z) {
                let i = choose|i: int| 0 <= i < b1.len() && b1[i] == z;
                assert(b[i] == z);
                assert(lt(b[i], y));
                assert(b.contains(z));
                assert(a.contains(z));
                let k = choose|k: int| 0 <= k < a.len() && a[k] == z;
                assert(a1[k] == z);
            }
        }
        lemma_sorted_unique(a1, b1, lt);
        assert(a =~= a1.push(x));
        assert(b =~= b1.push(y));
    }
}

} // verus!

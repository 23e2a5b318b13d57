//! Stable ordering by a two-level integer key.
use vstd::prelude::*;
use vstd::set_lib::{lemma_int_range, lemma_subset_equality, set_int_range};

verus! {

/// Strict lexicographic order on key pairs.
pub open spec fn key_lt(a: (i128, i128), b: (i128, i128)) -> bool {
    a.0 < b.0 || (a.0 == b.0 && a.1 < b.1)
}

/// Position `i` comes before position `j` in a stable sort of `keys`:
/// a smaller key, or an equal key and an earlier position.
pub open spec fn goes_before(keys: Seq<(i128, i128)>, i: int, j: int) -> bool {
    key_lt(keys[i], keys[j]) || (keys[i] == keys[j] && i < j)
}

/// `perm` lists the positions of `keys` in stable sorted order: every
/// position exactly once, strictly increasing in `goes_before`.
pub open spec fn is_stable_order(keys: Seq<(i128, i128)>, perm: Seq<usize>) -> bool {
    &&& perm.len() == keys.len()
    &&& forall|p: int| 0 <= p < perm.len() ==> (#[trigger] perm[p]) < keys.len()
    &&& forall|p: int, q: int|
        0 <= p < q < perm.len() ==> goes_before(keys, #[trigger] perm[p] as int, #[trigger] perm[q] as int)
}

/// The positions of `keys` in stable sorted order (insertion sort).
pub fn stable_order(keys: &Vec<(i128, i128)>) -> (perm: Vec<usize>)
    ensures
        is_stable_order(keys@, perm@),
{
    let mut perm: Vec<usize> = Vec::new();
    let mut i: usize = 0;
    while i < keys.len()
        invariant
            i <= keys@.len(),
            perm@.len() == i,
            forall|p: int| 0 <= p < perm@.len() ==> (#[trigger] perm@[p]) < i,
            forall|p: int, q: int|
                0 <= p < q < perm@.len() ==> goes_before(keys@, #[trigger] perm@[p] as int, #[trigger] perm@[q] as int),
        decreases keys@.len() - i,
    {
        let ki = keys[i];
        let mut pos: usize = 0;
        while pos < perm.len() && !(ki.0 < keys[perm[pos]].0 || (ki.0 == keys[perm[pos]].0 && ki.1 < keys[perm[pos]].1))
            invariant
                i < keys@.len(),
                ki == keys@[i as int],
                pos <= perm@.len(),
                perm@.len() == i,
                forall|p: int| 0 <= p < perm@.len() ==> (#[trigger] perm@[p]) < i,
                forall|p: int| 0 <= p < pos ==> goes_before(keys@, #[trigger] perm@[p] as int, i as int),
            decreases perm@.len() - pos,
        {
            pos = pos + 1;
        }
        proof {
            assert forall|q: int| pos <= q < perm@.len() implies goes_before(keys@, i as int, #[trigger] perm@[q] as int) by {
                if q > pos {
                    assert(goes_before(keys@, perm@[pos as int] as int, perm@[q] as int));
                }
            }
        }
        let ghost old_perm = perm@;
        perm.insert(pos, i);
        proof {
            assert forall|p: int, q: int|
                0 <= p < q < perm@.len() implies goes_before(keys@, #[trigger] perm@[p] as int, #[trigger] perm@[q] as int) by {
                if q < pos {
                    assert(perm@[p] == old_perm[p] && perm@[q] == old_perm[q]);
                } else if q == pos {
                    assert(perm@[p] == old_perm[p]);
                } else if p < pos {
                    assert(perm@[p] == old_perm[p] && perm@[q] == old_perm[q - 1]);
                    assert(goes_before(keys@, old_perm[p] as int, old_perm[q - 1] as int));
                } else if p == pos {
                    assert(perm@[q] == old_perm[q - 1]);
                } else {
                    assert(perm@[p] == old_perm[p - 1] && perm@[q] == old_perm[q - 1]);
                    assert(goes_before(keys@, old_perm[p - 1] as int, old_perm[q - 1] as int));
                }
            }
        }
        i = i + 1;
    }
    perm
}

/// A stable order lists every position of `keys`.
pub proof fn lemma_stable_order_covers(keys: Seq<(i128, i128)>, perm: Seq<usize>, x: int)
    requires
        is_stable_order(keys, perm),
        0 <= x < keys.len(),
    ensures
        exists|j: int| 0 <= j < perm.len() && perm[j] == x,
{
    let q = perm.map_values(|v: usize| v as int);
    assert(q.no_duplicates()) by {
        assert forall|i: int, j: int| 0 <= i < q.len() && 0 <= j < q.len() && i != j implies q[i] != q[j] by {
            if i < j {
                assert(goes_before(keys, perm[i] as int, perm[j] as int));
            } else {
                assert(goes_before(keys, perm[j] as int, perm[i] as int));
            }
        }
    }
    q.unique_seq_to_set();
    lemma_int_range(0, keys.len() as int);
    assert(q.to_set().subset_of(set_int_range(0, keys.len() as int))) by {
        assert forall|v: int| q.to_set().contains(v) implies set_int_range(0, keys.len() as int).contains(v) by {
            let j = choose|j: int| 0 <= j < q.len() && q[j] == v;
            assert(perm[j] < keys.len());
        }
    }
    lemma_subset_equality(q.to_set(), set_int_range(0, keys.len() as int));
    assert(set_int_range(0, keys.len() as int).contains(x));
    assert(q.to_set().contains(x));
    let j = choose|j: int| 0 <= j < q.len() && q[j] == x;
    assert(perm[j] == x);
}

/// The stable order of a key sequence is unique: a sort by these keys that
/// keeps equal keys in input order has exactly one outcome.
pub proof fn lemma_stable_order_unique(keys: Seq<(i128, i128)>, p1: Seq<usize>, p2: Seq<usize>)
    requires
        is_stable_order(keys, p1),
        is_stable_order(keys, p2),
    ensures
        p1 == p2,
{
    assert forall|k: int| 0 <= k < p1.len() implies p1[k] == p2[k] by {
        lemma_stable_order_agree(keys, p1, p2, k);
    }
    assert(p1 =~= p2);
}

proof fn lemma_stable_order_agree(keys: Seq<(i128, i128)>, p1: Seq<usize>, p2: Seq<usize>, k: int)
    requires
        is_stable_order(keys, p1),
        is_stable_order(keys, p2),
        0 <= k < p1.len(),
    ensures
        p1[k] == p2[k],
    decreases k,
{
    if p1[k] != p2[k] {
        let a = p1[k] as int;
        let b = p2[k] as int;
        assert forall|i: int| 0 <= i < k implies p1[i] == p2[i] by {
            lemma_stable_order_agree(keys, p1, p2, i);
        }
        if goes_before(keys, a, b) {
            lemma_stable_order_covers(keys, p2, a);
            let j = choose|j: int| 0 <= j < p2.len() && p2[j] == a;
            if j < k {
                assert(p1[j] == p2[j]);
                assert(goes_before(keys, p1[j] as int, p1[k] as int));
            } else {
                assert(goes_before(keys, p2[k] as int, p2[j] as int));
            }
        } else {
            lemma_stable_order_covers(keys, p1, b);
            let j = choose|j: int| 0 <= j < p1.len() && p1[j] == b;
            if j < k {
                assert(p1[j] == p2[j]);
                assert(goes_before(keys, p2[j] as int, p2[k] as int));
            } else {
                assert(goes_before(keys, p1[k] as int, p1[j] as int));
            }
        }
    }
}

} // verus!

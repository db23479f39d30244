//! Lexicographic order of texts by code point, and stable sorting by text keys.
use vstd::prelude::*;

verus! {

/// `a` comes no later than `b` in code-point lexicographic order, the order of `str`.
pub open spec fn text_le(a: Seq<char>, b: Seq<char>) -> bool
    decreases a.len(),
{
    if a.len() == 0 {
        true
    } else if b.len() == 0 {
        false
    } else if a[0] == b[0] {
        text_le(a.drop_first(), b.drop_first())
    } else {
        (a[0] as int) < (b[0] as int)
    }
}

pub proof fn lemma_text_le_total(a: Seq<char>, b: Seq<char>)
    ensures
        text_le(a, b) || text_le(b, a),
    decreases a.len(),
{
    if a.len() > 0 && b.len() > 0 && a[0] == b[0] {
        lemma_text_le_total(a.drop_first(), b.drop_first());
    }
}

pub proof fn lemma_text_le_trans(a: Seq<char>, b: Seq<char>, c: Seq<char>)
    requires
        text_le(a, b),
        text_le(b, c),
    ensures
        text_le(a, c),
    decreases a.len(),
{
    if a.len() > 0 && b.len() > 0 && c.len() > 0 && a[0] == b[0] && b[0] == c[0] {
        lemma_text_le_trans(a.drop_first(), b.drop_first(), c.drop_first());
    }
}

/// Whether `a` comes no later than `b`.
pub fn text_le_exec(a: &Vec<char>, b: &Vec<char>) -> (r: bool)
    ensures
        r == text_le(a@, b@),
{
    let mut i: usize = 0;
    proof {
        assert(a@.skip(0) =~= a@);
        assert(b@.skip(0) =~= b@);
    }
    while i < a.len() && i < b.len()
        invariant
            i <= a@.len(),
            i <= b@.len(),
            text_le(a@, b@) == text_le(a@.skip(i as int), b@.skip(i as int)),
        decreases a@.len() - i,
    {
        if a[i] != b[i] {
            proof {
                assert(a@.skip(i as int)[0] == a@[i as int]);
                assert(b@.skip(i as int)[0] == b@[i as int]);
            }
            return a[i] < b[i];
        }
        proof {
            assert(a@.skip(i as int).drop_first() =~= a@.skip(i + 1));
            assert(b@.skip(i as int).drop_first() =~= b@.skip(i + 1));
        }
        i = i + 1;
    }
    i == a.len()
}

/// `p` lists each index below `n` once.
pub open spec fn is_permutation(p: Seq<usize>, n: int) -> bool {
    &&& p.len() == n
    &&& forall|k: int| 0 <= k < n ==> p[k] < n
    &&& forall|k: int, l: int| 0 <= k < l < n ==> p[k] != p[l]
}

/// Visiting `keys` in the order `p` gives non-decreasing keys, and equal keys keep
/// the order they came in.
pub open spec fn is_stable_sort(keys: Seq<Seq<char>>, p: Seq<usize>) -> bool {
    &&& is_permutation(p, keys.len() as int)
    &&& forall|k: int, l: int|
        #![trigger p[k], p[l]]
        0 <= k < l < p.len() ==> text_le(keys[p[k] as int], keys[p[l] as int])
    &&& forall|k: int, l: int|
        #![trigger p[k], p[l]]
        0 <= k < l < p.len() && text_le(keys[p[l] as int], keys[p[k] as int]) ==> p[k] < p[l]
}

/// `out` is `items` reordered by `p`.
pub open spec fn permuted<T>(items: Seq<T>, p: Seq<usize>, out: Seq<T>) -> bool {
    &&& out.len() == p.len()
    &&& forall|k: int| 0 <= k < out.len() ==> #[trigger] out[k] == items[p[k] as int]
}

/// `out` is `items` sorted by `keys`, stably.
pub open spec fn sorted_by_keys<T>(items: Seq<T>, keys: Seq<Seq<char>>, out: Seq<T>) -> bool {
    exists|p: Seq<usize>| is_stable_sort(keys, p) && #[trigger] permuted(items, p, out)
}

/// The order that sorts `keys` stably.
pub fn stable_order(keys: &Vec<Vec<char>>) -> (p: Vec<usize>)
    ensures
        is_stable_sort(keys@.map_values(|k: Vec<char>| k@), p@),
{
    let ghost ks = keys@.map_values(|k: Vec<char>| k@);
    let mut p: Vec<usize> = Vec::new();
    let mut i: usize = 0;
    while i < keys.len()
        invariant
            ks == keys@.map_values(|k: Vec<char>| k@),
            i <= keys@.len(),
            p@.len() == i,
            forall|k: int| 0 <= k < i ==> p@[k] < i,
            forall|k: int, l: int| 0 <= k < l < i ==> p@[k] != p@[l],
            forall|k: int, l: int|
                #![trigger p@[k], p@[l]]
                0 <= k < l < i ==> text_le(ks[p@[k] as int], ks[p@[l] as int]),
            forall|k: int, l: int|
                #![trigger p@[k], p@[l]]
                0 <= k < l < i && text_le(ks[p@[l] as int], ks[p@[k] as int]) ==> p@[k] < p@[l],
        decreases keys@.len() - i,
    {
        let mut j: usize = p.len();
        while j > 0 && !text_le_exec(&keys[p[j - 1]], &keys[i])
            invariant
                ks == keys@.map_values(|k: Vec<char>| k@),
                i < keys@.len(),
                j <= p@.len(),
                p@.len() == i,
                forall|k: int| 0 <= k < i ==> p@[k] < i,
                forall|k: int| j <= k < i ==> !text_le(ks[p@[k] as int], ks[i as int]),
            decreases j,
        {
            j = j - 1;
        }
        let ghost old_p = p@;
        proof {
            assert forall|k: int| j <= k < i implies text_le(ks[i as int], ks[old_p[k] as int]) by {
                lemma_text_le_total(ks[i as int], ks[old_p[k] as int]);
            }
            if j > 0 {
                assert forall|k: int| 0 <= k < j implies text_le(ks[old_p[k] as int], ks[i as int]) by {
                    if k < j - 1 {
                        lemma_text_le_trans(
                            ks[old_p[k] as int],
                            ks[old_p[j - 1] as int],
                            ks[i as int],
                        );
                    }
                }
            }
        }
        p.insert(j, i);
        proof {
            let np = p@;
            assert(np == old_p.insert(j as int, i));
            assert forall|k: int| 0 <= k < i + 1 implies np[k] < i + 1 by {
                if k < j {
                    assert(np[k] == old_p[k]);
                } else if k > j {
                    assert(np[k] == old_p[k - 1]);
                }
            }
            assert forall|k: int, l: int| 0 <= k < l < i + 1 implies np[k] != np[l] by {
                if k < j && l < j {
                } else if k < j && l == j {
                } else if k < j {
                    assert(np[l] == old_p[l - 1]);
                } else if k == j {
                    assert(np[l] == old_p[l - 1]);
                } else {
                    assert(np[k] == old_p[k - 1]);
                    assert(np[l] == old_p[l - 1]);
                }
            }
            assert forall|k: int, l: int|
                #![trigger np[k], np[l]]
                0 <= k < l < i + 1 implies text_le(ks[np[k] as int], ks[np[l] as int]) by {
                if l < j {
                    assert(np[k] == old_p[k] && np[l] == old_p[l]);
                } else if l == j {
                    assert(np[k] == old_p[k]);
                } else if k < j {
                    assert(np[k] == old_p[k] && np[l] == old_p[l - 1]);
                    lemma_text_le_trans(ks[old_p[k] as int], ks[i as int], ks[old_p[l - 1] as int]);
                } else if k == j {
                    assert(np[l] == old_p[l - 1]);
                } else {
                    assert(np[k] == old_p[k - 1] && np[l] == old_p[l - 1]);
                    assert(text_le(ks[old_p[k - 1] as int], ks[old_p[l - 1] as int]));
                }
            }
            assert forall|k: int, l: int|
                #![trigger np[k], np[l]]
                0 <= k < l < i + 1 && text_le(ks[np[l] as int], ks[np[k] as int]) implies np[k]
                < np[l] by {
                if l < j {
                    assert(np[k] == old_p[k] && np[l] == old_p[l]);
                } else if l == j {
                    assert(np[k] == old_p[k]);
                } else if k < j {
                    assert(np[k] == old_p[k] && np[l] == old_p[l - 1]);
                    assert(text_le(ks[old_p[k] as int], ks[old_p[l - 1] as int]));
                } else if k == j {
                    assert(np[l] == old_p[l - 1]);
                    assert(!text_le(ks[old_p[l - 1] as int], ks[i as int]));
                } else {
                    assert(np[k] == old_p[k - 1] && np[l] == old_p[l - 1]);
                    assert(text_le(ks[old_p[l - 1] as int], ks[old_p[k - 1] as int])
                        ==> old_p[k - 1] < old_p[l - 1]);
                }
            }
        }
        i = i + 1;
    }
    p
}

/// Index `i` occurs in `p`.
pub open spec fn listed(p: Seq<usize>, i: int) -> bool {
    exists|k: int| 0 <= k < p.len() && p[k] as int == i
}

/// A permutation of `0..n` lists every index below `n`.
pub proof fn lemma_permutation_onto(p: Seq<usize>, n: int)
    requires
        is_permutation(p, n),
    ensures
        forall|i: int| 0 <= i < n ==> #[trigger] listed(p, i),
{
    let q = p.map_values(|x: usize| x as int);
    assert(q.no_duplicates()) by {
        assert forall|a: int, b: int| 0 <= a < q.len() && 0 <= b < q.len() && a != b implies q[a] != q[b] by {
            if a < b {
                assert(p[a] != p[b]);
            } else {
                assert(p[b] != p[a]);
            }
        }
    }
    q.unique_seq_to_set();
    let r = vstd::set_lib::set_int_range(0, n);
    vstd::set_lib::lemma_int_range(0, n);
    assert(q.to_set().subset_of(r)) by {
        assert forall|x: int| q.to_set().contains(x) implies r.contains(x) by {
            let k = choose|k: int| 0 <= k < q.len() && q[k] == x;
            assert(p[k] < n);
        }
    }
    vstd::set_lib::lemma_len_subset(q.to_set(), r);
    vstd::set_lib::lemma_subset_equality(q.to_set(), r);
    assert forall|i: int| 0 <= i < n implies #[trigger] listed(p, i) by {
        assert(r.contains(i));
        assert(q.to_set().contains(i));
        let k = choose|k: int| 0 <= k < q.len() && q[k] == i;
        assert(p[k] as int == i);
    }
}

proof fn lemma_permuted_reorder<T>(items: Seq<T>, p: Seq<usize>, out: Seq<T>)
    requires
        is_permutation(p, items.len() as int),
        permuted(items, p, out),
    ensures
        out.len() == items.len(),
        forall|k: int| 0 <= k < out.len() ==> items.contains(#[trigger] out[k]),
        forall|i: int| 0 <= i < items.len() ==> out.contains(#[trigger] items[i]),
        (forall|i: int, j: int| 0 <= i < j < items.len() ==> items[i] != items[j]) ==> (forall|
            a: int,
            b: int,
        | 0 <= a < b < out.len() ==> out[a] != out[b]),
{
    let n = items.len() as int;
    lemma_permutation_onto(p, n);
    assert forall|k: int| 0 <= k < out.len() implies items.contains(#[trigger] out[k]) by {
        assert(out[k] == items[p[k] as int]);
    }
    assert forall|i: int| 0 <= i < items.len() implies out.contains(#[trigger] items[i]) by {
        assert(listed(p, i));
        let k = choose|k: int| 0 <= k < p.len() && p[k] as int == i;
        assert(out[k] == items[p[k] as int]);
    }
    if forall|i: int, j: int| 0 <= i < j < items.len() ==> items[i] != items[j] {
        assert forall|a: int, b: int| 0 <= a < b < out.len() implies out[a] != out[b] by {
            assert(out[a] == items[p[a] as int]);
            assert(out[b] == items[p[b] as int]);
            assert(p[a] != p[b]);
            if p[a] < p[b] {
                assert(items[p[a] as int] != items[p[b] as int]);
            } else {
                assert(items[p[b] as int] != items[p[a] as int]);
            }
        }
    }
}

/// Sorting by keys reorders the items: the result has the same length, holds only items
/// and every item, and keeps distinct items distinct.
pub proof fn law_sorted_is_reordering<T>(items: Seq<T>, keys: Seq<Seq<char>>, out: Seq<T>)
    requires
        sorted_by_keys(items, keys, out),
        keys.len() == items.len(),
    ensures
        out.len() == items.len(),
        forall|k: int| 0 <= k < out.len() ==> items.contains(#[trigger] out[k]),
        forall|i: int| 0 <= i < items.len() ==> out.contains(#[trigger] items[i]),
        (forall|i: int, j: int| 0 <= i < j < items.len() ==> items[i] != items[j]) ==> (forall|
            a: int,
            b: int,
        | 0 <= a < b < out.len() ==> out[a] != out[b]),
{
    let p = choose|p: Seq<usize>| is_stable_sort(keys, p) && #[trigger] permuted(items, p, out);
    assert(is_permutation(p, items.len() as int));
    lemma_permuted_reorder(items, p, out);
}

} // verus!

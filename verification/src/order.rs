//! A strict lexicographic order on integer keys, and a stable sort of
//! positions by such keys.

use vstd::prelude::*;

verus! {

/// Strict lexicographic order: `a` comes before `b` when at the first place
/// where they differ `a` holds the smaller number, or when `a` is a proper
/// prefix of `b`.
pub open spec fn lex_lt(a: Seq<i128>, b: Seq<i128>) -> bool
    decreases a.len(),
{
    if a.len() == 0 {
        b.len() > 0
    } else if b.len() == 0 {
        false
    } else if a[0] < b[0] {
        true
    } else if a[0] > b[0] {
        false
    } else {
        lex_lt(a.drop_first(), b.drop_first())
    }
}

/// No key comes before itself, and of two keys at most one comes first.
pub proof fn lemma_lex_asymmetric(a: Seq<i128>, b: Seq<i128>)
    ensures
        !(lex_lt(a, b) && lex_lt(b, a)),
        !lex_lt(a, a),
    decreases a.len(),
{
    if a.len() > 0 && b.len() > 0 && a[0] == b[0] {
        lemma_lex_asymmetric(a.drop_first(), b.drop_first());
    }
    if a.len() > 0 {
        lemma_lex_asymmetric(a.drop_first(), a.drop_first());
    }
}

/// Of two different keys, one comes first.
pub proof fn lemma_lex_total(a: Seq<i128>, b: Seq<i128>)
    ensures
        a != b ==> lex_lt(a, b) || lex_lt(b, a),
    decreases a.len(),
{
    if a.len() > 0 && b.len() > 0 && a[0] == b[0] {
        lemma_lex_total(a.drop_first(), b.drop_first());
        if a.drop_first() == b.drop_first() {
            assert(a =~= seq![a[0]] + a.drop_first());
            assert(b =~= seq![b[0]] + b.drop_first());
        }
    }
    if a.len() == 0 && b.len() == 0 {
        assert(a =~= b);
    }
}

/// The order is transitive.
pub proof fn lemma_lex_transitive(a: Seq<i128>, b: Seq<i128>, c: Seq<i128>)
    requires
        lex_lt(a, b),
        lex_lt(b, c),
    ensures
        lex_lt(a, c),
    decreases a.len(),
{
    if a.len() > 0 && b.len() > 0 && c.len() > 0 && a[0] == b[0] && b[0] == c[0] {
        lemma_lex_transitive(a.drop_first(), b.drop_first(), c.drop_first());
    }
}

/// Position `p` comes before position `q`: its key comes first, or the keys
/// are equal and `p` is the earlier position.
pub open spec fn entry_lt(keys: Seq<Seq<i128>>, p: int, q: int) -> bool {
    lex_lt(keys[p], keys[q]) || (keys[p] == keys[q] && p < q)
}

/// The keys held by `keys`, as sequences.
pub open spec fn keys_view(keys: Seq<Vec<i128>>) -> Seq<Seq<i128>> {
    keys.map_values(|k: Vec<i128>| k@)
}

/// `order` lists each position below `n` once, each before the next by
/// [`entry_lt`].
pub open spec fn sorted_positions(keys: Seq<Seq<i128>>, order: Seq<usize>, n: int) -> bool {
    &&& order.len() == n
    &&& forall|k: int| 0 <= k < order.len() ==> #[trigger] order[k] < n
    &&& forall|p: usize| p < n ==> #[trigger] order.contains(p)
    &&& forall|k: int, l: int|
        0 <= k < l < order.len() ==> entry_lt(keys, #[trigger] order[k] as int, #[trigger] order[l] as int)
}

proof fn lemma_entry_transitive(keys: Seq<Seq<i128>>, p: int, q: int, r: int)
    requires
        entry_lt(keys, p, q),
        entry_lt(keys, q, r),
    ensures
        entry_lt(keys, p, r),
{
    if lex_lt(keys[p], keys[q]) && lex_lt(keys[q], keys[r]) {
        lemma_lex_transitive(keys[p], keys[q], keys[r]);
    }
}

proof fn lemma_entry_total(keys: Seq<Seq<i128>>, p: int, q: int)
    requires
        p != q,
    ensures
        entry_lt(keys, p, q) || entry_lt(keys, q, p),
        !(entry_lt(keys, p, q) && entry_lt(keys, q, p)),
{
    lemma_lex_total(keys[p], keys[q]);
    lemma_lex_asymmetric(keys[p], keys[q]);
    lemma_lex_asymmetric(keys[q], keys[q]);
}

/// Whether `a` comes before `b`.
pub fn lex_less(a: &Vec<i128>, b: &Vec<i128>) -> (r: bool)
    ensures
        r == lex_lt(a@, b@),
{
    let n = a.len();
    let m = b.len();
    let mut i: usize = 0;
    assert(a@.skip(0) =~= a@);
    assert(b@.skip(0) =~= b@);
    while i < n && i < m
        invariant
            n == a@.len(),
            m == b@.len(),
            i <= n,
            i <= m,
            lex_lt(a@, b@) == lex_lt(a@.skip(i as int), b@.skip(i as int)),
        decreases n - i,
    {
        let x = a[i];
        let y = b[i];
        proof {
            assert(a@.skip(i as int)[0] == x);
            assert(b@.skip(i as int)[0] == y);
            assert(a@.skip(i as int).drop_first() =~= a@.skip(i + 1));
            assert(b@.skip(i as int).drop_first() =~= b@.skip(i + 1));
        }
        if x < y {
            return true;
        }
        if x > y {
            return false;
        }
        i = i + 1;
    }
    i == n && i < m
}

/// Whether position `p` comes before position `q` by [`entry_lt`].
fn entry_less(keys: &Vec<Vec<i128>>, p: usize, q: usize) -> (r: bool)
    requires
        p < keys@.len(),
        q < keys@.len(),
    ensures
        r == entry_lt(keys_view(keys@), p as int, q as int),
{
    let ghost kv = keys_view(keys@);
    assert(kv[p as int] == keys@[p as int]@);
    assert(kv[q as int] == keys@[q as int]@);
    if lex_less(&keys[p], &keys[q]) {
        return true;
    }
    proof {
        lemma_lex_total(kv[p as int], kv[q as int]);
    }
    !lex_less(&keys[q], &keys[p]) && p < q
}

/// The positions `0..keys.len()`, ordered by key and, for equal keys, by
/// position: a stable sort.
pub fn sort_positions(keys: &Vec<Vec<i128>>) -> (order: Vec<usize>)
    ensures
        sorted_positions(keys_view(keys@), order@, keys@.len() as int),
{
    let n = keys.len();
    let ghost kv = keys_view(keys@);
    let mut order: Vec<usize> = Vec::new();
    for p in 0..n
        invariant
            n == keys@.len(),
            kv == keys_view(keys@),
            sorted_positions(kv, order@, p as int),
    {
        let mut lo: usize = 0;
        let mut hi: usize = order.len();
        while lo < hi
            invariant
                n == keys@.len(),
                kv == keys_view(keys@),
                p < n,
                sorted_positions(kv, order@, p as int),
                lo <= hi <= order@.len(),
                forall|k: int| 0 <= k < lo ==> entry_lt(kv, #[trigger] order@[k] as int, p as int),
                forall|k: int| hi <= k < order@.len() ==> entry_lt(kv, p as int, #[trigger] order@[k] as int),
            decreases hi - lo,
        {
            let mid = lo + (hi - lo) / 2;
            let q = order[mid];
            if entry_less(keys, q, p) {
                proof {
                    assert forall|k: int| 0 <= k < mid + 1 implies entry_lt(kv, #[trigger] order@[k] as int, p as int) by {
                        if k < mid {
                            lemma_entry_transitive(kv, order@[k] as int, q as int, p as int);
                        }
                    }
                }
                lo = mid + 1;
            } else {
                proof {
                    lemma_entry_total(kv, q as int, p as int);
                    assert forall|k: int| mid <= k < order@.len() implies entry_lt(kv, p as int, #[trigger] order@[k] as int) by {
                        if k > mid {
                            lemma_entry_transitive(kv, p as int, q as int, order@[k] as int);
                        }
                    }
                }
                hi = mid;
            }
        }
        let ghost old_order = order@;
        order.insert(lo, p);
        proof {
            assert(order@ == old_order.insert(lo as int, p));
            assert forall|k: int| 0 <= k < order@.len() implies #[trigger] order@[k] < p + 1 by {
                if k < lo {
                    assert(order@[k] == old_order[k]);
                } else if k > lo {
                    assert(order@[k] == old_order[k - 1]);
                }
            }
            assert forall|x: usize| x < p + 1 implies #[trigger] order@.contains(x) by {
                if x == p {
                    assert(order@[lo as int] == p);
                } else {
                    assert(old_order.contains(x));
                    let k = choose|k: int| 0 <= k < old_order.len() && old_order[k] == x;
                    if k < lo {
                        assert(order@[k] == x);
                    } else {
                        assert(order@[k + 1] == x);
                    }
                }
            }
            assert forall|k: int, l: int| 0 <= k < l < order@.len() implies entry_lt(kv, #[trigger] order@[k] as int, #[trigger] order@[l] as int) by {
                if l < lo {
                    assert(order@[k] == old_order[k] && order@[l] == old_order[l]);
                } else if l == lo {
                    assert(order@[k] == old_order[k]);
                } else if k > lo {
                    assert(order@[k] == old_order[k - 1] && order@[l] == old_order[l - 1]);
                } else if k == lo {
                    assert(order@[l] == old_order[l - 1]);
                } else {
                    assert(order@[k] == old_order[k] && order@[l] == old_order[l - 1]);
                }
            }
        }
    }
    order
}

} // verus!

//! Ordering rows by a sort key: the first `limit` rows in descending key
//! order, as an `ORDER BY ... DESC LIMIT` query returns them.
use vstd::prelude::*;

verus! {

/// A sort key: four integers compared lexicographically.
pub type Key = (i128, i128, i128, i128);

/// `a` sorts strictly before `b` in descending order (`a > b` lexicographically).
pub open spec fn key_gt(a: Key, b: Key) -> bool {
    ||| a.0 > b.0
    ||| (a.0 == b.0 && a.1 > b.1)
    ||| (a.0 == b.0 && a.1 == b.1 && a.2 > b.2)
    ||| (a.0 == b.0 && a.1 == b.1 && a.2 == b.2 && a.3 > b.3)
}

/// No two rows share a key.
pub open spec fn distinct_keys(keys: Seq<Key>) -> bool {
    forall|i: int, j: int|
        0 <= i < keys.len() && 0 <= j < keys.len() && i != j ==> #[trigger] keys[i] != #[trigger] keys[j]
}

pub open spec fn min_nat(a: nat, b: nat) -> nat {
    if a <= b { a } else { b }
}

/// `idx` lists, in descending key order, the `limit` rows with the largest
/// keys (all rows when there are fewer): its length is `min(limit, n)`, its
/// entries are row numbers in strictly descending key order, and every row
/// that it leaves out has a smaller key than every row that it lists.
pub open spec fn is_top(keys: Seq<Key>, limit: nat, idx: Seq<usize>) -> bool {
    &&& idx.len() == min_nat(limit, keys.len())
    &&& forall|i: int| 0 <= i < idx.len() ==> #[trigger] idx[i] < keys.len()
    &&& forall|i: int, j: int|
        0 <= i < j < idx.len() ==> key_gt(keys[#[trigger] idx[i] as int], keys[#[trigger] idx[j] as int])
    &&& forall|j: usize, i: int|
        j < keys.len() && !idx.contains(j) && 0 <= i < idx.len() ==> key_gt(
            keys[#[trigger] idx[i] as int],
            #[trigger] keys[j as int],
        )
}

/// The row numbers of the first `limit` rows in descending key order.
pub open spec fn top(keys: Seq<Key>, limit: nat) -> Seq<usize> {
    choose|idx: Seq<usize>| is_top(keys, limit, idx)
}

proof fn lemma_top_agree_upto(keys: Seq<Key>, limit: nat, a: Seq<usize>, b: Seq<usize>, p: int)
    requires
        is_top(keys, limit, a),
        is_top(keys, limit, b),
        0 <= p <= a.len(),
    ensures
        forall|q: int| 0 <= q < p ==> a[q] == b[q],
    decreases p,
{
    if p > 0 {
        let p1 = p - 1;
        lemma_top_agree_upto(keys, limit, a, b, p1);
        if a[p1] != b[p1] {
            // b[p1] sorts before a[p1]
            if b.contains(a[p1]) {
                let r = choose|r: int| 0 <= r < b.len() && b[r] == a[p1];
                if r < p1 {
                    assert(a[r] == b[r]);
                    assert(key_gt(keys[a[r] as int], keys[a[p1] as int]));
                } else {
                    assert(r != p1);
                    assert(key_gt(keys[b[p1] as int], keys[b[r] as int]));
                }
            } else {
                assert(key_gt(keys[b[p1] as int], keys[a[p1] as int]));
            }
            assert(key_gt(keys[b[p1] as int], keys[a[p1] as int]));
            // a[p1] sorts before b[p1]
            if a.contains(b[p1]) {
                let r = choose|r: int| 0 <= r < a.len() && a[r] == b[p1];
                if r < p1 {
                    assert(a[r] == b[r]);
                    assert(key_gt(keys[b[r] as int], keys[b[p1] as int]));
                } else {
                    assert(r != p1);
                    assert(key_gt(keys[a[p1] as int], keys[a[r] as int]));
                }
            } else {
                assert(key_gt(keys[a[p1] as int], keys[b[p1] as int]));
            }
            assert(false);
        }
    }
}

/// At most one sequence satisfies `is_top`.
pub proof fn lemma_top_unique(keys: Seq<Key>, limit: nat, a: Seq<usize>, b: Seq<usize>)
    requires
        is_top(keys, limit, a),
        is_top(keys, limit, b),
    ensures
        a == b,
{
    lemma_top_agree_upto(keys, limit, a, b, a.len() as int);
    assert(a =~= b);
}

/// Among the rows listed in `rem`, a position whose key no other exceeds.
proof fn lemma_argmax(keys: Seq<Key>, rem: Seq<usize>) -> (b: int)
    requires
        rem.len() > 0,
    ensures
        0 <= b < rem.len(),
        forall|t: int| 0 <= t < rem.len() ==> !key_gt(keys[#[trigger] rem[t] as int], keys[rem[b] as int]),
    decreases rem.len(),
{
    if rem.len() == 1 {
        0
    } else {
        let b0 = lemma_argmax(keys, rem.drop_last());
        assert forall|t: int| 0 <= t < rem.len() - 1 implies !key_gt(keys[#[trigger] rem[t] as int], keys[rem[b0] as int]) by {
            assert(rem.drop_last()[t] == rem[t]);
        }
        let last = rem.len() - 1;
        if key_gt(keys[rem[last] as int], keys[rem[b0] as int]) {
            assert forall|t: int| 0 <= t < rem.len() implies !key_gt(keys[#[trigger] rem[t] as int], keys[rem[last] as int]) by {
                if t < last {
                    assert(!key_gt(keys[rem[t] as int], keys[rem[b0] as int]));
                }
            }
            last
        } else {
            b0
        }
    }
}

/// The selection that `top_indices` performs, carried out in proof: from a
/// state where `res` holds the rows chosen so far and `rem` the others, it
/// reaches a sequence satisfying `is_top`.
proof fn lemma_select(keys: Seq<Key>, limit: nat, res: Seq<usize>, rem: Seq<usize>) -> (out: Seq<usize>)
    requires
        distinct_keys(keys),
        res.len() + rem.len() == keys.len(),
        res.len() <= limit,
        forall|k: int| 0 <= k < rem.len() ==> #[trigger] rem[k] < keys.len(),
        forall|a: int, b: int| 0 <= a < rem.len() && 0 <= b < rem.len() && a != b ==> #[trigger] rem[a] != #[trigger] rem[b],
        forall|k: int| 0 <= k < res.len() ==> #[trigger] res[k] < keys.len(),
        forall|a: int, b: int| 0 <= a < b < res.len() ==> key_gt(keys[#[trigger] res[a] as int], keys[#[trigger] res[b] as int]),
        forall|k: int, a: int|
            0 <= k < rem.len() && 0 <= a < res.len() ==> key_gt(keys[#[trigger] res[a] as int], keys[#[trigger] rem[k] as int]),
        forall|j: usize| j < keys.len() ==> #[trigger] res.contains(j) || rem.contains(j),
    ensures
        is_top(keys, limit, out),
    decreases rem.len(),
{
    if res.len() < limit && rem.len() > 0 {
        let best = lemma_argmax(keys, rem);
        let m = rem[best];
        let res2 = res.push(m);
        let rem2 = rem.remove(best);
        assert forall|t: int| 0 <= t < rem2.len() implies key_gt(keys[m as int], keys[#[trigger] rem2[t] as int]) by {
            let t0 = if t < best { t } else { t + 1 };
            assert(rem2[t] == rem[t0]);
            assert(rem[t0] != rem[best]);
            assert(keys[rem[t0] as int] != keys[m as int]);
            assert(!key_gt(keys[rem[t0] as int], keys[m as int]));
        }
        assert forall|a: int, b: int|
            0 <= a < b < res2.len() implies key_gt(keys[#[trigger] res2[a] as int], keys[#[trigger] res2[b] as int]) by {
            assert(res2[a] == res[a]);
            if b < res.len() {
                assert(res2[b] == res[b]);
            }
        }
        assert forall|t: int, a: int|
            0 <= t < rem2.len() && 0 <= a < res2.len() implies key_gt(keys[#[trigger] res2[a] as int], keys[#[trigger] rem2[t] as int]) by {
            let t0 = if t < best { t } else { t + 1 };
            assert(rem2[t] == rem[t0]);
            if a < res.len() {
                assert(res2[a] == res[a]);
            }
        }
        assert forall|a: int, b: int|
            0 <= a < rem2.len() && 0 <= b < rem2.len() && a != b implies #[trigger] rem2[a] != #[trigger] rem2[b] by {
            let a0 = if a < best { a } else { a + 1 };
            let b0 = if b < best { b } else { b + 1 };
            assert(rem2[a] == rem[a0]);
            assert(rem2[b] == rem[b0]);
        }
        assert forall|t: int| 0 <= t < rem2.len() implies #[trigger] rem2[t] < keys.len() by {
            let t0 = if t < best { t } else { t + 1 };
            assert(rem2[t] == rem[t0]);
        }
        assert forall|k: int| 0 <= k < res2.len() implies #[trigger] res2[k] < keys.len() by {
            if k < res.len() {
                assert(res2[k] == res[k]);
            }
        }
        assert forall|j: usize| j < keys.len() implies #[trigger] res2.contains(j) || rem2.contains(j) by {
            if res.contains(j) {
                let a = choose|a: int| 0 <= a < res.len() && res[a] == j;
                assert(res2[a] == j);
            } else {
                assert(rem.contains(j));
                let t0 = choose|t0: int| 0 <= t0 < rem.len() && rem[t0] == j;
                if t0 == best {
                    assert(res2[res2.len() - 1] == j);
                } else {
                    let t = if t0 < best { t0 } else { t0 - 1 };
                    assert(rem2[t] == j);
                }
            }
        }
        lemma_select(keys, limit, res2, rem2)
    } else {
        assert forall|j: usize, a: int|
            j < keys.len() && !res.contains(j) && 0 <= a < res.len() implies key_gt(
                keys[#[trigger] res[a] as int],
                #[trigger] keys[j as int],
            ) by {
            assert(rem.contains(j));
            let t = choose|t: int| 0 <= t < rem.len() && rem[t] == j;
            assert(key_gt(keys[res[a] as int], keys[rem[t] as int]));
        }
        res
    }
}

/// With distinct keys, `top` lists the first `limit` rows in descending
/// key order: some sequence satisfies `is_top`, and `top` is that one.
pub proof fn lemma_top_is_top(keys: Seq<Key>, limit: nat)
    requires
        distinct_keys(keys),
        keys.len() <= usize::MAX,
    ensures
        is_top(keys, limit, top(keys, limit)),
{
    let all = Seq::new(keys.len(), |k: int| k as usize);
    assert forall|j: usize| j < keys.len() implies #[trigger] Seq::<usize>::empty().contains(j) || all.contains(j) by {
        assert(all[j as int] == j);
    }
    assert forall|a: int, b: int| 0 <= a < all.len() && 0 <= b < all.len() && a != b implies #[trigger] all[a] != #[trigger] all[b] by {
        assert(all[a] == a as usize);
        assert(all[b] == b as usize);
    }
    let out = lemma_select(keys, limit, Seq::empty(), all);
    assert(is_top(keys, limit, out));
}

/// Listings at two limits agree on what they both show: the shorter is a
/// prefix of the longer.
pub proof fn lemma_top_prefix(keys: Seq<Key>, a: nat, b: nat)
    requires
        distinct_keys(keys),
        keys.len() <= usize::MAX,
        a <= b,
    ensures
        top(keys, a) == top(keys, b).take(top(keys, a).len() as int),
        top(keys, a).len() == min_nat(a, keys.len()),
{
    lemma_top_is_top(keys, a);
    lemma_top_is_top(keys, b);
    let tb = top(keys, b);
    let p = tb.take(min_nat(a, keys.len()) as int);
    assert forall|j: usize, i: int|
        j < keys.len() && !p.contains(j) && 0 <= i < p.len() implies key_gt(
            keys[#[trigger] p[i] as int],
            #[trigger] keys[j as int],
        ) by {
        assert(p[i] == tb[i]);
        if tb.contains(j) {
            let r = choose|r: int| 0 <= r < tb.len() && tb[r] == j;
            if r < p.len() {
                assert(p[r] == j);
                assert(false);
            }
            assert(key_gt(keys[tb[i] as int], keys[tb[r] as int]));
        }
    }
    assert forall|x: int, y: int| 0 <= x < y < p.len() implies key_gt(keys[#[trigger] p[x] as int], keys[#[trigger] p[y] as int]) by {
        assert(p[x] == tb[x]);
        assert(p[y] == tb[y]);
    }
    assert(is_top(keys, a, p));
    lemma_top_unique(keys, a, p, top(keys, a));
}

/// A listing whose limit reaches the number of rows shows every row.
pub proof fn lemma_top_covers(keys: Seq<Key>, limit: nat)
    requires
        distinct_keys(keys),
        keys.len() <= usize::MAX,
        limit >= keys.len(),
    ensures
        top(keys, limit).len() == keys.len(),
        forall|j: usize| j < keys.len() ==> #[trigger] top(keys, limit).contains(j),
{
    lemma_top_is_top(keys, limit);
    let t = top(keys, limit);
    let n = keys.len() as int;
    let ti = t.map_values(|x: usize| x as int);
    assert forall|a: int, b: int| 0 <= a < ti.len() && 0 <= b < ti.len() && a != b implies ti[a] != ti[b] by {
        if a < b {
            assert(key_gt(keys[t[a] as int], keys[t[b] as int]));
        } else {
            assert(key_gt(keys[t[b] as int], keys[t[a] as int]));
        }
    }
    assert(ti.no_duplicates());
    ti.unique_seq_to_set();
    assert forall|j: usize| j < keys.len() implies #[trigger] t.contains(j) by {
        if !t.contains(j) {
            let r = vstd::set_lib::set_int_range(0, n).remove(j as int);
            vstd::set_lib::lemma_int_range(0, n);
            assert(vstd::set_lib::set_int_range(0, n).contains(j as int));
            assert(r.len() == n - 1);
            assert forall|x: int| ti.to_set().contains(x) implies r.contains(x) by {
                let k = choose|k: int| 0 <= k < ti.len() && ti[k] == x;
                assert(t[k] < keys.len());
                if x == j as int {
                    assert(t[k] == j);
                    assert(t.contains(j));
                }
            }
            assert(ti.to_set().subset_of(r));
            vstd::set_lib::lemma_len_subset(ti.to_set(), r);
            assert(false);
        }
    }
}

/// Executable form of `key_gt`.
pub fn key_greater(a: &Key, b: &Key) -> (r: bool)
    ensures
        r == key_gt(*a, *b),
{
    if a.0 != b.0 {
        a.0 > b.0
    } else if a.1 != b.1 {
        a.1 > b.1
    } else if a.2 != b.2 {
        a.2 > b.2
    } else {
        a.3 > b.3
    }
}

/// Row numbers of the first `limit` rows in descending key order.
pub fn top_indices(keys: &Vec<Key>, limit: usize) -> (res: Vec<usize>)
    requires
        distinct_keys(keys@),
    ensures
        is_top(keys@, limit as nat, res@),
        res@ == top(keys@, limit as nat),
{
    let n = keys.len();
    let mut rem: Vec<usize> = Vec::new();
    let mut i: usize = 0;
    while i < n
        invariant
            i <= n,
            n == keys.len(),
            rem.len() == i,
            forall|k: int| 0 <= k < i ==> #[trigger] rem@[k] == k,
        decreases n - i,
    {
        rem.push(i);
        i = i + 1;
    }
    let mut res: Vec<usize> = Vec::new();
    assert forall|j: usize| j < n implies #[trigger] res@.contains(j) || rem@.contains(j) by {
        assert(rem@[j as int] == j);
    }
    while res.len() < limit && rem.len() > 0
        invariant
            n == keys.len(),
            distinct_keys(keys@),
            res.len() + rem.len() == n,
            res.len() <= limit,
            forall|k: int| 0 <= k < rem.len() ==> #[trigger] rem@[k] < n,
            forall|a: int, b: int|
                0 <= a < rem.len() && 0 <= b < rem.len() && a != b ==> #[trigger] rem@[a] != #[trigger] rem@[b],
            forall|k: int| 0 <= k < res.len() ==> #[trigger] res@[k] < n,
            forall|a: int, b: int|
                0 <= a < b < res.len() ==> key_gt(keys@[#[trigger] res@[a] as int], keys@[#[trigger] res@[b] as int]),
            forall|k: int, a: int|
                0 <= k < rem.len() && 0 <= a < res.len() ==> key_gt(
                    keys@[#[trigger] res@[a] as int],
                    keys@[#[trigger] rem@[k] as int],
                ),
            forall|j: usize| j < n ==> #[trigger] res@.contains(j) || rem@.contains(j),
        decreases rem.len(),
    {
        let mut best: usize = 0;
        let mut k: usize = 1;
        while k < rem.len()
            invariant
                n == keys.len(),
                1 <= k <= rem.len(),
                best < rem.len(),
                forall|t: int| 0 <= t < rem.len() ==> #[trigger] rem@[t] < n,
                forall|t: int|
                    0 <= t < k ==> !key_gt(keys@[#[trigger] rem@[t] as int], keys@[rem@[best as int] as int]),
            decreases rem.len() - k,
        {
            if key_greater(&keys[rem[k]], &keys[rem[best]]) {
                best = k;
            }
            k = k + 1;
        }
        let ghost old_rem = rem@;
        let ghost old_res = res@;
        let m = rem.remove(best);
        res.push(m);
        proof {
            assert(m == old_rem[best as int]);
            // every remaining key is below the chosen one
            assert forall|t: int| 0 <= t < rem.len() implies key_gt(keys@[m as int], keys@[#[trigger] rem@[t] as int]) by {
                let t0 = if t < best { t } else { t + 1 };
                assert(rem@[t] == old_rem[t0]);
                assert(t0 != best);
                assert(old_rem[t0] != old_rem[best as int]);
                assert(keys@[old_rem[t0] as int] != keys@[m as int]);
                assert(!key_gt(keys@[old_rem[t0] as int], keys@[m as int]));
            }
            assert forall|a: int, b: int|
                0 <= a < b < res.len() implies key_gt(keys@[#[trigger] res@[a] as int], keys@[#[trigger] res@[b] as int]) by {
                if b < res.len() - 1 {
                    assert(res@[a] == old_res[a]);
                    assert(res@[b] == old_res[b]);
                } else {
                    assert(res@[a] == old_res[a]);
                    assert(old_rem[best as int] == m);
                }
            }
            assert forall|t: int, a: int|
                0 <= t < rem.len() && 0 <= a < res.len() implies key_gt(
                    keys@[#[trigger] res@[a] as int],
                    keys@[#[trigger] rem@[t] as int],
                ) by {
                let t0 = if t < best { t } else { t + 1 };
                assert(rem@[t] == old_rem[t0]);
                if a < res.len() - 1 {
                    assert(res@[a] == old_res[a]);
                }
            }
            assert forall|a: int, b: int|
                0 <= a < rem.len() && 0 <= b < rem.len() && a != b implies #[trigger] rem@[a] != #[trigger] rem@[b] by {
                let a0 = if a < best { a } else { a + 1 };
                let b0 = if b < best { b } else { b + 1 };
                assert(rem@[a] == old_rem[a0]);
                assert(rem@[b] == old_rem[b0]);
            }
            assert forall|t: int| 0 <= t < rem.len() implies #[trigger] rem@[t] < n by {
                let t0 = if t < best { t } else { t + 1 };
                assert(rem@[t] == old_rem[t0]);
            }
            assert forall|j: usize| j < n implies #[trigger] res@.contains(j) || rem@.contains(j) by {
                if old_res.contains(j) {
                    let a = choose|a: int| 0 <= a < old_res.len() && old_res[a] == j;
                    assert(res@[a] == j);
                } else {
                    assert(old_rem.contains(j));
                    let t0 = choose|t0: int| 0 <= t0 < old_rem.len() && old_rem[t0] == j;
                    if t0 == best {
                        assert(res@[res.len() - 1] == j);
                    } else {
                        let t = if t0 < best { t0 } else { t0 - 1 };
                        assert(rem@[t] == j);
                    }
                }
            }
        }
    }
    proof {
        assert forall|j: usize, a: int|
            j < keys@.len() && !res@.contains(j) && 0 <= a < res@.len() implies key_gt(
                keys@[#[trigger] res@[a] as int],
                #[trigger] keys@[j as int],
            ) by {
            assert(rem@.contains(j));
            let t = choose|t: int| 0 <= t < rem.len() && rem@[t] == j;
            assert(key_gt(keys@[res@[a] as int], keys@[rem@[t] as int]));
        }
        assert(is_top(keys@, limit as nat, res@));
        lemma_top_unique(keys@, limit as nat, res@, top(keys@, limit as nat));
    }
    res
}

} // verus!

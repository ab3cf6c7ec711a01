//! Stable ordering by a composite key (two integers, then two strings).
//! Strings compare character by character by code point, which is the order
//! of `String`'s `Ord` (byte-wise order of the UTF-8 encodings).
use vstd::prelude::*;

verus! {

/// Three-way comparison of two integers: -1, 0 or 1.
pub open spec fn int_order(a: int, b: int) -> int {
    if a < b {
        -1
    } else if a > b {
        1
    } else {
        0
    }
}

/// Lexicographic three-way comparison of two strings by code point.
pub open spec fn seq_order(a: Seq<char>, b: Seq<char>) -> int
    decreases a.len(),
{
    if a.len() == 0 && b.len() == 0 {
        0
    } else if a.len() == 0 {
        -1
    } else if b.len() == 0 {
        1
    } else if a[0] < b[0] {
        -1
    } else if a[0] > b[0] {
        1
    } else {
        seq_order(a.drop_first(), b.drop_first())
    }
}

/// A sort key: compared by `k1`, then `k2`, then `t1`, then `t2`, ascending.
pub struct KeyModel {
    pub k1: int,
    pub k2: int,
    pub t1: Seq<char>,
    pub t2: Seq<char>,
}

pub open spec fn key_order(a: KeyModel, b: KeyModel) -> int {
    if a.k1 != b.k1 {
        int_order(a.k1, b.k1)
    } else if a.k2 != b.k2 {
        int_order(a.k2, b.k2)
    } else if seq_order(a.t1, b.t1) != 0 {
        seq_order(a.t1, b.t1)
    } else {
        seq_order(a.t2, b.t2)
    }
}

/// An executable sort key.
pub struct SortKey {
    pub k1: i128,
    pub k2: i128,
    pub t1: Vec<char>,
    pub t2: Vec<char>,
}

impl View for SortKey {
    type V = KeyModel;

    open spec fn view(&self) -> KeyModel {
        KeyModel { k1: self.k1 as int, k2: self.k2 as int, t1: self.t1@, t2: self.t2@ }
    }
}

pub proof fn lemma_seq_order_props(a: Seq<char>, b: Seq<char>)
    ensures
        seq_order(a, b) == -seq_order(b, a),
        -1 <= seq_order(a, b) <= 1,
        seq_order(a, b) == 0 <==> a == b,
    decreases a.len(),
{
    if a.len() > 0 && b.len() > 0 {
        if a[0] == b[0] {
            lemma_seq_order_props(a.drop_first(), b.drop_first());
            assert(a =~= seq![a[0]] + a.drop_first());
            assert(b =~= seq![b[0]] + b.drop_first());
        } else {
            if a == b {
                assert(a[0] == b[0]);
            }
        }
    } else if a.len() == 0 && b.len() == 0 {
        assert(a =~= b);
    }
}

pub proof fn lemma_seq_order_trans(a: Seq<char>, b: Seq<char>, c: Seq<char>)
    requires
        seq_order(a, b) <= 0,
        seq_order(b, c) <= 0,
    ensures
        seq_order(a, c) <= 0,
    decreases a.len(),
{
    if a.len() > 0 && b.len() > 0 && c.len() > 0 && a[0] == b[0] && b[0] == c[0] {
        lemma_seq_order_trans(a.drop_first(), b.drop_first(), c.drop_first());
    }
}

pub proof fn lemma_key_order_props(a: KeyModel, b: KeyModel)
    ensures
        key_order(a, b) == -key_order(b, a),
        -1 <= key_order(a, b) <= 1,
        key_order(a, a) == 0,
{
    lemma_seq_order_props(a.t1, b.t1);
    lemma_seq_order_props(a.t2, b.t2);
    lemma_seq_order_props(a.t1, a.t1);
    lemma_seq_order_props(a.t2, a.t2);
}

pub proof fn lemma_key_order_trans(a: KeyModel, b: KeyModel, c: KeyModel)
    requires
        key_order(a, b) <= 0,
        key_order(b, c) <= 0,
    ensures
        key_order(a, c) <= 0,
{
    lemma_seq_order_props(a.t1, b.t1);
    lemma_seq_order_props(b.t1, c.t1);
    lemma_seq_order_props(a.t1, c.t1);
    lemma_seq_order_props(a.t2, b.t2);
    lemma_seq_order_props(b.t2, c.t2);
    if a.k1 == b.k1 && b.k1 == c.k1 && a.k2 == b.k2 && b.k2 == c.k2 {
        if seq_order(a.t1, b.t1) == 0 && seq_order(b.t1, c.t1) == 0 {
            lemma_seq_order_trans(a.t2, b.t2, c.t2);
        } else {
            lemma_seq_order_trans(a.t1, b.t1, c.t1);
            if seq_order(a.t1, c.t1) == 0 {
                assert(a.t1 == c.t1);
                if seq_order(a.t1, b.t1) != 0 {
                    lemma_seq_order_props(c.t1, b.t1);
                }
            }
        }
    }
}

/// `p` lists each of `0..n` exactly once.
pub open spec fn is_perm(p: Seq<int>, n: int) -> bool {
    &&& p.len() == n
    &&& forall|k: int| 0 <= k < n ==> 0 <= #[trigger] p[k] < n
    &&& forall|a: int, b: int| 0 <= a < b < n ==> p[a] != p[b]
    &&& forall|v: int| 0 <= v < n ==> #[trigger] covers(p, v)
}

/// `v` occurs in `p`.
pub open spec fn covers(p: Seq<int>, v: int) -> bool {
    exists|k: int| 0 <= k < p.len() && #[trigger] p[k] == v
}

/// Visiting `keys` in the order `p` gives non-decreasing keys, and equal keys
/// keep their original relative order.
pub open spec fn stable_order(p: Seq<int>, keys: Seq<KeyModel>) -> bool {
    forall|a: int, b: int|
        #![trigger p[a], p[b]]
        0 <= a < b < p.len() ==> key_order(keys[p[a]], keys[p[b]]) <= 0 && (key_order(
            keys[p[a]],
            keys[p[b]],
        ) == 0 ==> p[a] < p[b])
}

/// `out` is `inp` sorted stably by `key`.
pub open spec fn is_stable_sort<A>(out: Seq<A>, inp: Seq<A>, key: spec_fn(A) -> KeyModel) -> bool {
    exists|p: Seq<int>|
        #![trigger is_perm(p, inp.len() as int)]
        is_perm(p, inp.len() as int) && stable_order(p, inp.map_values(key)) && out.len() == inp.len()
            && forall|k: int| 0 <= k < out.len() ==> out[k] == inp[#[trigger] p[k]]
}

/// Three-way comparison of two strings by code point.
pub fn compare_chars(a: &[char], b: &[char]) -> (r: i8)
    ensures
        r as int == seq_order(a@, b@),
{
    let mut i: usize = 0;
    assert(a@.skip(0) =~= a@);
    assert(b@.skip(0) =~= b@);
    while i < a.len() && i < b.len() && a[i] == b[i]
        invariant
            i <= a@.len(),
            i <= b@.len(),
            seq_order(a@, b@) == seq_order(a@.skip(i as int), b@.skip(i as int)),
        decreases a@.len() - i,
    {
        assert(a@.skip(i as int).drop_first() =~= a@.skip(i + 1));
        assert(b@.skip(i as int).drop_first() =~= b@.skip(i + 1));
        i = i + 1;
    }
    if i == a.len() && i == b.len() {
        0
    } else if i == a.len() {
        -1
    } else if i == b.len() {
        1
    } else if a[i] < b[i] {
        -1
    } else {
        1
    }
}

/// Three-way comparison of two keys.
pub fn compare_keys(a: &SortKey, b: &SortKey) -> (r: i8)
    ensures
        r as int == key_order(a@, b@),
{
    if a.k1 != b.k1 {
        if a.k1 < b.k1 {
            -1
        } else {
            1
        }
    } else if a.k2 != b.k2 {
        if a.k2 < b.k2 {
            -1
        } else {
            1
        }
    } else {
        let c = compare_chars(a.t1.as_slice(), b.t1.as_slice());
        if c != 0 {
            c
        } else {
            compare_chars(a.t2.as_slice(), b.t2.as_slice())
        }
    }
}

/// The views of the keys.
pub open spec fn key_views(v: Seq<SortKey>) -> Seq<KeyModel> {
    v.map_values(|k: SortKey| k@)
}

/// The indices as integers.
pub open spec fn as_ints(p: Seq<usize>) -> Seq<int> {
    p.map_values(|i: usize| i as int)
}

/// The order in which to visit `keys` to see them sorted, stably.
pub fn stable_sort_order(keys: &Vec<SortKey>) -> (p: Vec<usize>)
    ensures
        is_perm(as_ints(p@), keys@.len() as int),
        stable_order(as_ints(p@), key_views(keys@)),
{
    let ghost kv = key_views(keys@);
    let mut p: Vec<usize> = Vec::new();
    let mut i: usize = 0;
    while i < keys.len()
        invariant
            i <= keys@.len(),
            kv == key_views(keys@),
            is_perm(as_ints(p@), i as int),
            stable_order(as_ints(p@), kv),
        decreases keys@.len() - i,
    {
        let ghost old_p = as_ints(p@);
        let mut j: usize = p.len();
        assert forall|k: int| 0 <= k < p@.len() implies p@[k] < i by {
            assert(old_p[k] == p@[k] as int);
        }
        while j > 0 && compare_keys(&keys[p[j - 1]], &keys[i]) > 0
            invariant
                j <= p@.len(),
                p@.len() == i,
                i < keys@.len(),
                kv == key_views(keys@),
                old_p == as_ints(p@),
                is_perm(old_p, i as int),
                forall|k: int| 0 <= k < p@.len() ==> p@[k] < i,
                forall|k: int| j <= k < i ==> key_order(kv[old_p[k]], kv[i as int]) > 0,
            decreases j,
        {
            j = j - 1;
        }
        proof {
            // Everything before `j` is at most the new key.
            assert forall|k: int| 0 <= k < j implies key_order(kv[old_p[k]], kv[i as int]) <= 0 by {
                if j > 0 {
                    assert(key_order(kv[old_p[j - 1]], kv[i as int]) <= 0);
                    if k < j - 1 {
                        assert(key_order(kv[old_p[k]], kv[old_p[j - 1]]) <= 0);
                        lemma_key_order_trans(kv[old_p[k]], kv[old_p[j - 1]], kv[i as int]);
                    }
                }
            }
        }
        p.insert(j, i);
        proof {
            let np = as_ints(p@);
            assert(np =~= old_p.insert(j as int, i as int));
            assert forall|a: int, b: int| 0 <= a < b < np.len() implies np[a] != np[b] by {
                if a < j && b == j {
                } else if a == j {
                } else {
                }
            }
            assert forall|a: int, b: int|
                #![trigger np[a], np[b]]
                0 <= a < b < np.len() implies key_order(kv[np[a]], kv[np[b]]) <= 0 && (key_order(
                kv[np[a]],
                kv[np[b]],
            ) == 0 ==> np[a] < np[b]) by {
                if b == j {
                    assert(np[a] == old_p[a]);
                } else if a == j {
                    assert(np[b] == old_p[b - 1]);
                    assert(key_order(kv[old_p[b - 1]], kv[i as int]) > 0);
                    lemma_key_order_props(kv[old_p[b - 1]], kv[i as int]);
                } else {
                    let oa = if a < j { a } else { a - 1 };
                    let ob = if b < j { b } else { b - 1 };
                    assert(np[a] == old_p[oa]);
                    assert(np[b] == old_p[ob]);
                    assert(old_p[oa] == as_ints(p@)[a]);
                }
            }
            assert forall|v: int| 0 <= v < i + 1 implies #[trigger] covers(np, v) by {
                if v == i {
                    assert(np[j as int] == v);
                } else {
                    assert(covers(old_p, v));
                    let k0 = choose|k: int| 0 <= k < old_p.len() && #[trigger] old_p[k] == v;
                    if k0 < j {
                        assert(np[k0] == v);
                    } else {
                        assert(np[k0 + 1] == v);
                    }
                }
            }
            assert(is_perm(np, i + 1));
        }
        i = i + 1;
    }
    p
}

} // verus!

verus! {

/// A stable ordering of given keys is unique: two permutations that both
/// visit the keys in non-decreasing order, keeping equal keys in their
/// original order, are the same.
pub proof fn lemma_stable_order_unique(p: Seq<int>, q: Seq<int>, keys: Seq<KeyModel>)
    requires
        is_perm(p, keys.len() as int),
        is_perm(q, keys.len() as int),
        stable_order(p, keys),
        stable_order(q, keys),
    ensures
        p == q,
{
    let n = keys.len() as int;
    assert forall|k: int| 0 <= k < n implies p[k] == q[k] by {
        lemma_unique_upto(p, q, keys, k);
    }
    assert(p =~= q);
}

proof fn lemma_unique_upto(p: Seq<int>, q: Seq<int>, keys: Seq<KeyModel>, k: int)
    requires
        is_perm(p, keys.len() as int),
        is_perm(q, keys.len() as int),
        stable_order(p, keys),
        stable_order(q, keys),
        0 <= k < keys.len(),
    ensures
        forall|i: int| 0 <= i <= k ==> p[i] == q[i],
    decreases k,
{
    if k > 0 {
        lemma_unique_upto(p, q, keys, k - 1);
    }
    // p[k] sits in q at some b >= k, and q[k] sits in p at some a >= k.
    assert(covers(q, p[k]));
    let b = choose|b: int| 0 <= b < q.len() && #[trigger] q[b] == p[k];
    assert(covers(p, q[k]));
    let a = choose|a: int| 0 <= a < p.len() && #[trigger] p[a] == q[k];
    if b < k {
        assert(p[b] == q[b]);
        assert(p[b] != p[k]);
    }
    if a < k {
        assert(p[a] == q[a]);
        assert(q[a] != q[k]);
    }
    if a > k && b > k {
        // then p[k] comes strictly before q[k] in p, and q[k] strictly before p[k] in q
        let x = p[k];
        let y = q[k];
        assert(key_order(keys[p[k]], keys[p[a]]) <= 0);
        assert(key_order(keys[q[k]], keys[q[b]]) <= 0);
        lemma_key_order_props(keys[x], keys[y]);
        assert(x != y);
        if key_order(keys[x], keys[y]) == 0 {
            assert(x < y);
            assert(y < x);
        }
    }
}

} // verus!

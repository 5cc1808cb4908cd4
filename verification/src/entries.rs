//! Finite maps as sequences of `(key, value)` entries in ascending key order.
//!
//! This is the mathematical model of the trees of this crate: a tree stands
//! for the sequence of its entries read from left to right.

use crate::order::lemma_flip;
use crate::order::lemma_lt_transitive;
use crate::order::lemma_same_reflexive;
use crate::order::lemma_same_respects_lt;
use crate::order::lemma_same_transitive;
use crate::order::lt;
use crate::order::same;
use crate::order::total_order;
use vstd::prelude::*;

verus! {

/// Every key of `s` is before `k`.
pub open spec fn all_before<K: Ord, V>(s: Seq<(K, V)>, k: K) -> bool {
    forall|i: int| 0 <= i < s.len() ==> lt((#[trigger] s[i]).0, k)
}

/// Every key of `s` is after `k`.
pub open spec fn all_after<K: Ord, V>(s: Seq<(K, V)>, k: K) -> bool {
    forall|i: int| 0 <= i < s.len() ==> lt(k, (#[trigger] s[i]).0)
}

/// The keys of `s` are strictly ascending, so no key occurs twice.
pub open spec fn ascending<K: Ord, V>(s: Seq<(K, V)>) -> bool {
    forall|i: int, j: int|
        #![trigger s[i], s[j]]
        0 <= i < j < s.len() ==> lt(s[i].0, s[j].0)
}

/// The value of the first entry of `s` whose key takes the place of `k`.
pub open spec fn find<K: Ord, V>(s: Seq<(K, V)>, k: K) -> Option<V>
    decreases s.len(),
{
    if s.len() == 0 {
        None
    } else if same(k, s[0].0) {
        Some(s[0].1)
    } else {
        find(s.drop_first(), k)
    }
}

/// `s` with the value `v` under the key `k`: an entry whose key takes the
/// place of `k` keeps its key and gets `v`; where there is none, `(k, v)`
/// enters before the first entry with a later key.
pub open spec fn put<K: Ord, V>(s: Seq<(K, V)>, k: K, v: V) -> Seq<(K, V)>
    decreases s.len(),
{
    if s.len() == 0 {
        seq![(k, v)]
    } else if lt(k, s[0].0) {
        seq![(k, v)] + s
    } else if same(k, s[0].0) {
        seq![(s[0].0, v)] + s.drop_first()
    } else {
        seq![s[0]] + put(s.drop_first(), k, v)
    }
}

/// `s` without the first entry whose key takes the place of `k`.
pub open spec fn remove<K: Ord, V>(s: Seq<(K, V)>, k: K) -> Seq<(K, V)>
    decreases s.len(),
{
    if s.len() == 0 {
        s
    } else if same(k, s[0].0) {
        s.drop_first()
    } else {
        seq![s[0]] + remove(s.drop_first(), k)
    }
}

/// A sequence with one more entry in front is ascending exactly when the
/// rest is ascending and lies after that entry.
pub proof fn lemma_ascending_front<K: Ord, V>(e: (K, V), s: Seq<(K, V)>)
    requires
        total_order::<K>(),
    ensures
        ascending(seq![e] + s) <==> ascending(s) && all_after(s, e.0),
{
    let t = seq![e] + s;
    if ascending(t) {
        assert forall|i: int, j: int| 0 <= i < j < s.len() implies lt(s[i].0, s[j].0) by {
            assert(t[i + 1] == s[i] && t[j + 1] == s[j]);
        }
        assert forall|i: int| 0 <= i < s.len() implies lt(e.0, (#[trigger] s[i]).0) by {
            assert(t[0] == e && t[i + 1] == s[i]);
        }
    }
    if ascending(s) && all_after(s, e.0) {
        assert forall|i: int, j: int| 0 <= i < j < t.len() implies lt(t[i].0, t[j].0) by {
            assert(t[j] == s[j - 1]);
            if i > 0 {
                assert(t[i] == s[i - 1]);
            }
        }
    }
}

/// Two ascending sequences around a middle entry make an ascending sequence
/// exactly when the first lies before the middle key and the second after it.
pub proof fn lemma_ascending_join<K: Ord, V>(l: Seq<(K, V)>, m: (K, V), r: Seq<(K, V)>)
    requires
        total_order::<K>(),
    ensures
        ascending(l + seq![m] + r) <==> ascending(l) && ascending(r) && all_before(l, m.0)
            && all_after(r, m.0),
{
    let t = l + seq![m] + r;
    let n = l.len() as int;
    if ascending(t) {
        assert forall|i: int, j: int| 0 <= i < j < l.len() implies lt(l[i].0, l[j].0) by {
            assert(t[i] == l[i] && t[j] == l[j]);
        }
        assert forall|i: int, j: int| 0 <= i < j < r.len() implies lt(r[i].0, r[j].0) by {
            assert(t[n + 1 + i] == r[i] && t[n + 1 + j] == r[j]);
        }
        assert forall|i: int| 0 <= i < l.len() implies lt((#[trigger] l[i]).0, m.0) by {
            assert(t[i] == l[i] && t[n] == m);
        }
        assert forall|i: int| 0 <= i < r.len() implies lt(m.0, (#[trigger] r[i]).0) by {
            assert(t[n + 1 + i] == r[i] && t[n] == m);
        }
    }
    if ascending(l) && ascending(r) && all_before(l, m.0) && all_after(r, m.0) {
        assert forall|i: int, j: int| 0 <= i < j < t.len() implies lt(t[i].0, t[j].0) by {
            if j < n {
                assert(t[i] == l[i] && t[j] == l[j]);
            } else if j == n {
                assert(t[i] == l[i] && t[j] == m);
            } else if i < n {
                assert(t[i] == l[i] && t[j] == r[j - n - 1]);
                lemma_lt_transitive(l[i].0, m.0, r[j - n - 1].0);
            } else if i == n {
                assert(t[i] == m && t[j] == r[j - n - 1]);
            } else {
                assert(t[i] == r[i - n - 1] && t[j] == r[j - n - 1]);
            }
        }
    }
}

/// No key of a sequence that lies wholly before or wholly after `k` takes
/// the place of `k`.
pub proof fn lemma_find_outside<K: Ord, V>(s: Seq<(K, V)>, k: K)
    requires
        total_order::<K>(),
        all_before(s, k) || all_after(s, k),
    ensures
        find(s, k) is None,
    decreases s.len(),
{
    if s.len() > 0 {
        lemma_flip(k, s[0].0);
        let t = s.drop_first();
        assert forall|i: int| 0 <= i < t.len() implies (lt((#[trigger] t[i]).0, k) <==> lt(
            s[i + 1].0,
            k,
        )) && (lt(k, t[i].0) <==> lt(k, s[i + 1].0)) by {
            assert(t[i] == s[i + 1]);
        }
        lemma_find_outside(t, k);
    }
}

/// Where a key is looked up in two ascending sequences joined around a
/// middle entry: left of the middle, at it, or right of it.
pub proof fn lemma_find_join<K: Ord, V>(l: Seq<(K, V)>, m: (K, V), r: Seq<(K, V)>, k: K)
    requires
        total_order::<K>(),
        all_before(l, m.0),
        all_after(r, m.0),
    ensures
        lt(k, m.0) ==> find(l + seq![m] + r, k) == find(l, k),
        same(k, m.0) ==> find(l + seq![m] + r, k) == Some(m.1),
        lt(m.0, k) ==> find(l + seq![m] + r, k) == find(r, k),
    decreases l.len(),
{
    let t = l + seq![m] + r;
    lemma_flip(k, m.0);
    if l.len() == 0 {
        assert(t[0] == m);
        assert(t.drop_first() =~= r);
        if lt(k, m.0) {
            assert forall|i: int| 0 <= i < r.len() implies lt(k, (#[trigger] r[i]).0) by {
                lemma_lt_transitive(k, m.0, r[i].0);
            }
            lemma_find_outside(r, k);
        }
    } else {
        let l1 = l.drop_first();
        assert(t[0] == l[0]);
        assert(t.drop_first() =~= l1 + seq![m] + r);
        assert forall|i: int| 0 <= i < l1.len() implies lt((#[trigger] l1[i]).0, m.0) by {
            assert(l1[i] == l[i + 1]);
        }
        lemma_find_join(l1, m, r, k);
        lemma_flip(k, l[0].0);
        if same(k, l[0].0) {
            lemma_same_respects_lt(k, l[0].0, m.0);
        }
    }
}

/// Where a value is put into two sequences joined around a middle entry:
/// left of the middle, at it, or right of it.
pub proof fn lemma_put_join<K: Ord, V>(l: Seq<(K, V)>, m: (K, V), r: Seq<(K, V)>, k: K, v: V)
    requires
        total_order::<K>(),
        all_before(l, m.0),
    ensures
        lt(k, m.0) ==> put(l + seq![m] + r, k, v) == put(l, k, v) + seq![m] + r,
        same(k, m.0) ==> put(l + seq![m] + r, k, v) == l + seq![(m.0, v)] + r,
        lt(m.0, k) ==> put(l + seq![m] + r, k, v) == l + seq![m] + put(r, k, v),
    decreases l.len(),
{
    let t = l + seq![m] + r;
    lemma_flip(k, m.0);
    if l.len() == 0 {
        assert(t[0] == m);
        assert(t.drop_first() =~= r);
        assert(t =~= seq![m] + r);
        if lt(k, m.0) {
            assert(put(t, k, v) =~= put(l, k, v) + seq![m] + r);
        } else if same(k, m.0) {
            assert(put(t, k, v) =~= l + seq![(m.0, v)] + r);
        } else {
            assert(put(t, k, v) =~= l + seq![m] + put(r, k, v));
        }
    } else {
        let l1 = l.drop_first();
        assert(t[0] == l[0]);
        assert(t.drop_first() =~= l1 + seq![m] + r);
        assert forall|i: int| 0 <= i < l1.len() implies lt((#[trigger] l1[i]).0, m.0) by {
            assert(l1[i] == l[i + 1]);
        }
        lemma_put_join(l1, m, r, k, v);
        lemma_flip(k, l[0].0);
        if lt(k, l[0].0) {
            lemma_lt_transitive(k, l[0].0, m.0);
            assert(put(t, k, v) =~= put(l, k, v) + seq![m] + r);
        } else if same(k, l[0].0) {
            lemma_same_respects_lt(k, l[0].0, m.0);
            assert(put(t, k, v) =~= put(l, k, v) + seq![m] + r);
        } else {
            if lt(k, m.0) {
                assert(put(t, k, v) =~= put(l, k, v) + seq![m] + r);
            } else if same(k, m.0) {
                assert(put(t, k, v) =~= l + seq![(m.0, v)] + r);
            } else {
                assert(put(t, k, v) =~= l + seq![m] + put(r, k, v));
            }
        }
    }
}

/// Putting a value keeps a sequence on the side of a bound that the key is on.
pub proof fn lemma_put_bounded<K: Ord, V>(s: Seq<(K, V)>, k: K, v: V, b: K)
    requires
        total_order::<K>(),
    ensures
        all_before(s, b) && lt(k, b) ==> all_before(put(s, k, v), b),
        all_after(s, b) && lt(b, k) ==> all_after(put(s, k, v), b),
    decreases s.len(),
{
    let p = put(s, k, v);
    if s.len() > 0 {
        let t = s.drop_first();
        assert forall|i: int| 0 <= i < t.len() implies #[trigger] t[i] == s[i + 1] by {}
        lemma_put_bounded(t, k, v, b);
        let pt = put(t, k, v);
        if all_before(s, b) && lt(k, b) {
            assert forall|i: int| 0 <= i < p.len() implies lt((#[trigger] p[i]).0, b) by {
                if lt(k, s[0].0) {
                    if i > 0 {
                        assert(p[i] == s[i - 1]);
                    }
                } else if same(k, s[0].0) {
                    if i > 0 {
                        assert(p[i] == s[i]);
                    } else {
                        assert(p[0].0 == s[0].0);
                    }
                } else {
                    assert(all_before(t, b));
                    if i > 0 {
                        assert(p[i] == pt[i - 1]);
                    } else {
                        assert(p[0] == s[0]);
                    }
                }
            }
        }
        if all_after(s, b) && lt(b, k) {
            assert forall|i: int| 0 <= i < p.len() implies lt(b, (#[trigger] p[i]).0) by {
                if lt(k, s[0].0) {
                    if i > 0 {
                        assert(p[i] == s[i - 1]);
                    }
                } else if same(k, s[0].0) {
                    if i > 0 {
                        assert(p[i] == s[i]);
                    } else {
                        assert(p[0].0 == s[0].0);
                    }
                } else {
                    assert(all_after(t, b));
                    if i > 0 {
                        assert(p[i] == pt[i - 1]);
                    } else {
                        assert(p[0] == s[0]);
                    }
                }
            }
        }
    }
}

/// Putting a value keeps the keys ascending.
pub proof fn lemma_put_ascending<K: Ord, V>(s: Seq<(K, V)>, k: K, v: V)
    requires
        total_order::<K>(),
        ascending(s),
    ensures
        ascending(put(s, k, v)),
    decreases s.len(),
{
    let p = put(s, k, v);
    if s.len() > 0 {
        let t = s.drop_first();
        assert(s =~= seq![s[0]] + t);
        lemma_ascending_front(s[0], t);
        lemma_flip(k, s[0].0);
        if lt(k, s[0].0) {
            assert forall|i: int| 0 <= i < s.len() implies lt(k, (#[trigger] s[i]).0) by {
                if i > 0 {
                    assert(s[i] == t[i - 1]);
                    lemma_lt_transitive(k, s[0].0, s[i].0);
                }
            }
            lemma_ascending_front((k, v), s);
        } else if same(k, s[0].0) {
            lemma_ascending_front((s[0].0, v), t);
        } else {
            lemma_put_ascending(t, k, v);
            lemma_put_bounded(t, k, v, s[0].0);
            lemma_ascending_front(s[0], put(t, k, v));
        }
    } else {
        assert(ascending(p));
    }
}

/// Putting a value adds one entry where the key is new, and none where it
/// is present.
pub proof fn lemma_put_len<K: Ord, V>(s: Seq<(K, V)>, k: K, v: V)
    requires
        total_order::<K>(),
        ascending(s),
    ensures
        put(s, k, v).len() == if find(s, k) is Some {
            s.len()
        } else {
            s.len() + 1
        },
    decreases s.len(),
{
    if s.len() > 0 {
        let t = s.drop_first();
        assert(s =~= seq![s[0]] + t);
        lemma_ascending_front(s[0], t);
        lemma_flip(k, s[0].0);
        if lt(k, s[0].0) {
            assert forall|i: int| 0 <= i < s.len() implies lt(k, (#[trigger] s[i]).0) by {
                if i > 0 {
                    assert(s[i] == t[i - 1]);
                    lemma_lt_transitive(k, s[0].0, s[i].0);
                }
            }
            lemma_find_outside(s, k);
        } else if !same(k, s[0].0) {
            lemma_put_len(t, k, v);
        }
    }
}

/// After a value was put under a key, that key and every key in its place
/// finds the value, and every other key finds what it found before.
pub proof fn lemma_find_put<K: Ord, V>(s: Seq<(K, V)>, k: K, v: V, q: K)
    requires
        total_order::<K>(),
    ensures
        find(put(s, k, v), q) == if same(q, k) {
            Some(v)
        } else {
            find(s, q)
        },
    decreases s.len(),
{
    let p = put(s, k, v);
    lemma_flip(q, k);
    lemma_same_reflexive(k);
    if s.len() == 0 {
        assert(p[0] == (k, v));
        assert(p.drop_first() =~= s);
    } else {
        let t = s.drop_first();
        lemma_flip(k, s[0].0);
        if same(q, k) {
            lemma_same_respects_lt(q, k, s[0].0);
        }
        if same(k, s[0].0) {
            lemma_same_respects_lt(k, s[0].0, q);
        }
        lemma_flip(q, s[0].0);
        if lt(k, s[0].0) {
            assert(p[0] == (k, v));
            assert(p.drop_first() =~= s);
        } else if same(k, s[0].0) {
            assert(p[0] == (s[0].0, v));
            assert(p.drop_first() =~= t);
        } else {
            lemma_find_put(t, k, v, q);
            assert(p[0] == s[0]);
            assert(p.drop_first() =~= put(t, k, v));
        }
    }
}

/// Removing a key from a sequence that lies wholly before or wholly after
/// it changes nothing.
pub proof fn lemma_remove_outside<K: Ord, V>(s: Seq<(K, V)>, k: K)
    requires
        total_order::<K>(),
        all_before(s, k) || all_after(s, k),
    ensures
        remove(s, k) == s,
    decreases s.len(),
{
    if s.len() > 0 {
        lemma_flip(k, s[0].0);
        let t = s.drop_first();
        assert forall|i: int| 0 <= i < t.len() implies #[trigger] t[i] == s[i + 1] by {}
        lemma_remove_outside(t, k);
        assert(remove(s, k) =~= s);
    }
}

/// Where an entry is removed from two sequences joined around a middle
/// entry: left of the middle, the middle itself, or right of it.
pub proof fn lemma_remove_join<K: Ord, V>(l: Seq<(K, V)>, m: (K, V), r: Seq<(K, V)>, k: K)
    requires
        total_order::<K>(),
        all_before(l, m.0),
        all_after(r, m.0),
    ensures
        lt(k, m.0) ==> remove(l + seq![m] + r, k) == remove(l, k) + seq![m] + r,
        same(k, m.0) ==> remove(l + seq![m] + r, k) == l + r,
        lt(m.0, k) ==> remove(l + seq![m] + r, k) == l + seq![m] + remove(r, k),
    decreases l.len(),
{
    let t = l + seq![m] + r;
    lemma_flip(k, m.0);
    if l.len() == 0 {
        assert(t[0] == m);
        assert(t.drop_first() =~= r);
        assert(t =~= seq![m] + r);
        if lt(k, m.0) {
            assert forall|i: int| 0 <= i < r.len() implies lt(k, (#[trigger] r[i]).0) by {
                lemma_lt_transitive(k, m.0, r[i].0);
            }
            lemma_remove_outside(r, k);
            assert(remove(t, k) =~= remove(l, k) + seq![m] + r);
        } else if same(k, m.0) {
            assert(remove(t, k) =~= l + r);
        } else {
            assert(remove(t, k) =~= l + seq![m] + remove(r, k));
        }
    } else {
        let l1 = l.drop_first();
        assert(t[0] == l[0]);
        assert(t.drop_first() =~= l1 + seq![m] + r);
        assert forall|i: int| 0 <= i < l1.len() implies lt((#[trigger] l1[i]).0, m.0) by {
            assert(l1[i] == l[i + 1]);
        }
        lemma_remove_join(l1, m, r, k);
        lemma_flip(k, l[0].0);
        if same(k, l[0].0) {
            lemma_same_respects_lt(k, l[0].0, m.0);
            assert(remove(t, k) =~= remove(l, k) + seq![m] + r);
        } else {
            if lt(k, m.0) {
                assert(remove(t, k) =~= remove(l, k) + seq![m] + r);
            } else if same(k, m.0) {
                assert(remove(t, k) =~= l + r);
            } else {
                assert(remove(t, k) =~= l + seq![m] + remove(r, k));
            }
        }
    }
}

/// Removing an entry keeps a sequence on its side of a bound.
pub proof fn lemma_remove_bounded<K: Ord, V>(s: Seq<(K, V)>, k: K, b: K)
    ensures
        all_before(s, b) ==> all_before(remove(s, k), b),
        all_after(s, b) ==> all_after(remove(s, k), b),
    decreases s.len(),
{
    let p = remove(s, k);
    if s.len() > 0 {
        let t = s.drop_first();
        assert forall|i: int| 0 <= i < t.len() implies #[trigger] t[i] == s[i + 1] by {}
        lemma_remove_bounded(t, k, b);
        let pt = remove(t, k);
        if !same(k, s[0].0) {
            assert forall|i: int| 0 <= i < p.len() implies #[trigger] p[i] == if i == 0 {
                s[0]
            } else {
                pt[i - 1]
            } by {}
        }
        if all_before(s, b) {
            assert(all_before(t, b));
            assert forall|i: int| 0 <= i < p.len() implies lt((#[trigger] p[i]).0, b) by {
                if !same(k, s[0].0) && i > 0 {
                    assert(p[i] == pt[i - 1]);
                }
            }
        }
        if all_after(s, b) {
            assert(all_after(t, b));
            assert forall|i: int| 0 <= i < p.len() implies lt(b, (#[trigger] p[i]).0) by {
                if !same(k, s[0].0) && i > 0 {
                    assert(p[i] == pt[i - 1]);
                }
            }
        }
    }
}

/// Removing an entry keeps the keys ascending.
pub proof fn lemma_remove_ascending<K: Ord, V>(s: Seq<(K, V)>, k: K)
    requires
        total_order::<K>(),
        ascending(s),
    ensures
        ascending(remove(s, k)),
    decreases s.len(),
{
    if s.len() > 0 {
        let t = s.drop_first();
        assert(s =~= seq![s[0]] + t);
        lemma_ascending_front(s[0], t);
        if !same(k, s[0].0) {
            lemma_remove_ascending(t, k);
            lemma_remove_bounded(t, k, s[0].0);
            lemma_ascending_front(s[0], remove(t, k));
        }
    }
}

/// Removing takes one entry away where the key is present, and none where
/// it is not.
pub proof fn lemma_remove_len<K: Ord, V>(s: Seq<(K, V)>, k: K)
    ensures
        remove(s, k).len() == if find(s, k) is Some {
            s.len() - 1
        } else {
            s.len() as int
        },
    decreases s.len(),
{
    if s.len() > 0 && !same(k, s[0].0) {
        lemma_remove_len(s.drop_first(), k);
    }
}

/// After a key was removed from an ascending sequence, neither it nor any
/// key in its place finds a value, and every other key finds what it found
/// before.
pub proof fn lemma_find_remove<K: Ord, V>(s: Seq<(K, V)>, k: K, q: K)
    requires
        total_order::<K>(),
        ascending(s),
    ensures
        find(remove(s, k), q) == if same(q, k) {
            None
        } else {
            find(s, q)
        },
    decreases s.len(),
{
    let p = remove(s, k);
    lemma_flip(q, k);
    if s.len() > 0 {
        let t = s.drop_first();
        assert(s =~= seq![s[0]] + t);
        lemma_ascending_front(s[0], t);
        lemma_flip(q, s[0].0);
        if same(k, s[0].0) {
            if same(q, k) {
                lemma_same_transitive(q, k, s[0].0);
                assert forall|i: int| 0 <= i < t.len() implies lt(q, (#[trigger] t[i]).0) by {
                    lemma_same_respects_lt(q, s[0].0, t[i].0);
                }
                lemma_find_outside(t, q);
            } else if same(q, s[0].0) {
                lemma_flip(k, s[0].0);
                lemma_same_transitive(q, s[0].0, k);
            }
        } else {
            lemma_find_remove(t, k, q);
            assert(p[0] == s[0]);
            assert(p.drop_first() =~= remove(t, k));
            if same(q, s[0].0) && same(q, k) {
                lemma_same_transitive(k, q, s[0].0);
            }
        }
    }
}

} // verus!

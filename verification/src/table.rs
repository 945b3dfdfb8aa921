//! Specification helpers for sequences of key-value pairs that model the
//! ordered tables used throughout the library.

use vstd::prelude::*;

verus! {

/// Index of the first pair whose key is `k`, or -1 when no pair has it.
pub open spec fn key_index<K, V>(s: Seq<(K, V)>, k: K) -> int
    decreases s.len(),
{
    if s.len() == 0 {
        -1
    } else if s[0].0 == k {
        0
    } else {
        let r = key_index(s.drop_first(), k);
        if r == -1 {
            -1
        } else {
            1 + r
        }
    }
}

/// Some pair of `s` has key `k`.
pub open spec fn has_key<K, V>(s: Seq<(K, V)>, k: K) -> bool {
    exists|i: int| 0 <= i < s.len() && #[trigger] s[i].0 == k
}

/// The value of the first pair whose key is `k`.
pub open spec fn value_of<K, V>(s: Seq<(K, V)>, k: K) -> V {
    s[key_index(s, k)].1
}

/// No two pairs of `s` share a key.
pub open spec fn keys_unique<K, V>(s: Seq<(K, V)>) -> bool {
    forall|i: int, j: int| 0 <= i < j < s.len() ==> #[trigger] s[i].0 != #[trigger] s[j].0
}

/// Adds one observation to a bucketed index: a fresh key opens a new bucket
/// at the end; a known key's bucket gains the value unless it already holds
/// it.
pub open spec fn bucket_insert<K, V>(index: Seq<(K, Seq<V>)>, k: K, v: V) -> Seq<(K, Seq<V>)> {
    if !has_key(index, k) {
        index.push((k, seq![v]))
    } else {
        let i = key_index(index, k);
        if index[i].1.contains(v) {
            index
        } else {
            index.update(i, (k, index[i].1.push(v)))
        }
    }
}

/// The bucketed index of a pair sequence: every key seen, in first-seen
/// order, with the distinct values seen under it, in first-seen order.
pub open spec fn build_index<K, V>(pairs: Seq<(K, V)>) -> Seq<(K, Seq<V>)>
    decreases pairs.len(),
{
    if pairs.len() == 0 {
        Seq::empty()
    } else {
        bucket_insert(build_index(pairs.drop_last()), pairs.last().0, pairs.last().1)
    }
}

/// The buckets that collide: those holding more than one distinct value.
pub open spec fn retain_multi<K, V>(index: Seq<(K, Seq<V>)>) -> Seq<(K, Seq<V>)>
    decreases index.len(),
{
    if index.len() == 0 {
        Seq::empty()
    } else {
        let rest = retain_multi(index.drop_last());
        if index.last().1.len() > 1 {
            rest.push(index.last())
        } else {
            rest
        }
    }
}

/// Two pairs share a key but carry different values.
pub open spec fn has_collision<K, V>(pairs: Seq<(K, V)>) -> bool {
    exists|j1: int, j2: int|
        0 <= j1 < pairs.len() && 0 <= j2 < pairs.len() && #[trigger] pairs[j1].0
            == #[trigger] pairs[j2].0 && pairs[j1].1 != pairs[j2].1
}

/// What `build_index` holds: exactly the keys of the pair sequence, each
/// with exactly the distinct values seen under it.
pub proof fn lemma_build_index<K, V>(pairs: Seq<(K, V)>)
    ensures
        keys_unique(build_index(pairs)),
        forall|k: K| has_key(build_index(pairs), k) <==> (exists|j: int|
            0 <= j < pairs.len() && #[trigger] pairs[j].0 == k),
        forall|k: K, v: V| has_key(build_index(pairs), k) ==> (#[trigger] value_of(
            build_index(pairs),
            k,
        ).contains(v) <==> pairs.contains((k, v))),
        forall|i: int| 0 <= i < build_index(pairs).len() ==> (#[trigger] build_index(
            pairs,
        )[i].1).len() >= 1,
        forall|i: int, a: int, b: int|
            0 <= i < build_index(pairs).len() && 0 <= a < b < build_index(pairs)[i].1.len()
                ==> #[trigger] build_index(pairs)[i].1[a] != #[trigger] build_index(
                pairs,
            )[i].1[b],
    decreases pairs.len(),
{
    if pairs.len() > 0 {
        lemma_build_index::<K, V>(pairs.drop_last());
        let prev = build_index(pairs.drop_last());
        let k0 = pairs.last().0;
        let v0 = pairs.last().1;
        let cur = build_index(pairs);
        lemma_key_index(prev, k0);
        assert(pairs.drop_last().push(pairs.last()) =~= pairs);
        assert forall|k: K| has_key(cur, k) implies (exists|j: int|
            0 <= j < pairs.len() && #[trigger] pairs[j].0 == k) by {
            if k == k0 {
                assert(pairs[pairs.len() - 1].0 == k);
            } else {
                let i = choose|i: int| 0 <= i < cur.len() && #[trigger] cur[i].0 == k;
                assert(prev[i].0 == k);
                assert(has_key(prev, k));
                let j = choose|j: int|
                    0 <= j < pairs.drop_last().len() && #[trigger] pairs.drop_last()[j].0 == k;
                assert(pairs[j].0 == k);
            }
        }
        assert forall|k: K| (exists|j: int| 0 <= j < pairs.len() && #[trigger] pairs[j].0 == k)
            implies has_key(cur, k) by {
            let j = choose|j: int| 0 <= j < pairs.len() && #[trigger] pairs[j].0 == k;
            if j == pairs.len() - 1 {
                if !has_key(prev, k0) {
                    assert(cur[cur.len() - 1].0 == k0);
                } else {
                    let i = key_index(prev, k0);
                    assert(cur[i].0 == k0);
                }
            } else {
                assert(pairs.drop_last()[j].0 == k);
                assert(has_key(prev, k));
                let i = choose|i: int| 0 <= i < prev.len() && #[trigger] prev[i].0 == k;
                assert(cur[i].0 == k);
            }
        }
        assert(keys_unique(cur)) by {
            if !has_key(prev, k0) {
                assert(cur == prev.push((k0, seq![v0])));
                assert forall|i: int, j: int| 0 <= i < j < cur.len() implies #[trigger] cur[i].0
                    != #[trigger] cur[j].0 by {
                    if j == cur.len() - 1 {
                        assert(cur[i].0 == prev[i].0);
                        assert(!has_key(prev, cur[j].0));
                    } else {
                        assert(cur[i].0 == prev[i].0 && cur[j].0 == prev[j].0);
                    }
                }
            } else {
                let i0 = key_index(prev, k0);
                assert forall|i: int, j: int| 0 <= i < j < cur.len() implies #[trigger] cur[i].0
                    != #[trigger] cur[j].0 by {
                    assert(cur[i].0 == prev[i].0);
                    assert(cur[j].0 == prev[j].0);
                }
            }
        }
        assert forall|i: int, a: int, b: int|
            0 <= i < cur.len() && 0 <= a < b < cur[i].1.len() implies #[trigger] cur[i].1[a]
            != #[trigger] cur[i].1[b] by {
            if !has_key(prev, k0) {
                if i < prev.len() {
                    assert(cur[i] == prev[i]);
                } else {
                    assert(cur[i].1 == seq![v0]);
                }
            } else {
                let i0 = key_index(prev, k0);
                if i != i0 || prev[i0].1.contains(v0) {
                    assert(cur[i] == prev[i]);
                } else {
                    assert(cur[i].1 == prev[i0].1.push(v0));
                    if b == cur[i].1.len() - 1 {
                        assert(cur[i].1[a] == prev[i0].1[a]);
                        assert(!prev[i0].1.contains(v0));
                        assert(prev[i0].1[a] != v0);
                    } else {
                        assert(cur[i].1[a] == prev[i0].1[a]);
                        assert(cur[i].1[b] == prev[i0].1[b]);
                    }
                }
            }
        }
        assert forall|i: int| 0 <= i < cur.len() implies (#[trigger] cur[i].1).len() >= 1 by {
            if !has_key(prev, k0) {
                if i < prev.len() {
                    assert(cur[i] == prev[i]);
                }
            } else {
                let i0 = key_index(prev, k0);
                if i != i0 {
                    assert(cur[i] == prev[i]);
                }
            }
        }
        assert forall|k: K, v: V| has_key(cur, k) implies (#[trigger] value_of(cur, k).contains(v)
            <==> pairs.contains((k, v))) by {
            lemma_key_index(cur, k);
            lemma_key_index(prev, k);
            if k == k0 {
                if !has_key(prev, k0) {
                    assert(cur == prev.push((k0, seq![v0])));
                    assert(cur[cur.len() - 1].0 == k0);
                    assert(key_index(cur, k0) == cur.len() - 1) by {
                        let i = key_index(cur, k0);
                        if i < cur.len() - 1 {
                            assert(prev[i].0 == k0);
                            assert(has_key(prev, k0));
                        }
                    }
                    assert(value_of(cur, k) == seq![v0]);
                    if value_of(cur, k).contains(v) {
                        assert(v == v0);
                        assert(pairs[pairs.len() - 1] == (k, v));
                    }
                    if pairs.contains((k, v)) {
                        let j = choose|j: int| 0 <= j < pairs.len() && pairs[j] == (k, v);
                        if j < pairs.len() - 1 {
                            assert(pairs.drop_last()[j] == (k, v));
                            assert(pairs.drop_last()[j].0 == k);
                            assert(has_key(prev, k));
                        } else {
                            assert(v == v0);
                            assert(seq![v0][0] == v);
                        }
                    }
                } else {
                    let i = key_index(prev, k0);
                    assert(prev[i].0 == k0);
                    let newb = if prev[i].1.contains(v0) {
                        prev[i].1
                    } else {
                        prev[i].1.push(v0)
                    };
                    assert(cur == prev.update(i, (k0, newb)) || cur == prev);
                    assert(key_index(cur, k0) == i) by {
                        lemma_key_index(cur, k0);
                        let i2 = key_index(cur, k0);
                        if i2 < i {
                            assert(prev[i2].0 != k0);
                            assert(cur[i2].0 == prev[i2].0);
                        }
                        if i2 > i {
                            assert(cur[i].0 == k0);
                        }
                        if i2 == -1 {
                            assert(cur[i].0 == k0);
                        }
                    }
                    assert(value_of(cur, k) == newb);
                    if value_of(cur, k).contains(v) {
                        if v == v0 {
                            assert(pairs[pairs.len() - 1] == (k, v));
                        } else {
                            assert(newb == prev[i].1 || newb == prev[i].1.push(v0));
                            assert(prev[i].1.contains(v)) by {
                                let a = choose|a: int| 0 <= a < newb.len() && newb[a] == v;
                                assert(newb[a] == v);
                                if a < prev[i].1.len() {
                                    assert(prev[i].1[a] == v);
                                }
                            }
                            assert(value_of(prev, k).contains(v));
                            assert(pairs.drop_last().contains((k, v)));
                            let j = choose|j: int|
                                0 <= j < pairs.drop_last().len() && pairs.drop_last()[j] == (
                                k,
                                v,
                                );
                            assert(pairs[j] == (k, v));
                        }
                    }
                    if pairs.contains((k, v)) {
                        let j = choose|j: int| 0 <= j < pairs.len() && pairs[j] == (k, v);
                        if j < pairs.len() - 1 {
                            assert(pairs.drop_last()[j] == (k, v));
                            assert(value_of(prev, k).contains(v));
                            let a = choose|a: int|
                                0 <= a < prev[i].1.len() && prev[i].1[a] == v;
                            assert(newb[a] == v);
                        } else {
                            assert(v == v0);
                            if prev[i].1.contains(v0) {
                                assert(newb.contains(v));
                            } else {
                                assert(newb[newb.len() - 1] == v0);
                            }
                        }
                    }
                }
            } else {
                // An unrelated key: its bucket is untouched.
                assert(has_key(prev, k)) by {
                    let i = choose|i: int| 0 <= i < cur.len() && #[trigger] cur[i].0 == k;
                    if !has_key(prev, k0) {
                        assert(i < prev.len());
                        assert(prev[i].0 == k);
                    } else {
                        assert(prev[i].0 == k || i == key_index(prev, k0));
                    }
                }
                let i = key_index(prev, k);
                assert(prev[i].0 == k);
                assert(cur[i] == prev[i]) by {
                    if has_key(prev, k0) {
                        assert(key_index(prev, k0) != i);
                    }
                }
                assert(key_index(cur, k) == i) by {
                    lemma_key_index(cur, k);
                    let i2 = key_index(cur, k);
                    if i2 < i {
                        assert(prev[i2].0 != k);
                        if has_key(prev, k0) && i2 == key_index(prev, k0) {
                            assert(cur[i2].0 == k0);
                        } else {
                            assert(cur[i2].0 == prev[i2].0);
                        }
                    }
                    if i2 > i || i2 == -1 {
                        assert(cur[i].0 == k);
                    }
                }
                assert(value_of(cur, k) == prev[i].1);
                assert(value_of(prev, k) == prev[i].1);
                if value_of(cur, k).contains(v) {
                    assert(pairs.drop_last().contains((k, v)));
                    let j = choose|j: int|
                        0 <= j < pairs.drop_last().len() && pairs.drop_last()[j] == (k, v);
                    assert(pairs[j] == (k, v));
                }
                if pairs.contains((k, v)) {
                    let j = choose|j: int| 0 <= j < pairs.len() && pairs[j] == (k, v);
                    assert(j < pairs.len() - 1);
                    assert(pairs.drop_last()[j] == (k, v));
                }
            }
        }
    }
}

/// What `retain_multi` keeps: exactly the keys whose buckets hold more than
/// one value, with their buckets unchanged.
pub proof fn lemma_retain_multi<K, V>(index: Seq<(K, Seq<V>)>)
    requires
        keys_unique(index),
    ensures
        keys_unique(retain_multi(index)),
        forall|k: K|
            #![trigger has_key(retain_multi(index), k)]
            #![trigger has_key(index, k)]
            has_key(retain_multi(index), k) <==> (has_key(index, k) && value_of(
                index,
                k,
            ).len() > 1),
        forall|k: K|
            #![trigger value_of(retain_multi(index), k)]
            #![trigger has_key(retain_multi(index), k)]
            has_key(retain_multi(index), k) ==> value_of(retain_multi(index), k) == value_of(
                index,
                k,
            ),
    decreases index.len(),
{
    if index.len() > 0 {
        let prev = index.drop_last();
        assert(keys_unique(prev)) by {
            assert(forall|i: int| 0 <= i < prev.len() ==> #[trigger] prev[i] == index[i]);
        }
        lemma_retain_multi::<K, V>(prev);
        let last = index.last();
        let rt = retain_multi(index);
        let rp = retain_multi(prev);
        assert(!has_key(prev, last.0)) by {
            if has_key(prev, last.0) {
                let i = choose|i: int| 0 <= i < prev.len() && #[trigger] prev[i].0 == last.0;
                assert(index[i].0 == index[index.len() - 1].0);
            }
        }
        lemma_key_index(index, last.0);
        assert(key_index(index, last.0) == index.len() - 1) by {
            let i = key_index(index, last.0);
            if i < index.len() - 1 {
                assert(prev[i].0 == last.0);
            }
        }
        assert(value_of(index, last.0) == last.1);
        // Keys other than the last one read the same in both tables.
        assert forall|k: K| k != last.0 implies (has_key(index, k) == has_key(prev, k) && (
        has_key(prev, k) ==> value_of(index, k) == value_of(prev, k))) by {
            if has_key(index, k) {
                let i = choose|i: int| 0 <= i < index.len() && #[trigger] index[i].0 == k;
                assert(i < index.len() - 1);
                assert(prev[i].0 == k);
            }
            if has_key(prev, k) {
                let i = choose|i: int| 0 <= i < prev.len() && #[trigger] prev[i].0 == k;
                assert(index[i].0 == k);
                lemma_key_index(index, k);
                lemma_key_index(prev, k);
                assert(key_index(index, k) == key_index(prev, k)) by {
                    let a = key_index(index, k);
                    let b = key_index(prev, k);
                    assert(index[a].0 == k && prev[b].0 == k);
                    assert(a < index.len() - 1);
                    if a < b {
                        assert(prev[a].0 == index[a].0);
                    }
                    if b < a {
                        assert(index[b].0 == prev[b].0);
                    }
                }
                assert(prev[key_index(prev, k)] == index[key_index(index, k)]);
            }
        }
        if last.1.len() > 1 {
            assert(rt == rp.push(last));
            assert(!has_key(rp, last.0));
            assert(rt[rt.len() - 1] == last);
            assert(has_key(rt, last.0));
            lemma_key_index(rt, last.0);
            assert(key_index(rt, last.0) == rt.len() - 1) by {
                let i = key_index(rt, last.0);
                assert(0 <= i < rt.len());
                if i < rt.len() - 1 {
                    assert(rt[i] == rp[i]);
                    assert(rp[i].0 == last.0);
                }
            }
            assert(value_of(rt, last.0) == last.1);
            assert(keys_unique(rt)) by {
                assert forall|i: int, j: int| 0 <= i < j < rt.len() implies #[trigger] rt[i].0
                    != #[trigger] rt[j].0 by {
                    if j == rt.len() - 1 {
                        assert(rt[i] == rp[i]);
                        assert(has_key(rp, rp[i].0));
                    } else {
                        assert(rt[i] == rp[i] && rt[j] == rp[j]);
                    }
                }
            }
            assert forall|k: K| k != last.0 implies (has_key(rt, k) == has_key(rp, k) && (
            has_key(rp, k) ==> value_of(rt, k) == value_of(rp, k))) by {
                if has_key(rt, k) {
                    let i = choose|i: int| 0 <= i < rt.len() && #[trigger] rt[i].0 == k;
                    assert(i < rt.len() - 1);
                    assert(rp[i].0 == k);
                }
                if has_key(rp, k) {
                    let i = choose|i: int| 0 <= i < rp.len() && #[trigger] rp[i].0 == k;
                    assert(rt[i].0 == k);
                    lemma_key_index(rt, k);
                    lemma_key_index(rp, k);
                    assert(key_index(rt, k) == key_index(rp, k)) by {
                        let a = key_index(rt, k);
                        let b = key_index(rp, k);
                        assert(a < rt.len() - 1);
                        if a < b {
                            assert(rp[a].0 == rt[a].0);
                        }
                        if b < a {
                            assert(rt[b].0 == rp[b].0);
                        }
                    }
                    assert(rp[key_index(rp, k)] == rt[key_index(rt, k)]);
                }
            }
        } else {
            assert(rt == rp);
            assert forall|k: K| has_key(rt, k) implies (has_key(index, k) && value_of(
                index,
                k,
            ).len() > 1) by {
                if k != last.0 {
                } else {
                    assert(has_key(rp, last.0) && value_of(prev, last.0).len() > 1);
                    assert(has_key(prev, last.0));
                }
            }
        }
    }
}

/// A pair sequence holds a collision exactly when the collision table built
/// from it is nonempty.
pub proof fn lemma_collision_iff<K, V>(pairs: Seq<(K, V)>)
    ensures
        has_collision(pairs) <==> retain_multi(build_index(pairs)).len() > 0,
{
    lemma_build_index::<K, V>(pairs);
    let bn = build_index(pairs);
    lemma_retain_multi::<K, V>(bn);
    let rt = retain_multi(bn);
    if has_collision(pairs) {
        let (j1, j2) = choose|j1: int, j2: int|
            0 <= j1 < pairs.len() && 0 <= j2 < pairs.len() && #[trigger] pairs[j1].0
                == #[trigger] pairs[j2].0 && pairs[j1].1 != pairs[j2].1;
        let k = pairs[j1].0;
        assert(has_key(bn, k));
        assert(pairs[j1] == (k, pairs[j1].1));
        assert(pairs[j2] == (k, pairs[j2].1));
        assert(pairs.contains((k, pairs[j1].1)));
        assert(pairs.contains((k, pairs[j2].1)));
        let b = value_of(bn, k);
        assert(b.contains(pairs[j1].1) && b.contains(pairs[j2].1));
        let a1 = choose|a: int| 0 <= a < b.len() && b[a] == pairs[j1].1;
        let a2 = choose|a: int| 0 <= a < b.len() && b[a] == pairs[j2].1;
        assert(a1 != a2);
        assert(b.len() > 1);
        assert(has_key(rt, k));
        let i = choose|i: int| 0 <= i < rt.len() && #[trigger] rt[i].0 == k;
        assert(rt.len() > 0);
    }
    if rt.len() > 0 {
        let k = rt[0].0;
        assert(has_key(rt, k));
        assert(has_key(bn, k) && value_of(bn, k).len() > 1);
        lemma_key_index(bn, k);
        let i = key_index(bn, k);
        let b = value_of(bn, k);
        assert(b == bn[i].1);
        assert(bn[i].1[0] != bn[i].1[1]);
        assert(b.contains(b[0]) && b.contains(b[1]));
        assert(pairs.contains((k, b[0])) && pairs.contains((k, b[1])));
        let j1 = choose|j: int| 0 <= j < pairs.len() && pairs[j] == (k, b[0]);
        let j2 = choose|j: int| 0 <= j < pairs.len() && pairs[j] == (k, b[1]);
        assert(pairs[j1].0 == pairs[j2].0 && pairs[j1].1 != pairs[j2].1);
    }
}

/// What `key_index` finds: the first pair with the key, if any.
pub proof fn lemma_key_index<K, V>(s: Seq<(K, V)>, k: K)
    ensures
        has_key(s, k) <==> 0 <= key_index(s, k) < s.len(),
        !has_key(s, k) ==> key_index(s, k) == -1,
        has_key(s, k) ==> s[key_index(s, k)].0 == k,
        forall|j: int| 0 <= j < key_index(s, k) ==> #[trigger] s[j].0 != k,
    decreases s.len(),
{
    if s.len() > 0 && s[0].0 != k {
        lemma_key_index(s.drop_first(), k);
        assert(forall|i: int|
            0 <= i < s.drop_first().len() ==> #[trigger] s.drop_first()[i] == s[i + 1]);
        if has_key(s, k) {
            let i = choose|i: int| 0 <= i < s.len() && #[trigger] s[i].0 == k;
            assert(s.drop_first()[i - 1].0 == k);
        }
        assert forall|j: int| 0 <= j < key_index(s, k) implies #[trigger] s[j].0 != k by {
            if j > 0 {
                assert(s.drop_first()[j - 1].0 != k);
            }
        }
    }
}

} // verus!

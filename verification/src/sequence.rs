//! Increasing key sequences, and what it means to add a key to one or to
//! take a key out of one.

use vstd::prelude::*;

use crate::order::lemma_lt_asymmetric;
use crate::order::lemma_lt_connected;
use crate::order::lemma_lt_irreflexive;
use crate::order::lemma_lt_transitive;
use crate::order::lt;
use crate::order::total_order;

verus! {

/// The keys below `k`.
pub open spec fn is_below<T: Ord>(k: T) -> spec_fn(T) -> bool {
    |x: T| lt(x, k)
}

/// The keys above `k`.
pub open spec fn is_above<T: Ord>(k: T) -> spec_fn(T) -> bool {
    |x: T| lt(k, x)
}

/// The keys other than `k`.
pub open spec fn is_not<T>(k: T) -> spec_fn(T) -> bool {
    |x: T| x != k
}

/// Each key of `s` is below every key that comes after it.
pub open spec fn increasing<T: Ord>(s: Seq<T>) -> bool {
    forall|i: int, j: int| 0 <= i < j < s.len() ==> lt(#[trigger] s[i], #[trigger] s[j])
}

/// `s` with `k` put between its keys below `k` and its keys above `k`. For an
/// increasing `s` this is `s` itself where it holds `k`, and `s` with `k`
/// added at its place in the order where it does not.
#[verifier::opaque]
pub open spec fn with_key<T: Ord>(s: Seq<T>, k: T) -> Seq<T> {
    s.filter(is_below(k)).push(k) + s.filter(is_above(k))
}

/// `s` with every occurrence of `k` taken out.
#[verifier::opaque]
pub open spec fn without_key<T>(s: Seq<T>, k: T) -> Seq<T> {
    s.filter(is_not(k))
}

/// Every key of `s` is below `k`.
pub open spec fn keys_below<T: Ord>(s: Seq<T>, k: T) -> bool {
    forall|i: int| 0 <= i < s.len() ==> lt(#[trigger] s[i], k)
}

/// Every key of `s` is above `k`.
pub open spec fn keys_above<T: Ord>(s: Seq<T>, k: T) -> bool {
    forall|i: int| 0 <= i < s.len() ==> lt(k, #[trigger] s[i])
}

/// A filter that every element passes changes nothing.
pub proof fn lemma_filter_keeps_all<T>(s: Seq<T>, p: spec_fn(T) -> bool)
    requires
        forall|i: int| 0 <= i < s.len() ==> p(#[trigger] s[i]),
    ensures
        s.filter(p) == s,
    decreases s.len(),
{
    reveal(Seq::filter);
    if s.len() > 0 {
        lemma_filter_keeps_all(s.drop_last(), p);
        assert(s.drop_last().push(s.last()) =~= s);
    }
}

/// A filter that no element passes leaves nothing.
pub proof fn lemma_filter_drops_all<T>(s: Seq<T>, p: spec_fn(T) -> bool)
    requires
        forall|i: int| 0 <= i < s.len() ==> !p(#[trigger] s[i]),
    ensures
        s.filter(p) == Seq::<T>::empty(),
    decreases s.len(),
{
    reveal(Seq::filter);
    if s.len() > 0 {
        lemma_filter_drops_all(s.drop_last(), p);
    } else {
        assert(s =~= Seq::<T>::empty());
    }
}

/// Filtering a sequence with a key in its middle filters the three parts.
pub proof fn lemma_filter_parts<T>(l: Seq<T>, k: T, r: Seq<T>, p: spec_fn(T) -> bool)
    ensures
        (l.push(k) + r).filter(p) == if p(k) {
            l.filter(p).push(k) + r.filter(p)
        } else {
            l.filter(p) + r.filter(p)
        },
{
    Seq::filter_distributes_over_add(l.push(k), r, p);
    l.lemma_filter_push(k, p);
}

/// Adding a key to nothing gives that key alone.
pub proof fn lemma_with_key_empty<T: Ord>(k: T)
    ensures
        with_key(Seq::<T>::empty(), k) == seq![k],
{
    reveal(with_key);
    lemma_filter_drops_all(Seq::<T>::empty(), is_below(k));
    lemma_filter_drops_all(Seq::<T>::empty(), is_above(k));
    assert(with_key(Seq::<T>::empty(), k) =~= seq![k]);
}

/// A key below the middle key is added to the left part.
pub proof fn lemma_with_key_left<T: Ord>(l: Seq<T>, k: T, r: Seq<T>, key: T)
    requires
        total_order::<T>(),
        lt(key, k),
        keys_above(r, k),
    ensures
        with_key(l.push(k) + r, key) == with_key(l, key).push(k) + r,
{
    reveal(with_key);
    lemma_filter_parts(l, k, r, is_below(key));
    lemma_filter_parts(l, k, r, is_above(key));
    lemma_lt_asymmetric(key, k);
    assert forall|i: int| 0 <= i < r.len() implies is_above(key)(#[trigger] r[i]) by {
        lemma_lt_transitive(key, k, r[i]);
    }
    assert forall|i: int| 0 <= i < r.len() implies !is_below(key)(#[trigger] r[i]) by {
        lemma_lt_transitive(key, k, r[i]);
        lemma_lt_asymmetric(key, r[i]);
    }
    lemma_filter_keeps_all(r, is_above(key));
    lemma_filter_drops_all(r, is_below(key));
    assert(with_key(l.push(k) + r, key) =~= with_key(l, key).push(k) + r);
}

/// A key above the middle key is added to the right part.
pub proof fn lemma_with_key_right<T: Ord>(l: Seq<T>, k: T, r: Seq<T>, key: T)
    requires
        total_order::<T>(),
        lt(k, key),
        keys_below(l, k),
    ensures
        with_key(l.push(k) + r, key) == l.push(k) + with_key(r, key),
{
    reveal(with_key);
    lemma_filter_parts(l, k, r, is_below(key));
    lemma_filter_parts(l, k, r, is_above(key));
    lemma_lt_asymmetric(k, key);
    assert forall|i: int| 0 <= i < l.len() implies is_below(key)(#[trigger] l[i]) by {
        lemma_lt_transitive(l[i], k, key);
    }
    assert forall|i: int| 0 <= i < l.len() implies !is_above(key)(#[trigger] l[i]) by {
        lemma_lt_transitive(l[i], k, key);
        lemma_lt_asymmetric(l[i], key);
    }
    lemma_filter_keeps_all(l, is_below(key));
    lemma_filter_drops_all(l, is_above(key));
    assert(with_key(l.push(k) + r, key) =~= l.push(k) + with_key(r, key));
}

/// Adding the middle key again changes nothing.
pub proof fn lemma_with_key_middle<T: Ord>(l: Seq<T>, k: T, r: Seq<T>)
    requires
        total_order::<T>(),
        keys_below(l, k),
        keys_above(r, k),
    ensures
        with_key(l.push(k) + r, k) == l.push(k) + r,
{
    reveal(with_key);
    lemma_filter_parts(l, k, r, is_below(k));
    lemma_filter_parts(l, k, r, is_above(k));
    lemma_lt_irreflexive(k);
    assert forall|i: int| 0 <= i < l.len() implies !is_above(k)(#[trigger] l[i]) by {
        lemma_lt_asymmetric(l[i], k);
    }
    assert forall|i: int| 0 <= i < r.len() implies !is_below(k)(#[trigger] r[i]) by {
        lemma_lt_asymmetric(k, r[i]);
    }
    lemma_filter_keeps_all(l, is_below(k));
    lemma_filter_drops_all(l, is_above(k));
    lemma_filter_keeps_all(r, is_above(k));
    lemma_filter_drops_all(r, is_below(k));
    assert(with_key(l.push(k) + r, k) =~= l.push(k) + r);
}

/// Taking a key out of nothing leaves nothing.
pub proof fn lemma_without_key_empty<T>(k: T)
    ensures
        without_key(Seq::<T>::empty(), k) == Seq::<T>::empty(),
{
    reveal(without_key);
    lemma_filter_drops_all(Seq::<T>::empty(), is_not(k));
}

/// A key below the middle key is taken out of the left part.
pub proof fn lemma_without_key_left<T: Ord>(l: Seq<T>, k: T, r: Seq<T>, key: T)
    requires
        total_order::<T>(),
        lt(key, k),
        keys_above(r, k),
    ensures
        without_key(l.push(k) + r, key) == without_key(l, key).push(k) + r,
{
    reveal(without_key);
    lemma_filter_parts(l, k, r, is_not(key));
    lemma_lt_irreflexive(key);
    assert forall|i: int| 0 <= i < r.len() implies is_not(key)(#[trigger] r[i]) by {
        lemma_lt_transitive(key, k, r[i]);
    }
    lemma_filter_keeps_all(r, is_not(key));
}

/// A key above the middle key is taken out of the right part.
pub proof fn lemma_without_key_right<T: Ord>(l: Seq<T>, k: T, r: Seq<T>, key: T)
    requires
        total_order::<T>(),
        lt(k, key),
        keys_below(l, k),
    ensures
        without_key(l.push(k) + r, key) == l.push(k) + without_key(r, key),
{
    reveal(without_key);
    lemma_filter_parts(l, k, r, is_not(key));
    lemma_lt_irreflexive(key);
    assert forall|i: int| 0 <= i < l.len() implies is_not(key)(#[trigger] l[i]) by {
        lemma_lt_transitive(l[i], k, key);
    }
    lemma_filter_keeps_all(l, is_not(key));
}

/// Taking out the middle key leaves the two parts.
pub proof fn lemma_without_key_middle<T: Ord>(l: Seq<T>, k: T, r: Seq<T>)
    requires
        total_order::<T>(),
        keys_below(l, k),
        keys_above(r, k),
    ensures
        without_key(l.push(k) + r, k) == l + r,
{
    reveal(without_key);
    lemma_filter_parts(l, k, r, is_not(k));
    lemma_lt_irreflexive(k);
    lemma_filter_keeps_all(l, is_not(k));
    lemma_filter_keeps_all(r, is_not(k));
}

/// An increasing sequence is its first key followed by what is left when
/// that key is taken out.
pub proof fn lemma_without_first<T: Ord>(s: Seq<T>)
    requires
        total_order::<T>(),
        increasing(s),
        s.len() > 0,
    ensures
        seq![s[0]] + without_key(s, s[0]) == s,
{
    reveal(without_key);
    let head = Seq::<T>::empty().push(s[0]);
    let tail = s.skip(1);
    assert(head + tail =~= s);
    Seq::filter_distributes_over_add(head, tail, is_not(s[0]));
    Seq::<T>::empty().lemma_filter_push(s[0], is_not(s[0]));
    lemma_filter_drops_all(Seq::<T>::empty(), is_not(s[0]));
    lemma_lt_irreflexive(s[0]);
    assert forall|i: int| 0 <= i < tail.len() implies is_not(s[0])(#[trigger] tail[i]) by {
        assert(lt(s[0], s[i + 1]));
    }
    lemma_filter_keeps_all(tail, is_not(s[0]));
    assert(seq![s[0]] + without_key(s, s[0]) =~= s);
}

/// A sequence with a key in its middle holds that key and what the two parts
/// hold.
pub proof fn lemma_contains_parts<T>(l: Seq<T>, k: T, r: Seq<T>, x: T)
    ensures
        (l.push(k) + r).contains(x) <==> l.contains(x) || x == k || r.contains(x),
{
    let s = l.push(k) + r;
    if s.contains(x) {
        let i = choose|i: int| 0 <= i < s.len() && s[i] == x;
        if i < l.len() {
            assert(l[i] == x);
        } else if i > l.len() {
            assert(r[i - l.len() - 1] == x);
        }
    }
    if l.contains(x) {
        let i = choose|i: int| 0 <= i < l.len() && l[i] == x;
        assert(s[i] == x);
    }
    if x == k {
        assert(s[l.len() as int] == x);
    }
    if r.contains(x) {
        let i = choose|i: int| 0 <= i < r.len() && r[i] == x;
        assert(s[l.len() + 1 + i] == x);
    }
}

/// Two increasing sequences around a key that lies above the one and below
/// the other make one increasing sequence.
pub proof fn lemma_increasing_parts<T: Ord>(l: Seq<T>, k: T, r: Seq<T>)
    requires
        total_order::<T>(),
        increasing(l),
        increasing(r),
        keys_below(l, k),
        keys_above(r, k),
    ensures
        increasing(l.push(k) + r),
{
    let s = l.push(k) + r;
    assert forall|i: int, j: int| 0 <= i < j < s.len() implies lt(
        #[trigger] s[i],
        #[trigger] s[j],
    ) by {
        if j < l.len() {
            assert(lt(l[i], l[j]));
        } else if j == l.len() {
            assert(lt(l[i], k));
        } else {
            let b = r[j - l.len() - 1];
            if i < l.len() {
                lemma_lt_transitive(l[i], k, b);
            } else if i == l.len() {
            } else {
                assert(lt(r[i - l.len() - 1], b));
            }
        }
    }
}

/// A filtered sequence holds what the sequence holds and the filter passes.
pub proof fn lemma_filter_holds<T>(s: Seq<T>, p: spec_fn(T) -> bool, x: T)
    ensures
        s.filter(p).contains(x) <==> s.contains(x) && p(x),
    decreases s.len(),
{
    reveal(Seq::filter);
    if s.len() > 0 {
        let init = s.drop_last();
        lemma_filter_holds(init, p, x);
        assert(init.push(s.last()) =~= s);
        lemma_contains_parts(init, s.last(), Seq::<T>::empty(), x);
        assert(init.push(s.last()) + Seq::<T>::empty() =~= s);
        if p(s.last()) {
            let kept = init.filter(p);
            lemma_contains_parts(kept, s.last(), Seq::<T>::empty(), x);
            assert(kept.push(s.last()) + Seq::<T>::empty() =~= kept.push(s.last()));
        }
    }
}

/// A sequence with a key added holds that key and what it held before.
pub proof fn lemma_with_key_holds<T: Ord>(s: Seq<T>, k: T, x: T)
    requires
        total_order::<T>(),
    ensures
        with_key(s, k).contains(x) <==> s.contains(x) || x == k,
{
    reveal(with_key);
    lemma_filter_holds(s, is_below(k), x);
    lemma_filter_holds(s, is_above(k), x);
    lemma_contains_parts(s.filter(is_below(k)), k, s.filter(is_above(k)), x);
    if x != k {
        lemma_lt_connected(x, k);
    }
}

/// A sequence with a key taken out holds what it held before but that key.
pub proof fn lemma_without_key_holds<T>(s: Seq<T>, k: T, x: T)
    ensures
        without_key(s, k).contains(x) <==> s.contains(x) && x != k,
{
    reveal(without_key);
    lemma_filter_holds(s, is_not(k), x);
}

/// Adding a key to an increasing sequence that holds it changes nothing.
pub proof fn lemma_with_key_present<T: Ord>(s: Seq<T>, k: T)
    requires
        total_order::<T>(),
        increasing(s),
        s.contains(k),
    ensures
        with_key(s, k) == s,
{
    let i = choose|i: int| 0 <= i < s.len() && s[i] == k;
    let l = s.take(i);
    let r = s.skip(i + 1);
    assert(l.push(k) + r =~= s);
    assert forall|j: int| 0 <= j < l.len() implies lt(#[trigger] l[j], k) by {
        assert(lt(s[j], s[i]));
    }
    assert forall|j: int| 0 <= j < r.len() implies lt(k, #[trigger] r[j]) by {
        assert(lt(s[i], s[i + 1 + j]));
    }
    lemma_with_key_middle(l, k, r);
}

/// Taking a key out of a sequence that does not hold it changes nothing.
pub proof fn lemma_without_key_absent<T>(s: Seq<T>, k: T)
    requires
        !s.contains(k),
    ensures
        without_key(s, k) == s,
{
    reveal(without_key);
    assert forall|i: int| 0 <= i < s.len() implies is_not(k)(#[trigger] s[i]) by {
        assert(s.contains(s[i]));
    }
    lemma_filter_keeps_all(s, is_not(k));
}

/// Taking the key at position `i` out of an increasing sequence removes
/// that one position.
pub proof fn lemma_without_key_at<T: Ord>(s: Seq<T>, i: int)
    requires
        total_order::<T>(),
        increasing(s),
        0 <= i < s.len(),
    ensures
        without_key(s, s[i]) == s.remove(i),
{
    let k = s[i];
    let l = s.take(i);
    let r = s.skip(i + 1);
    assert(l.push(k) + r =~= s);
    assert forall|j: int| 0 <= j < l.len() implies lt(#[trigger] l[j], k) by {
        assert(lt(s[j], s[i]));
    }
    assert forall|j: int| 0 <= j < r.len() implies lt(k, #[trigger] r[j]) by {
        assert(lt(s[i], s[i + 1 + j]));
    }
    lemma_without_key_middle(l, k, r);
    assert(l + r =~= s.remove(i));
}

/// `s` with the keys of `keys` added one after the other, the first one
/// first.
pub open spec fn with_keys<T: Ord>(s: Seq<T>, keys: Seq<T>) -> Seq<T>
    decreases keys.len(),
{
    if keys.len() == 0 {
        s
    } else {
        with_key(with_keys(s, keys.drop_last()), keys.last())
    }
}

/// `s` with the keys of `keys` taken out one after the other, the first one
/// first.
pub open spec fn without_keys<T>(s: Seq<T>, keys: Seq<T>) -> Seq<T>
    decreases keys.len(),
{
    if keys.len() == 0 {
        s
    } else {
        without_key(without_keys(s, keys.drop_last()), keys.last())
    }
}

/// After a run of additions a sequence holds what it held before and every
/// key that was added.
pub proof fn lemma_with_keys_holds<T: Ord>(s: Seq<T>, keys: Seq<T>, x: T)
    requires
        total_order::<T>(),
    ensures
        with_keys(s, keys).contains(x) <==> s.contains(x) || keys.contains(x),
    decreases keys.len(),
{
    if keys.len() > 0 {
        let init = keys.drop_last();
        lemma_with_keys_holds(s, init, x);
        lemma_with_key_holds(with_keys(s, init), keys.last(), x);
        lemma_contains_parts(init, keys.last(), Seq::<T>::empty(), x);
        assert(init.push(keys.last()) + Seq::<T>::empty() =~= keys);
    }
}

/// After a run of removals a sequence holds what it held before but for the
/// keys that were taken out.
pub proof fn lemma_without_keys_holds<T>(s: Seq<T>, keys: Seq<T>, x: T)
    ensures
        without_keys(s, keys).contains(x) <==> s.contains(x) && !keys.contains(x),
    decreases keys.len(),
{
    if keys.len() > 0 {
        let init = keys.drop_last();
        lemma_without_keys_holds(s, init, x);
        lemma_without_key_holds(without_keys(s, init), keys.last(), x);
        lemma_contains_parts(init, keys.last(), Seq::<T>::empty(), x);
        assert(init.push(keys.last()) + Seq::<T>::empty() =~= keys);
    }
}

/// Adding keys to nothing, in any order and any number of times, and then
/// taking each of them out, in any order, leaves nothing.
pub proof fn lemma_round_trip<T: Ord>(added: Seq<T>, removed: Seq<T>)
    requires
        total_order::<T>(),
        forall|k: T| added.contains(k) ==> removed.contains(k),
    ensures
        without_keys(with_keys(Seq::<T>::empty(), added), removed) == Seq::<T>::empty(),
{
    let full = with_keys(Seq::<T>::empty(), added);
    let rest = without_keys(full, removed);
    if rest.len() > 0 {
        let x = rest[0];
        assert(rest.contains(x));
        lemma_without_keys_holds(full, removed, x);
        lemma_with_keys_holds(Seq::<T>::empty(), added, x);
    }
    assert(rest =~= Seq::<T>::empty());
}

} // verus!

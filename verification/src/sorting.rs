//! Stable sorting by an integer key.

use vstd::prelude::*;

verus! {

/// A value that is ordered by a 64-bit key.
pub trait Keyed: Sized {
    /// The key by which values are ordered.
    spec fn key(&self) -> u64;

    /// Returns the key by which values are ordered.
    fn sort_key(&self) -> (k: u64)
        ensures
            k == self.key(),
    ;
}

/// Whether the keys never decrease along `s`.
pub open spec fn ordered<T: Keyed>(s: Seq<T>) -> bool {
    forall|i: int, j: int| 0 <= i <= j < s.len() ==> s[i].key() <= s[j].key()
}

/// `s` with `e` placed in front of the first element whose key is not
/// smaller than that of `e`.
pub open spec fn insert_ordered<T: Keyed>(e: T, s: Seq<T>) -> Seq<T>
    decreases s.len(),
{
    if s.len() == 0 || e.key() <= s[0].key() {
        seq![e] + s
    } else {
        seq![s[0]] + insert_ordered(e, s.drop_first())
    }
}

/// The elements of `s` in order of their keys; elements with equal keys keep
/// the order they have in `s`.
pub open spec fn stable_sorted<T: Keyed>(s: Seq<T>) -> Seq<T>
    decreases s.len(),
{
    if s.len() == 0 {
        s
    } else {
        insert_ordered(s[0], stable_sorted(s.drop_first()))
    }
}

/// Inserting at the first position whose key is not smaller is inserting at
/// the index that a scan from the front finds.
proof fn lemma_insert_at<T: Keyed>(e: T, s: Seq<T>, j: int)
    requires
        0 <= j <= s.len(),
        forall|i: int| 0 <= i < j ==> s[i].key() < e.key(),
        j < s.len() ==> e.key() <= s[j].key(),
    ensures
        insert_ordered(e, s) == s.insert(j, e),
    decreases j,
{
    if j == 0 {
        assert(seq![e] + s =~= s.insert(0, e));
    } else {
        let rest = s.drop_first();
        lemma_insert_at(e, rest, j - 1);
        assert(seq![s[0]] + rest.insert(j - 1, e) =~= s.insert(j, e));
    }
}

/// Inserting keeps the length, the elements and the order.
pub proof fn lemma_insert_ordered<T: Keyed>(e: T, s: Seq<T>)
    requires
        ordered(s),
    ensures
        ordered(insert_ordered(e, s)),
        insert_ordered(e, s).len() == s.len() + 1,
        insert_ordered(e, s).to_multiset() == s.to_multiset().insert(e),
    decreases s.len(),
{
    broadcast use vstd::seq_lib::group_to_multiset_ensures;

    let r = insert_ordered(e, s);
    if s.len() == 0 || e.key() <= s[0].key() {
        assert(r =~= seq![e] + s);
        assert forall|i: int, j: int| 0 <= i <= j < r.len() implies r[i].key() <= r[j].key() by {
            if i > 0 {
                assert(r[i] == s[i - 1] && r[j] == s[j - 1]);
            } else if j > 0 {
                assert(r[j] == s[j - 1]);
                assert(s[0].key() <= s[j - 1].key());
            }
        }
        assert(r =~= s.insert(0, e));
        vstd::seq_lib::to_multiset_insert(s, 0, e);
    } else {
        let rest = s.drop_first();
        assert(ordered(rest)) by {
            assert forall|i: int, j: int| 0 <= i <= j < rest.len() implies rest[i].key()
                <= rest[j].key() by {
                assert(rest[i] == s[i + 1] && rest[j] == s[j + 1]);
            }
        }
        lemma_insert_ordered(e, rest);
        let tail = insert_ordered(e, rest);
        assert(r =~= seq![s[0]] + tail);
        assert forall|k: int| 0 <= k < tail.len() implies s[0].key() <= (#[trigger] tail[k]).key() by {
            assert(tail.to_multiset().count(tail[k]) > 0) by {
                assert(tail.contains(tail[k]));
            }
            if tail[k] != e {
                assert(rest.to_multiset().count(tail[k]) > 0);
                assert(rest.contains(tail[k]));
                let m = choose|m: int| 0 <= m < rest.len() && rest[m] == tail[k];
                assert(rest[m] == s[m + 1]);
            }
        }
        assert forall|i: int, j: int| 0 <= i <= j < r.len() implies r[i].key() <= r[j].key() by {
            if i > 0 {
                assert(r[i] == tail[i - 1] && r[j] == tail[j - 1]);
            } else if j > 0 {
                assert(r[j] == tail[j - 1]);
            }
        }
        assert(r =~= tail.insert(0, s[0]));
        vstd::seq_lib::to_multiset_insert(tail, 0, s[0]);
        assert(s =~= rest.insert(0, s[0]));
        vstd::seq_lib::to_multiset_insert(rest, 0, s[0]);
        assert(r.to_multiset() =~= s.to_multiset().insert(e));
    }
}

/// Sorting keeps the length and the elements, and its result is ordered.
pub proof fn lemma_stable_sorted<T: Keyed>(s: Seq<T>)
    ensures
        ordered(stable_sorted(s)),
        stable_sorted(s).len() == s.len(),
        stable_sorted(s).to_multiset() == s.to_multiset(),
    decreases s.len(),
{
    broadcast use vstd::seq_lib::group_to_multiset_ensures;

    if s.len() == 0 {
    } else {
        let rest = s.drop_first();
        lemma_stable_sorted(rest);
        lemma_insert_ordered(s[0], stable_sorted(rest));
        assert(s =~= rest.insert(0, s[0]));
        vstd::seq_lib::to_multiset_insert(rest, 0, s[0]);
    }
}

/// The number of elements at the front of `s` whose keys are smaller than
/// that of `e`.
pub open spec fn rank<T: Keyed>(e: T, s: Seq<T>) -> int
    decreases s.len(),
{
    if s.len() == 0 || e.key() <= s[0].key() {
        0
    } else {
        1 + rank(e, s.drop_first())
    }
}

proof fn lemma_rank<T: Keyed>(e: T, s: Seq<T>)
    ensures
        0 <= rank(e, s) <= s.len(),
        forall|i: int| 0 <= i < rank(e, s) ==> (#[trigger] s[i]).key() < e.key(),
        insert_ordered(e, s) == s.take(rank(e, s)) + seq![e] + s.skip(rank(e, s)),
    decreases s.len(),
{
    if s.len() == 0 || e.key() <= s[0].key() {
        assert(seq![e] + s =~= s.take(0) + seq![e] + s.skip(0));
    } else {
        let rest = s.drop_first();
        lemma_rank(e, rest);
        let q = rank(e, rest);
        assert forall|i: int| 0 <= i < q + 1 implies (#[trigger] s[i]).key() < e.key() by {
            if i > 0 {
                assert(s[i] == rest[i - 1]);
            }
        }
        assert(seq![s[0]] + (rest.take(q) + seq![e] + rest.skip(q)) =~= s.take(q + 1) + seq![e]
            + s.skip(q + 1));
    }
}

/// Nothing is left of an empty sequence.
pub proof fn lemma_filter_none<T>(pred: spec_fn(T) -> bool)
    ensures
        Seq::<T>::empty().filter(pred) == Seq::<T>::empty(),
{
    reveal_with_fuel(Seq::filter, 1);
}

/// What is left of a sequence of one element is that element, if it meets
/// `pred`, and nothing otherwise.
pub proof fn lemma_filter_one<T>(e: T, pred: spec_fn(T) -> bool)
    ensures
        seq![e].filter(pred) == if pred(e) {
            seq![e]
        } else {
            Seq::<T>::empty()
        },
{
    reveal_with_fuel(Seq::filter, 2);
    assert(seq![e].drop_last() =~= Seq::<T>::empty());
    if pred(e) {
        assert(Seq::<T>::empty().push(e) =~= seq![e]);
    }
}

/// Sorting keeps the elements of one kind in the order they have, if their
/// keys are in order already: where the keys never decrease along the
/// elements of `s` that meet `pred`, those elements stand in the sorted
/// sequence as they stand in `s`.
pub proof fn lemma_sort_keeps_line<T: Keyed>(s: Seq<T>, pred: spec_fn(T) -> bool)
    requires
        ordered(s.filter(pred)),
    ensures
        stable_sorted(s).filter(pred) == s.filter(pred),
    decreases s.len(),
{
    broadcast use vstd::seq_lib::group_to_multiset_ensures;

    if s.len() > 0 {
        let e = s[0];
        let tail = s.drop_first();
        let t = stable_sorted(tail);
        let line = s.filter(pred);
        let tail_line = tail.filter(pred);
        assert(s =~= seq![e] + tail);
        Seq::filter_distributes_over_add(seq![e], tail, pred);
        lemma_filter_one(e, pred);
        assert(ordered(tail_line)) by {
            assert forall|i: int, j: int| 0 <= i <= j < tail_line.len() implies tail_line[i].key()
                <= tail_line[j].key() by {
                if pred(e) {
                    assert(line[i + 1] == tail_line[i] && line[j + 1] == tail_line[j]);
                }
            }
        }
        lemma_sort_keeps_line(tail, pred);
        lemma_stable_sorted(tail);
        lemma_rank(e, t);
        let q = rank(e, t);
        let front = t.take(q);
        let back = t.skip(q);
        assert(t =~= front + back);
        Seq::filter_distributes_over_add(front, back, pred);
        Seq::filter_distributes_over_add(front + seq![e], back, pred);
        Seq::filter_distributes_over_add(front, seq![e], pred);
        if pred(e) {
            let front_line = front.filter(pred);
            if front_line.len() > 0 {
                let x = front_line[0];
                front.lemma_filter_pred(pred, 0);
                assert(front_line.contains(x));
                front.lemma_filter_contains_rev(pred, x);
                let i = choose|i: int| 0 <= i < front.len() && front[i] == x;
                assert(front[i] == t[i]);
                assert(x.key() < e.key());
                assert(t.contains(x));
                assert(t.to_multiset().count(x) > 0);
                assert(tail.to_multiset().count(x) > 0);
                assert(tail.contains(x));
                let m = choose|m: int| 0 <= m < tail.len() && tail[m] == x;
                tail.lemma_filter_contains(pred, m);
                let at = choose|at: int| 0 <= at < tail_line.len() && tail_line[at] == x;
                assert(line[0] == e && line[at + 1] == x);
                assert(false);
            }
            assert(front_line =~= Seq::<T>::empty());
            assert(stable_sorted(s).filter(pred) =~= line);
        } else {
            assert(stable_sorted(s).filter(pred) =~= line);
        }
    }
}

/// Sorts `v` by key, in place. The sort is stable.
pub fn sort_in_place<T: Keyed>(v: &mut Vec<T>)
    ensures
        final(v)@ == stable_sorted(old(v)@),
        ordered(final(v)@),
        final(v)@.len() == old(v)@.len(),
        final(v)@.to_multiset() == old(v)@.to_multiset(),
{
    let ghost all = v@;
    let n = v.len();
    let mut k: usize = n;
    proof {
        assert(all.skip(n as int) =~= Seq::<T>::empty());
    }
    while k > 0
        invariant
            k <= n,
            n == all.len(),
            v@.len() == n,
            v@.take(k as int) == all.take(k as int),
            v@.skip(k as int) == stable_sorted(all.skip(k as int)),
        decreases k,
    {
        let ghost whole = v@;
        let ghost suffix = v@.skip(k as int);
        proof {
            assert(whole[k - 1] == whole.take(k as int)[k - 1]);
            lemma_stable_sorted(all.skip(k as int));
        }
        let e = v.remove(k - 1);
        let key = e.sort_key();
        let mut j: usize = k - 1;
        proof {
            assert(v@.skip(k - 1) =~= suffix);
            assert(v@.take(k - 1) =~= all.take(k - 1));
        }
        while j < v.len() && v[j].sort_key() < key
            invariant
                1 <= k <= n,
                k - 1 <= j <= v@.len(),
                v@.len() == n - 1,
                key == e.key(),
                v@.skip(k - 1) == suffix,
                forall|i: int| k - 1 <= i < j ==> v@[i].key() < e.key(),
            decreases v@.len() - j,
        {
            j += 1;
        }
        let ghost rest = v@;
        proof {
            assert forall|i: int| 0 <= i < j - (k - 1) implies suffix[i].key() < e.key() by {
                assert(suffix[i] == rest[k - 1 + i]);
            }
            if j < rest.len() {
                assert(suffix[j - (k - 1)] == rest[j as int]);
            }
            lemma_insert_at(e, suffix, j - (k - 1));
        }
        v.insert(j, e);
        proof {
            let longer = all.skip(k - 1);
            assert(longer[0] == e);
            assert(longer.drop_first() =~= all.skip(k as int));
            assert(v@.skip(k - 1) =~= suffix.insert(j - (k - 1), e));
            assert(v@.take(k - 1) =~= all.take(k - 1));
        }
        k -= 1;
    }
    proof {
        assert(v@.skip(0) =~= v@);
        assert(all.skip(0) =~= all);
        lemma_stable_sorted(all);
    }
}

/// Sorts `v` by key. The sort is stable.
pub fn sort_by_key<T: Keyed>(v: Vec<T>) -> (out: Vec<T>)
    ensures
        out@ == stable_sorted(v@),
        ordered(out@),
        out@.len() == v@.len(),
        out@.to_multiset() == v@.to_multiset(),
{
    let mut out = v;
    sort_in_place(&mut out);
    out
}

} // verus!

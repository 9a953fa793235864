//! A stable sort, specified once and reused for records, groups and indices:
//! `spec_stable_sort` is insertion sort at the specification level, placing
//! each element after every earlier element that compares at-or-before it, so
//! equal elements keep their original order.
use vstd::multiset::Multiset;
use vstd::prelude::*;

verus! {

/// Inserts `x` after every leading element `y` of `s` with `le(y, x)`.
pub open spec fn spec_stable_insert<T>(s: Seq<T>, x: T, le: spec_fn(T, T) -> bool) -> Seq<T>
    decreases s.len(),
{
    if s.len() == 0 {
        seq![x]
    } else if le(s[0], x) {
        seq![s[0]] + spec_stable_insert(s.subrange(1, s.len() as int), x, le)
    } else {
        seq![x] + s
    }
}

/// The stable sort of `s` under `le`: each element inserted, left to right,
/// after its equals.
pub open spec fn spec_stable_sort<T>(s: Seq<T>, le: spec_fn(T, T) -> bool) -> Seq<T>
    decreases s.len(),
{
    if s.len() == 0 {
        Seq::<T>::empty()
    } else {
        spec_stable_insert(spec_stable_sort(s.drop_last(), le), s.last(), le)
    }
}

/// Inserting into a sequence whose first `j` elements all sort at-or-before
/// `x`, with the element at `j` (if any) after `x`, places `x` at index `j`.
pub proof fn lemma_stable_insert_at<T>(s: Seq<T>, x: T, le: spec_fn(T, T) -> bool, j: int)
    requires
        0 <= j <= s.len(),
        forall|k: int| 0 <= k < j ==> le(#[trigger] s[k], x),
        j < s.len() ==> !le(s[j], x),
    ensures
        spec_stable_insert(s, x, le) == s.subrange(0, j) + seq![x] + s.subrange(j, s.len() as int),
    decreases j,
{
    if j == 0 {
        if s.len() == 0 {
            assert(spec_stable_insert(s, x, le) =~= s.subrange(0, 0) + seq![x] + s.subrange(
                0,
                s.len() as int,
            ));
        } else {
            assert(spec_stable_insert(s, x, le) =~= s.subrange(0, 0) + seq![x] + s.subrange(
                0,
                s.len() as int,
            ));
        }
    } else {
        let rest = s.subrange(1, s.len() as int);
        assert(forall|k: int| 0 <= k < j - 1 ==> le(#[trigger] rest[k], x));
        lemma_stable_insert_at(rest, x, le, j - 1);
        assert(spec_stable_insert(s, x, le) =~= s.subrange(0, j) + seq![x] + s.subrange(
            j,
            s.len() as int,
        )) by {
            assert(rest.subrange(0, j - 1) =~= s.subrange(1, j));
            assert(rest.subrange(j - 1, rest.len() as int) =~= s.subrange(j, s.len() as int));
        }
    }
}

/// Sorting a sequence extended by one element is inserting that element into
/// the sorted rest.
pub proof fn lemma_stable_sort_push<T>(s: Seq<T>, x: T, le: spec_fn(T, T) -> bool)
    ensures
        spec_stable_sort(s.push(x), le) == spec_stable_insert(spec_stable_sort(s, le), x, le),
{
    assert(s.push(x).drop_last() =~= s);
    assert(s.push(x).last() == x);
}

/// Inserting adds exactly the new element to the sequence's contents.
pub proof fn lemma_stable_insert_multiset<T>(s: Seq<T>, x: T, le: spec_fn(T, T) -> bool)
    ensures
        spec_stable_insert(s, x, le).to_multiset() == s.to_multiset().insert(x),
    decreases s.len(),
{
    broadcast use vstd::seq_lib::group_to_multiset_ensures;

    if s.len() == 0 {
        assert(seq![x] =~= Seq::<T>::empty().push(x));
        assert(seq![x].to_multiset() =~= s.to_multiset().insert(x));
    } else if le(s[0], x) {
        let rest = s.subrange(1, s.len() as int);
        lemma_stable_insert_multiset(rest, x, le);
        vstd::seq_lib::lemma_multiset_commutative(seq![s[0]], spec_stable_insert(rest, x, le));
        vstd::seq_lib::lemma_multiset_commutative(seq![s[0]], rest);
        assert(s =~= seq![s[0]] + rest);
        assert(spec_stable_insert(s, x, le).to_multiset() =~= s.to_multiset().insert(x));
    } else {
        vstd::seq_lib::lemma_multiset_commutative(seq![x], s);
        assert(seq![x].to_multiset() =~= Multiset::<T>::empty().insert(x));
        assert(spec_stable_insert(s, x, le).to_multiset() =~= s.to_multiset().insert(x));
    }
}

/// Law: the stable sort is a permutation — it holds exactly the input's
/// elements, each as often as the input does.
pub proof fn lemma_stable_sort_permutes<T>(s: Seq<T>, le: spec_fn(T, T) -> bool)
    ensures
        spec_stable_sort(s, le).to_multiset() == s.to_multiset(),
    decreases s.len(),
{
    broadcast use vstd::seq_lib::group_to_multiset_ensures;

    if s.len() > 0 {
        lemma_stable_sort_permutes(s.drop_last(), le);
        lemma_stable_insert_multiset(spec_stable_sort(s.drop_last(), le), s.last(), le);
        assert(s =~= s.drop_last().push(s.last()));
        assert(s.to_multiset() =~= s.drop_last().to_multiset().insert(s.last()));
    }
}

/// Inserting into a sequence sorted under a total order keeps it sorted.
pub proof fn lemma_stable_insert_sorted<T>(s: Seq<T>, x: T, le: spec_fn(T, T) -> bool)
    requires
        vstd::relations::sorted_by(s, le),
        vstd::relations::strongly_connected(le),
        vstd::relations::transitive(le),
    ensures
        vstd::relations::sorted_by(spec_stable_insert(s, x, le), le),
    decreases s.len(),
{
    if s.len() == 0 {
    } else if le(s[0], x) {
        let rest = s.subrange(1, s.len() as int);
        assert(vstd::relations::sorted_by(rest, le)) by {
            assert(forall|i: int, j: int| 0 <= i < j < rest.len() ==> le(#[trigger] rest[i], #[trigger] rest[j]));
        }
        lemma_stable_insert_sorted(rest, x, le);
        let r = spec_stable_insert(s, x, le);
        let ri = spec_stable_insert(rest, x, le);
        assert(r =~= seq![s[0]] + ri);
        lemma_stable_insert_multiset(rest, x, le);
        assert forall|i: int, j: int| 0 <= i < j < r.len() implies le(
            #[trigger] r[i],
            #[trigger] r[j],
        ) by {
            if i == 0 {
                broadcast use vstd::seq_lib::group_to_multiset_ensures;

                assert(r.len() == 1 + ri.len());
                assert(r[j] == ri[j - 1]);
                assert(ri.to_multiset() == rest.to_multiset().insert(x));
                assert(ri.to_multiset().count(ri[j - 1]) > 0);
                if ri[j - 1] == x {
                    assert(le(s[0], r[j]));
                } else {
                    assert(rest.to_multiset().count(ri[j - 1]) > 0);
                    assert(rest.contains(ri[j - 1]));
                    let t = choose|t: int| 0 <= t < rest.len() && rest[t] == ri[j - 1];
                    assert(le(s[0], s[t + 1]));
                }
            } else {
                assert(r[i] == ri[i - 1]);
                assert(r[j] == ri[j - 1]);
                assert(le(ri[i - 1], ri[j - 1]));
            }
        }
    } else {
        let r = spec_stable_insert(s, x, le);
        assert(r =~= seq![x] + s);
        assert(le(x, s[0]));
        assert forall|i: int, j: int| 0 <= i < j < r.len() implies le(
            #[trigger] r[i],
            #[trigger] r[j],
        ) by {
            if i == 0 {
                assert(r[j] == s[j - 1]);
                if j > 1 {
                    assert(le(s[0], s[j - 1]));
                    assert(le(x, s[j - 1]));
                }
            } else {
                assert(r[i] == s[i - 1]);
                assert(r[j] == s[j - 1]);
                assert(le(s[i - 1], s[j - 1]));
            }
        }
    }
}

/// Law: under a relation that orders every pair one way or the other, the
/// stable sort's output is sorted.
pub proof fn lemma_stable_sort_sorted<T>(s: Seq<T>, le: spec_fn(T, T) -> bool)
    requires
        vstd::relations::strongly_connected(le),
        vstd::relations::transitive(le),
    ensures
        vstd::relations::sorted_by(spec_stable_sort(s, le), le),
    decreases s.len(),
{
    if s.len() > 0 {
        lemma_stable_sort_sorted(s.drop_last(), le);
        lemma_stable_insert_sorted(spec_stable_sort(s.drop_last(), le), s.last(), le);
    }
}

/// Sorts an index list ascending, stably.
pub fn sort_usizes(v: &mut Vec<usize>)
    ensures
        final(v)@ == spec_stable_sort(old(v)@, |a: usize, b: usize| a <= b),
{
    let ghost le = |a: usize, b: usize| a <= b;
    let mut out: Vec<usize> = Vec::new();
    let mut i: usize = 0;
    while i < v.len()
        invariant
            i <= v@.len(),
            out@ == spec_stable_sort(v@.subrange(0, i as int), le),
            le == (|a: usize, b: usize| a <= b),
        decreases v@.len() - i,
    {
        let x = v[i];
        let mut j: usize = 0;
        while j < out.len() && out[j] <= x
            invariant
                j <= out@.len(),
                forall|k: int| 0 <= k < j ==> le(#[trigger] out@[k], x),
                le == (|a: usize, b: usize| a <= b),
            decreases out@.len() - j,
        {
            j = j + 1;
        }
        proof {
            lemma_stable_insert_at(out@, x, le, j as int);
            assert(v@.subrange(0, i + 1) =~= v@.subrange(0, i as int).push(v@[i as int]));
            lemma_stable_sort_push(v@.subrange(0, i as int), v@[i as int], le);
        }
        out.insert(j, x);
        proof {
            assert(out@ =~= out@.subrange(0, j as int) + seq![out@[j as int]] + out@.subrange(
                j + 1,
                out@.len() as int,
            ));
        }
        i = i + 1;
    }
    proof {
        assert(v@.subrange(0, v@.len() as int) =~= v@);
    }
    *v = out;
}

/// Whether an index list holds `x`.
pub fn contains_usize(v: &Vec<usize>, x: usize) -> (r: bool)
    ensures
        r == v@.contains(x),
{
    let mut i: usize = 0;
    while i < v.len()
        invariant
            i <= v@.len(),
            forall|k: int| 0 <= k < i ==> v@[k] != x,
        decreases v@.len() - i,
    {
        if v[i] == x {
            return true;
        }
        i = i + 1;
    }
    false
}

/// Inserts `x` into a strictly increasing index list, keeping it strictly
/// increasing; a present value is left alone.
pub fn insert_unique_usize(v: &mut Vec<usize>, x: usize)
    requires
        forall|k: int, l: int| 0 <= k < l < old(v)@.len() ==> old(v)@[k] < old(v)@[l],
    ensures
        forall|k: int, l: int| 0 <= k < l < final(v)@.len() ==> final(v)@[k] < final(v)@[l],
        forall|y: usize| final(v)@.contains(y) == (old(v)@.contains(y) || y == x),
{
    let mut j: usize = 0;
    while j < v.len() && v[j] < x
        invariant
            j <= v@.len(),
            v@ == old(v)@,
            forall|k: int| 0 <= k < j ==> v@[k] < x,
        decreases v@.len() - j,
    {
        j = j + 1;
    }
    if j < v.len() && v[j] == x {
        proof {
            assert(v@.contains(x));
        }
        return ;
    }
    let ghost pre = v@;
    v.insert(j, x);
    proof {
        assert(v@ =~= pre.subrange(0, j as int) + seq![x] + pre.subrange(
            j as int,
            pre.len() as int,
        ));
        assert(v@.len() == pre.len() + 1);
        assert(v@[j as int] == x);
        assert(forall|k2: int| 0 <= k2 < j ==> v@[k2] == pre[k2]);
        assert(forall|k2: int| j < k2 < v@.len() ==> v@[k2] == pre[k2 - 1]);
        assert forall|k: int, l: int| 0 <= k < l < v@.len() implies v@[k] < v@[l] by {
            assert(j < pre.len() ==> x < pre[j as int]);
        }
        assert forall|y: usize| v@.contains(y) == (pre.contains(y) || y == x) by {
            if v@.contains(y) {
                let k = choose|k: int| 0 <= k < v@.len() && v@[k] == y;
                if k < j {
                    assert(pre[k] == y);
                    assert(pre.contains(y));
                } else if k > j {
                    assert(pre[k - 1] == y);
                    assert(pre.contains(y));
                } else {
                    assert(y == x);
                }
            }
            if pre.contains(y) {
                let k = choose|k: int| 0 <= k < pre.len() && pre[k] == y;
                if k < j {
                    assert(v@[k] == y);
                } else {
                    assert(v@[k + 1] == y);
                }
                assert(v@.contains(y));
            }
            if y == x {
                assert(v@[j as int] == y);
                assert(v@.contains(y));
            }
        }
    }
}

} // verus!

//! Stable sorting by a total preorder.
use vstd::prelude::*;

verus! {

/// `le` is a total preorder: total and transitive.
pub open spec fn total_preorder<T>(le: spec_fn(T, T) -> bool) -> bool {
    &&& forall|a: T, b: T| #[trigger] le(a, b) || #[trigger] le(b, a)
    &&& forall|a: T, b: T, c: T| #[trigger] le(a, b) && #[trigger] le(b, c) ==> le(a, c)
}

/// Every element is `le` every later one.
pub open spec fn sorted_by<T>(s: Seq<T>, le: spec_fn(T, T) -> bool) -> bool {
    forall|i: int, j: int| 0 <= i < j < s.len() ==> le(#[trigger] s[i], #[trigger] s[j])
}

/// Length of the longest prefix of `s` whose elements are all `le` `x`: where
/// a stable insertion puts `x` into a sorted `s`.
pub open spec fn insert_pos<T>(s: Seq<T>, x: T, le: spec_fn(T, T) -> bool) -> nat
    decreases s.len(),
{
    if s.len() > 0 && le(s[0], x) {
        1 + insert_pos(s.drop_first(), x, le)
    } else {
        0
    }
}

/// Stable sort: each element, in input order, goes after every element
/// already placed that is not greater than it.
pub open spec fn stable_sort<T>(s: Seq<T>, le: spec_fn(T, T) -> bool) -> Seq<T>
    decreases s.len(),
{
    if s.len() == 0 {
        Seq::empty()
    } else {
        let r = stable_sort(s.drop_last(), le);
        r.insert(insert_pos(r, s.last(), le) as int, s.last())
    }
}

pub proof fn lemma_insert_pos<T>(s: Seq<T>, x: T, le: spec_fn(T, T) -> bool)
    ensures
        insert_pos(s, x, le) <= s.len(),
        forall|i: int| 0 <= i < insert_pos(s, x, le) ==> le(#[trigger] s[i], x),
        insert_pos(s, x, le) < s.len() ==> !le(s[insert_pos(s, x, le) as int], x),
    decreases s.len(),
{
    if s.len() > 0 && le(s[0], x) {
        lemma_insert_pos(s.drop_first(), x, le);
        assert forall|i: int| 0 <= i < insert_pos(s, x, le) implies le(#[trigger] s[i], x) by {
            if i > 0 {
                assert(s[i] == s.drop_first()[i - 1]);
            }
        }
        if insert_pos(s, x, le) < s.len() {
            assert(s[insert_pos(s, x, le) as int] == s.drop_first()[insert_pos(
                s.drop_first(),
                x,
                le,
            ) as int]);
        }
    }
}

proof fn lemma_insert_sorted<T>(s: Seq<T>, x: T, le: spec_fn(T, T) -> bool)
    requires
        total_preorder(le),
        sorted_by(s, le),
    ensures
        sorted_by(s.insert(insert_pos(s, x, le) as int, x), le),
        s.insert(insert_pos(s, x, le) as int, x).to_multiset() =~= s.to_multiset().insert(x),
{
    lemma_insert_pos(s, x, le);
    let p = insert_pos(s, x, le) as int;
    let r = s.insert(p, x);
    assert forall|i: int, j: int| 0 <= i < j < r.len() implies le(#[trigger] r[i], #[trigger] r[j]) by {
        if j < p {
            assert(r[i] == s[i] && r[j] == s[j]);
        } else if j == p {
            assert(r[i] == s[i]);
        } else if i < p {
            assert(r[i] == s[i] && r[j] == s[j - 1]);
            assert(le(s[p], s[j - 1]) || p == j - 1);
            assert(!le(s[p], x));
            assert(le(x, s[p]));
            if p < j - 1 {
                assert(le(s[i], x));
                assert(le(x, s[j - 1]));
            } else {
                assert(le(s[i], x));
            }
        } else if i == p {
            assert(r[j] == s[j - 1]);
            assert(!le(s[p], x));
            assert(le(x, s[p]));
            if p < j - 1 {
                assert(le(s[p], s[j - 1]));
            }
        } else {
            assert(r[i] == s[i - 1] && r[j] == s[j - 1]);
        }
    }
    assert(r.remove(p) =~= s);
    broadcast use vstd::seq_lib::group_to_multiset_ensures;

    assert(r[p] == x);
    assert(r.remove(p).to_multiset() =~= r.to_multiset().remove(x));
    assert(r.contains(x));
    assert(r.to_multiset().count(x) > 0);
}

/// A stable sort orders its elements and keeps them all.
pub proof fn lemma_stable_sort<T>(s: Seq<T>, le: spec_fn(T, T) -> bool)
    requires
        total_preorder(le),
    ensures
        sorted_by(stable_sort(s, le), le),
        stable_sort(s, le).to_multiset() =~= s.to_multiset(),
        stable_sort(s, le).len() == s.len(),
    decreases s.len(),
{
    broadcast use vstd::seq_lib::group_to_multiset_ensures;

    if s.len() > 0 {
        lemma_stable_sort(s.drop_last(), le);
        let r = stable_sort(s.drop_last(), le);
        lemma_insert_sorted(r, s.last(), le);
        lemma_insert_pos(r, s.last(), le);
        assert(s.drop_last().push(s.last()) =~= s);
    }
}

/// Sorts a vector stably by an executable order that agrees with `spec_le`.
pub fn sort_stable<T, F: Fn(&T, &T) -> bool>(
    v: Vec<T>,
    le: F,
    Ghost(spec_le): Ghost<spec_fn(T, T) -> bool>,
) -> (r: Vec<T>)
    requires
        forall|a: T, b: T| #[trigger] le.requires((&a, &b)),
        forall|a: T, b: T, res: bool| le.ensures((&a, &b), res) ==> res == spec_le(a, b),
    ensures
        r@ == stable_sort(v@, spec_le),
{
    let mut out: Vec<T> = Vec::new();
    let mut rest = v;
    let ghost orig = rest@;
    assert(orig.len() == rest.len());
    let mut n: usize = 0;
    while rest.len() > 0
        invariant
            forall|a: T, b: T| #[trigger] le.requires((&a, &b)),
            forall|a: T, b: T, res: bool| le.ensures((&a, &b), res) ==> res == spec_le(a, b),
            rest@ == orig.skip(n as int),
            n + rest.len() == orig.len(),
            orig.len() <= usize::MAX,
            out@ == stable_sort(orig.take(n as int), spec_le),
        decreases rest.len(),
    {
        let x = rest.remove(0);
        assert(rest@ =~= orig.skip(n + 1));
        assert(out@.skip(0) =~= out@);
        let mut p: usize = 0;
        while p < out.len() && le(&out[p], &x)
            invariant
                forall|a: T, b: T| #[trigger] le.requires((&a, &b)),
                forall|a: T, b: T, res: bool| le.ensures((&a, &b), res) ==> res == spec_le(a, b),
                p <= out.len(),
                insert_pos(out@, x, spec_le) == p + insert_pos(out@.skip(p as int), x, spec_le),
            decreases out.len() - p,
        {
            assert(out@.skip(p as int).drop_first() =~= out@.skip(p + 1));
            p = p + 1;
        }
        proof {
            if p < out.len() {
                assert(out@.skip(p as int)[0] == out@[p as int]);
            }
            assert(insert_pos(out@.skip(p as int), x, spec_le) == 0);
            assert(orig.take(n + 1).drop_last() =~= orig.take(n as int));
            assert(orig.take(n + 1).last() == orig[n as int]);
            assert(orig.skip(n as int)[0] == x);
        }
        out.insert(p, x);
        n = n + 1;
    }
    assert(orig.take(orig.len() as int) =~= orig);
    out
}

/// Sorting commutes with a map that carries one order to the other.
pub proof fn lemma_stable_sort_map<T, V>(
    v: Seq<T>,
    le_t: spec_fn(T, T) -> bool,
    le_v: spec_fn(V, V) -> bool,
    f: spec_fn(T) -> V,
)
    requires
        forall|a: T, b: T| #[trigger] le_t(a, b) == le_v(f(a), f(b)),
    ensures
        stable_sort(v, le_t).map_values(f) == stable_sort(v.map_values(f), le_v),
    decreases v.len(),
{
    if v.len() > 0 {
        lemma_stable_sort_map(v.drop_last(), le_t, le_v, f);
        let r = stable_sort(v.drop_last(), le_t);
        assert(v.map_values(f).drop_last() =~= v.drop_last().map_values(f));
        lemma_insert_pos_map(r, v.last(), le_t, le_v, f);
        lemma_insert_pos(r, v.last(), le_t);
        let p = insert_pos(r, v.last(), le_t) as int;
        assert(r.insert(p, v.last()).map_values(f) =~= r.map_values(f).insert(p, f(v.last())));
    }
}

proof fn lemma_insert_pos_map<T, V>(
    r: Seq<T>,
    x: T,
    le_t: spec_fn(T, T) -> bool,
    le_v: spec_fn(V, V) -> bool,
    f: spec_fn(T) -> V,
)
    requires
        forall|a: T, b: T| #[trigger] le_t(a, b) == le_v(f(a), f(b)),
    ensures
        insert_pos(r, x, le_t) == insert_pos(r.map_values(f), f(x), le_v),
    decreases r.len(),
{
    if r.len() > 0 {
        lemma_insert_pos_map(r.drop_first(), x, le_t, le_v, f);
        assert(r.map_values(f).drop_first() =~= r.drop_first().map_values(f));
        assert(le_t(r[0], x) == le_v(f(r[0]), f(x)));
    }
}

} // verus!

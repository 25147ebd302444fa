use vstd::prelude::*;

verus! {

/// `le` is a total preorder: reflexive, transitive and total.
pub open spec fn total_preorder<T>(le: spec_fn(T, T) -> bool) -> bool {
    &&& forall|a: T| #[trigger] le(a, a)
    &&& forall|a: T, b: T, c: T| #[trigger] le(a, b) && #[trigger] le(b, c) ==> le(a, c)
    &&& forall|a: T, b: T| #[trigger] le(a, b) || le(b, a)
}

/// Every element of `s` is `le` every later element.
pub open spec fn sorted_by<T>(s: Seq<T>, le: spec_fn(T, T) -> bool) -> bool {
    forall|i: int, j: int| 0 <= i < j < s.len() ==> le(#[trigger] s[i], #[trigger] s[j])
}

/// The elements that `le` ranks equal to `t`.
pub open spec fn tied_with<T>(le: spec_fn(T, T) -> bool, t: T) -> spec_fn(T) -> bool {
    |x: T| le(x, t) && le(t, x)
}

/// `r` is `s` sorted by `le`, where elements that `le` ranks equal keep the order
/// they had in `s`. For a total preorder this determines `r` from `s`.
pub open spec fn is_stable_sort_of<T>(r: Seq<T>, s: Seq<T>, le: spec_fn(T, T) -> bool) -> bool {
    &&& sorted_by(r, le)
    &&& forall|t: T| #[trigger] r.filter(tied_with(le, t)) == s.filter(tied_with(le, t))
}

/// A filter that nothing passes yields the empty sequence.
pub proof fn lemma_filter_none<T>(s: Seq<T>, p: spec_fn(T) -> bool)
    requires
        forall|i: int| 0 <= i < s.len() ==> !p(#[trigger] s[i]),
    ensures
        s.filter(p) == Seq::<T>::empty(),
    decreases s.len(),
{
    reveal(Seq::filter);
    if s.len() > 0 {
        lemma_filter_none(s.drop_last(), p);
    }
}

/// Filtering a sequence with one more element at its end.
pub proof fn lemma_filter_push<T>(s: Seq<T>, x: T, p: spec_fn(T) -> bool)
    ensures
        s.push(x).filter(p) == (if p(x) { s.filter(p).push(x) } else { s.filter(p) }),
{
    reveal(Seq::filter);
    assert(s.push(x).drop_last() =~= s);
}

/// Inserting `x` behind every element ranked at most `x`, and in front of every element
/// ranked above it, keeps a stable sort stable.
proof fn lemma_insert_keeps_stable<T>(r: Seq<T>, s: Seq<T>, x: T, j: int, le: spec_fn(T, T) -> bool)
    requires
        total_preorder(le),
        is_stable_sort_of(r, s, le),
        0 <= j <= r.len(),
        j > 0 ==> le(r[j - 1], x),
        forall|k: int| j <= k < r.len() ==> !le(#[trigger] r[k], x),
    ensures
        is_stable_sort_of(r.insert(j, x), s.push(x), le),
{
    let r2 = r.insert(j, x);
    assert forall|a: int, b: int| 0 <= a < b < r2.len() implies le(#[trigger] r2[a], #[trigger] r2[b]) by {
        if b < j {
            assert(r2[a] == r[a] && r2[b] == r[b]);
        } else if b == j {
            assert(r2[a] == r[a]);
            if a < j - 1 {
                assert(le(r[a], r[j - 1]));
            }
        } else if a == j {
            assert(r2[b] == r[b - 1]);
            assert(!le(r[b - 1], x));
            assert(le(r[b - 1], x) || le(x, r[b - 1]));
        } else if a < j {
            assert(r2[a] == r[a] && r2[b] == r[b - 1]);
        } else {
            assert(r2[a] == r[a - 1] && r2[b] == r[b - 1]);
        }
    }
    assert(r2 =~= r.take(j) + seq![x] + r.skip(j));
    assert(r =~= r.take(j) + r.skip(j));
    assert forall|t: T| #[trigger] r2.filter(tied_with(le, t)) == s.push(x).filter(tied_with(le, t)) by {
        let p = tied_with(le, t);
        Seq::filter_distributes_over_add(r.take(j) + seq![x], r.skip(j), p);
        Seq::filter_distributes_over_add(r.take(j), seq![x], p);
        Seq::filter_distributes_over_add(r.take(j), r.skip(j), p);
        lemma_filter_push(s, x, p);
        lemma_filter_push(Seq::<T>::empty(), x, p);
        assert(Seq::<T>::empty().push(x) =~= seq![x]);
        reveal(Seq::filter);
        assert(Seq::<T>::empty().filter(p) =~= Seq::<T>::empty());
        if p(x) {
            assert forall|i: int| 0 <= i < r.skip(j).len() implies !p(#[trigger] r.skip(j)[i]) by {
                assert(r.skip(j)[i] == r[j + i]);
                if p(r[j + i]) {
                    assert(le(r[j + i], t) && le(t, x));
                }
            }
            lemma_filter_none(r.skip(j), p);
            assert(r2.filter(p) =~= r.filter(p).push(x));
        } else {
            assert(r2.filter(p) =~= r.filter(p));
        }
    }
}

/// Sorts `v` stably: `in_order(a, b)` tells whether `a` may stand before `b`, and `le`
/// is what it computes.
pub fn sort_stable<T, F: Fn(&T, &T) -> bool>(
    v: Vec<T>,
    in_order: F,
    Ghost(le): Ghost<spec_fn(T, T) -> bool>,
) -> (r: Vec<T>)
    requires
        total_preorder(le),
        forall|a: &T, b: &T| #[trigger] in_order.requires((a, b)),
        forall|a: &T, b: &T, o: bool| in_order.ensures((a, b), o) ==> o == le(*a, *b),
    ensures
        is_stable_sort_of(r@, v@, le),
{
    let ghost s = v@;
    let mut r: Vec<T> = Vec::new();
    proof {
        reveal(Seq::filter);
        assert(s.take(0) =~= Seq::<T>::empty());
    }
    for x in it: v
        invariant
            it.seq() == s,
            total_preorder(le),
            forall|a: &T, b: &T| #[trigger] in_order.requires((a, b)),
            forall|a: &T, b: &T, o: bool| in_order.ensures((a, b), o) ==> o == le(*a, *b),
            is_stable_sort_of(r@, s.take(it.index() as int), le),
    {
        let ghost i = it.index() as int;
        let mut j: usize = r.len();
        while j > 0 && !in_order(&r[j - 1], &x)
            invariant
                j <= r.len(),
                forall|a: &T, b: &T| #[trigger] in_order.requires((a, b)),
                forall|a: &T, b: &T, o: bool| in_order.ensures((a, b), o) ==> o == le(*a, *b),
                forall|k: int| j <= k < r.len() ==> !le(#[trigger] r@[k], x),
            decreases j,
        {
            j = j - 1;
        }
        proof {
            lemma_insert_keeps_stable(r@, s.take(i), x, j as int, le);
            assert(s.take(i + 1) =~= s.take(i).push(x));
        }
        r.insert(j, x);
    }
    proof {
        assert(s.take(s.len() as int) =~= s);
    }
    r
}

} // verus!

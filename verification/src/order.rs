//! Total orders, and sorting by them.
use vstd::prelude::*;

verus! {

/// A type whose values are ordered by a key. Values that differ may have the same key.
pub trait Ranked: DeepView + Sized {
    type Key;

    /// What a value is ordered by.
    spec fn key(v: Self::V) -> Self::Key;

    /// `a` stands strictly before `b`.
    spec fn before(a: Self::Key, b: Self::Key) -> bool;

    proof fn irreflexive(a: Self::Key)
        ensures
            !Self::before(a, a),
    ;

    proof fn transitive(a: Self::Key, b: Self::Key, c: Self::Key)
        requires
            Self::before(a, b),
            Self::before(b, c),
        ensures
            Self::before(a, c),
    ;

    proof fn trichotomous(a: Self::Key, b: Self::Key)
        ensures
            Self::before(a, b) || a == b || Self::before(b, a),
    ;

    /// Whether `self` stands strictly before `other`.
    fn is_before(&self, other: &Self) -> (r: bool)
        ensures
            r == Self::before(Self::key(self.deep_view()), Self::key(other.deep_view())),
    ;
}

/// The keys of values, in order.
pub open spec fn keys<T: Ranked>(s: Seq<T::V>) -> Seq<T::Key> {
    Seq::new(s.len(), |i: int| T::key(s[i]))
}

/// The values with a key, in order.
pub open spec fn with_key<T: Ranked>(s: Seq<T::V>, key: T::Key) -> Seq<T::V>
    decreases s.len(),
{
    if s.len() == 0 {
        s
    } else {
        let before = with_key::<T>(s.drop_last(), key);
        if T::key(s.last()) == key {
            before.push(s.last())
        } else {
            before
        }
    }
}

/// No element stands before one to its left.
pub open spec fn ascending<T: Ranked>(s: Seq<T::Key>) -> bool {
    forall|i: int, j: int| 0 <= i < j < s.len() ==> !T::before(#[trigger] s[j], #[trigger] s[i])
}

/// Each element stands before all those to its right, so none occurs twice.
pub open spec fn strictly_ascending<T: Ranked>(s: Seq<T::Key>) -> bool {
    forall|i: int, j: int| 0 <= i < j < s.len() ==> T::before(#[trigger] s[i], #[trigger] s[j])
}

/// Pairs are ordered by their first parts, then by their second.
impl<A: Ranked, B: Ranked> Ranked for (A, B) {
    type Key = (A::Key, B::Key);

    open spec fn key(v: (A::V, B::V)) -> (A::Key, B::Key) {
        (A::key(v.0), B::key(v.1))
    }

    open spec fn before(a: (A::Key, B::Key), b: (A::Key, B::Key)) -> bool {
        A::before(a.0, b.0) || (a.0 == b.0 && B::before(a.1, b.1))
    }

    proof fn irreflexive(a: (A::Key, B::Key)) {
        A::irreflexive(a.0);
        B::irreflexive(a.1);
    }

    proof fn transitive(a: (A::Key, B::Key), b: (A::Key, B::Key), c: (A::Key, B::Key)) {
        if A::before(a.0, b.0) && A::before(b.0, c.0) {
            A::transitive(a.0, b.0, c.0);
        } else if a.0 == b.0 && b.0 == c.0 && !A::before(a.0, b.0) && !A::before(b.0, c.0) {
            B::transitive(a.1, b.1, c.1);
        } else {
            A::irreflexive(b.0);
        }
    }

    proof fn trichotomous(a: (A::Key, B::Key), b: (A::Key, B::Key)) {
        A::trichotomous(a.0, b.0);
        B::trichotomous(a.1, b.1);
    }

    fn is_before(&self, other: &Self) -> (r: bool) {
        proof {
            let a = A::key(self.0.deep_view());
            let b = A::key(other.0.deep_view());
            A::trichotomous(a, b);
            A::irreflexive(a);
            if A::before(a, b) && A::before(b, a) {
                A::transitive(a, b, a);
            }
        }
        if self.0.is_before(&other.0) {
            true
        } else if other.0.is_before(&self.0) {
            false
        } else {
            self.1.is_before(&other.1)
        }
    }
}

/// Not standing before is transitive.
pub proof fn lemma_not_before_transitive<T: Ranked>(a: T::Key, b: T::Key, c: T::Key)
    requires
        !T::before(b, a),
        !T::before(c, b),
    ensures
        !T::before(c, a),
{
    if T::before(c, a) {
        T::trichotomous(a, b);
        if T::before(a, b) {
            T::transitive(c, a, b);
        }
    }
}

/// Strictly ascending sequences with the same elements are equal.
pub proof fn lemma_strictly_ascending_unique<T: Ranked>(s: Seq<T::Key>, t: Seq<T::Key>)
    requires
        strictly_ascending::<T>(s),
        strictly_ascending::<T>(t),
        forall|x: T::Key| s.contains(x) <==> t.contains(x),
    ensures
        s == t,
    decreases s.len(),
{
    if s.len() == 0 {
        if t.len() > 0 {
            assert(t.contains(t[0]));
        }
    } else {
        assert(s.contains(s.last()));
        assert(t.contains(s.last()));
        let last = t.last();
        assert(t.contains(last));
        assert(s.contains(last));
        T::irreflexive(last);
        T::irreflexive(s.last());
        if s.last() != last {
            let i = choose|i: int| 0 <= i < s.len() && s[i] == last;
            let j = choose|j: int| 0 <= j < t.len() && t[j] == s.last();
            assert(T::before(s[i], s[s.len() - 1]));
            assert(T::before(t[j], t[t.len() - 1]));
            T::transitive(last, s.last(), last);
        }
        let s0 = s.drop_last();
        let t0 = t.drop_last();
        assert forall|x: T::Key| s0.contains(x) implies t0.contains(x) by {
            let i = choose|i: int| 0 <= i < s0.len() && s0[i] == x;
            assert(T::before(s[i], s[s.len() - 1]));
            assert(s.contains(x));
            let j = choose|j: int| 0 <= j < t.len() && t[j] == x;
            assert(t0[j] == x);
        }
        assert forall|x: T::Key| t0.contains(x) implies s0.contains(x) by {
            let i = choose|i: int| 0 <= i < t0.len() && t0[i] == x;
            assert(T::before(t[i], t[t.len() - 1]));
            assert(t.contains(x));
            let j = choose|j: int| 0 <= j < s.len() && s[j] == x;
            assert(s0[j] == x);
        }
        lemma_strictly_ascending_unique::<T>(s0, t0);
        assert(s == s0.push(last));
        assert(t == t0.push(last));
    }
}

/// A value with a key occurs among those with that key.
pub proof fn lemma_with_key<T: Ranked>(s: Seq<T::V>, key: T::Key)
    ensures
        with_key::<T>(s, key).len() > 0 <==> keys::<T>(s).contains(key),
        forall|i: int|
            0 <= i < with_key::<T>(s, key).len() ==> T::key(#[trigger] with_key::<T>(s, key)[i])
                == key && s.contains(with_key::<T>(s, key)[i]),
    decreases s.len(),
{
    if s.len() > 0 {
        let t = s.drop_last();
        let before = with_key::<T>(t, key);
        lemma_with_key::<T>(t, key);
        assert forall|i: int| 0 <= i < with_key::<T>(s, key).len() implies T::key(
            #[trigger] with_key::<T>(s, key)[i],
        ) == key && s.contains(with_key::<T>(s, key)[i]) by {
            if i < before.len() {
                assert(T::key(before[i]) == key && t.contains(before[i]));
                let j = choose|j: int| 0 <= j < t.len() && t[j] == before[i];
                assert(s[j] == before[i]);
            } else {
                assert(s[s.len() - 1] == s.last());
            }
        }
        if keys::<T>(s).contains(key) {
            let j = choose|j: int| 0 <= j < s.len() && keys::<T>(s)[j] == key;
            if j < t.len() {
                assert(keys::<T>(t)[j] == key);
            }
        }
        if keys::<T>(t).contains(key) {
            let j = choose|j: int| 0 <= j < t.len() && keys::<T>(t)[j] == key;
            assert(keys::<T>(s)[j] == key);
        }
        if T::key(s.last()) == key {
            assert(keys::<T>(s)[s.len() - 1] == key);
        }
    }
}

proof fn lemma_with_key_single<T: Ranked>(x: T::V, key: T::Key)
    ensures
        with_key::<T>(seq![x], key) == if T::key(x) == key {
            seq![x]
        } else {
            Seq::empty()
        },
{
    let none = Seq::<T::V>::empty();
    assert(seq![x].drop_last() =~= none);
    assert(with_key::<T>(none, key) =~= none);
    assert(none.push(x) =~= seq![x]);
}

/// The values with a key in two sequences in a row.
pub proof fn lemma_with_key_concat<T: Ranked>(s: Seq<T::V>, t: Seq<T::V>, key: T::Key)
    ensures
        with_key::<T>(s + t, key) == with_key::<T>(s, key) + with_key::<T>(t, key),
    decreases t.len(),
{
    if t.len() == 0 {
        assert(s + t =~= s);
        assert(with_key::<T>(s, key) + with_key::<T>(t, key) =~= with_key::<T>(s, key));
    } else {
        lemma_with_key_concat::<T>(s, t.drop_last(), key);
        assert((s + t).drop_last() =~= s + t.drop_last());
        assert(with_key::<T>(s + t, key) =~= with_key::<T>(s, key) + with_key::<T>(t, key));
    }
}

/// Ascending sequences that hold the same values with each key, in the same order, are equal.
pub proof fn lemma_ascending_unique<T: Ranked>(s: Seq<T::V>, t: Seq<T::V>)
    requires
        ascending::<T>(keys::<T>(s)),
        ascending::<T>(keys::<T>(t)),
        forall|key: T::Key| #[trigger] with_key::<T>(s, key) == with_key::<T>(t, key),
    ensures
        s == t,
    decreases s.len(),
{
    if s.len() == 0 {
        if t.len() > 0 {
            let b = T::key(t.last());
            assert(with_key::<T>(s, b) == with_key::<T>(t, b));
        }
        assert(s =~= t);
    } else {
        let a = T::key(s.last());
        assert(with_key::<T>(s, a) == with_key::<T>(t, a));
        assert(t.len() > 0);
        let b = T::key(t.last());
        assert(with_key::<T>(s, b) == with_key::<T>(t, b));
        lemma_with_key::<T>(s, b);
        lemma_with_key::<T>(t, a);
        let i = choose|i: int| 0 <= i < t.len() && keys::<T>(t)[i] == a;
        let j = choose|j: int| 0 <= j < s.len() && keys::<T>(s)[j] == b;
        T::irreflexive(a);
        assert(!T::before(b, a)) by {
            if i < t.len() - 1 {
                assert(!T::before(keys::<T>(t)[t.len() - 1], keys::<T>(t)[i]));
            }
        }
        assert(!T::before(a, b)) by {
            if j < s.len() - 1 {
                assert(!T::before(keys::<T>(s)[s.len() - 1], keys::<T>(s)[j]));
            }
        }
        T::trichotomous(a, b);
        assert(s.last() == with_key::<T>(s, a).last());
        assert(t.last() == with_key::<T>(t, a).last());
        let s0 = s.drop_last();
        let t0 = t.drop_last();
        assert(keys::<T>(s0) =~= keys::<T>(s).drop_last());
        assert(keys::<T>(t0) =~= keys::<T>(t).drop_last());
        assert forall|key: T::Key| #[trigger] with_key::<T>(s0, key) == with_key::<T>(t0, key) by {
            assert(with_key::<T>(s, key) == with_key::<T>(t, key));
            if key == a {
                assert(with_key::<T>(s0, key) =~= with_key::<T>(s, key).drop_last());
                assert(with_key::<T>(t0, key) =~= with_key::<T>(t, key).drop_last());
            }
        }
        lemma_ascending_unique::<T>(s0, t0);
        assert(s =~= s0.push(s.last()));
        assert(t =~= t0.push(t.last()));
    }
}

/// The values from the last to the first.
spec fn turned<V>(s: Seq<V>) -> Seq<V> {
    Seq::new(s.len(), |i: int| s[s.len() - 1 - i])
}

/// Takes the elements of a vector off its end, which turns it round.
fn turned_round<T: Ranked>(items: Vec<T>) -> (out: Vec<T>)
    ensures
        out.deep_view() == turned(items.deep_view()),
{
    let ghost all = items.deep_view();
    let mut rest = items;
    let mut out: Vec<T> = Vec::new();
    proof {
        assert(rest.deep_view() =~= all.take(rest.len() as int));
        assert(out.deep_view() =~= turned(all).take(0));
    }
    while rest.len() > 0
        invariant
            rest.len() <= all.len(),
            rest.deep_view() == all.take(rest.len() as int),
            out.deep_view() == turned(all).take(all.len() - rest.len()),
        decreases rest.len(),
    {
        let ghost rest_before = rest.deep_view();
        let ghost out_before = out.deep_view();
        let item = rest.pop();
        if let Some(item) = item {
            out.push(item);
            proof {
                assert(rest.deep_view() =~= rest_before.drop_last());
                assert(rest.deep_view() =~= all.take(rest.len() as int));
                assert(out.deep_view() =~= out_before.push(rest_before.last()));
                assert(out.deep_view() =~= turned(all).take(all.len() - rest.len()));
            }
        }
    }
    proof {
        assert(out.deep_view() =~= turned(all));
    }
    out
}

/// No element of `high` stands before one of `low`.
spec fn separated<T: Ranked>(high: Seq<T::V>, low: Seq<T::V>) -> bool {
    forall|i: int, j: int|
        0 <= i < high.len() && 0 <= j < low.len() ==> !T::before(
            T::key(#[trigger] high[i]),
            T::key(#[trigger] low[j]),
        )
}

/// The last of the lower values is put before the higher ones.
proof fn lemma_put_before<T: Ranked>(low: Seq<T::V>, high: Seq<T::V>)
    requires
        low.len() > 0,
        ascending::<T>(keys::<T>(low)),
        ascending::<T>(keys::<T>(high)),
        separated::<T>(high, low),
    ensures
        ascending::<T>(keys::<T>(low.drop_last())),
        ascending::<T>(keys::<T>(seq![low.last()] + high)),
        separated::<T>(seq![low.last()] + high, low.drop_last()),
        forall|key: T::Key| #[trigger]
            with_key::<T>(low.drop_last(), key) + with_key::<T>(seq![low.last()] + high, key)
                == with_key::<T>(low, key) + with_key::<T>(high, key),
{
    let x = low.last();
    let rest = low.drop_last();
    let done = seq![x] + high;
    assert(keys::<T>(rest) =~= keys::<T>(low).drop_last());
    assert forall|i: int, j: int| 0 <= i < j < keys::<T>(done).len() implies !T::before(
        #[trigger] keys::<T>(done)[j],
        #[trigger] keys::<T>(done)[i],
    ) by {
        assert(done[j] == high[j - 1]);
        if i == 0 {
            assert(low[low.len() - 1] == x);
        } else {
            assert(keys::<T>(high)[i - 1] == keys::<T>(done)[i]);
            assert(keys::<T>(high)[j - 1] == keys::<T>(done)[j]);
        }
    }
    assert forall|i: int, j: int| 0 <= i < done.len() && 0 <= j < rest.len() implies !T::before(
        T::key(#[trigger] done[i]),
        T::key(#[trigger] rest[j]),
    ) by {
        assert(rest[j] == low[j]);
        if i == 0 {
            assert(!T::before(keys::<T>(low)[low.len() - 1], keys::<T>(low)[j]));
        } else {
            assert(done[i] == high[i - 1]);
        }
    }
    assert forall|key: T::Key| #[trigger]
        with_key::<T>(rest, key) + with_key::<T>(done, key) == with_key::<T>(low, key)
            + with_key::<T>(high, key) by {
        lemma_with_key_concat::<T>(seq![x], high, key);
        lemma_with_key_single::<T>(x, key);
        assert(with_key::<T>(rest, key) + with_key::<T>(done, key) =~= with_key::<T>(low, key)
            + with_key::<T>(high, key));
    }
}

/// Merges two ascending vectors into one that ascends when it is turned round. Of values with the
/// same key, those on the left come first then.
fn merged<T: Ranked>(left_items: Vec<T>, right_items: Vec<T>) -> (out: Vec<T>)
    requires
        ascending::<T>(keys::<T>(left_items.deep_view())),
        ascending::<T>(keys::<T>(right_items.deep_view())),
    ensures
        ascending::<T>(keys::<T>(turned(out.deep_view()))),
        forall|key: T::Key| #[trigger]
            with_key::<T>(turned(out.deep_view()), key) == with_key::<T>(
                left_items.deep_view(),
                key,
            ) + with_key::<T>(right_items.deep_view(), key),
{
    let mut left = left_items;
    let mut right = right_items;
    let mut out: Vec<T> = Vec::new();
    let ghost all_left = left.deep_view();
    let ghost all_right = right.deep_view();
    let ghost mut done: Seq<T::V> = Seq::empty();
    proof {
        assert(turned(out.deep_view()) =~= done);
        assert forall|key: T::Key|
            with_key::<T>(all_left, key) + with_key::<T>(all_right, key) + #[trigger] with_key::<T>(
                done,
                key,
            ) == with_key::<T>(all_left, key) + with_key::<T>(all_right, key) by {
            assert(with_key::<T>(all_left, key) + with_key::<T>(all_right, key) + with_key::<T>(
                done,
                key,
            ) =~= with_key::<T>(all_left, key) + with_key::<T>(all_right, key));
        }
    }
    while left.len() > 0 || right.len() > 0
        invariant
            done == turned(out.deep_view()),
            ascending::<T>(keys::<T>(left.deep_view())),
            ascending::<T>(keys::<T>(right.deep_view())),
            ascending::<T>(keys::<T>(done)),
            separated::<T>(done, left.deep_view()),
            separated::<T>(done, right.deep_view()),
            forall|key: T::Key|
                with_key::<T>(left.deep_view(), key) + with_key::<T>(right.deep_view(), key)
                    + #[trigger] with_key::<T>(done, key) == with_key::<T>(all_left, key)
                    + with_key::<T>(all_right, key),
        decreases left.len() + right.len(),
    {
        let ghost l = left.deep_view();
        let ghost r = right.deep_view();
        let ghost d = done;
        let ghost before = out.deep_view();
        let from_left: bool = if right.len() == 0 {
            true
        } else if left.len() == 0 {
            false
        } else {
            right[right.len() - 1].is_before(&left[left.len() - 1])
        };
        if from_left {
            let item = left.pop();
            if let Some(item) = item {
                out.push(item);
                proof {
                    let x = l.last();
                    assert(left.deep_view() =~= l.drop_last());
                    assert(out.deep_view() =~= before.push(x));
                    lemma_put_before::<T>(l, d);
                    done = seq![x] + d;
                    assert(turned(out.deep_view()) =~= done);
                    assert forall|j: int| 0 <= j < r.len() implies T::before(
                        T::key(#[trigger] r[j]),
                        T::key(x),
                    ) by {
                        let y = T::key(r.last());
                        let k = T::key(r[j]);
                        if j < r.len() - 1 {
                            assert(!T::before(keys::<T>(r)[r.len() - 1], keys::<T>(r)[j]));
                        }
                        T::trichotomous(k, y);
                        if T::before(k, y) {
                            T::transitive(k, y, T::key(x));
                        }
                    }
                    assert(separated::<T>(done, r)) by {
                        assert forall|i: int, j: int| 0 <= i < done.len() && 0 <= j < r.len()
                            implies !T::before(
                            T::key(#[trigger] done[i]),
                            T::key(#[trigger] r[j]),
                        ) by {
                            if i == 0 {
                                let k = T::key(r[j]);
                                T::irreflexive(k);
                                if T::before(T::key(x), k) {
                                    T::transitive(k, T::key(x), k);
                                }
                            } else {
                                assert(done[i] == d[i - 1]);
                            }
                        }
                    }
                    assert forall|key: T::Key|
                        with_key::<T>(left.deep_view(), key) + with_key::<T>(r, key)
                            + #[trigger] with_key::<T>(done, key) == with_key::<T>(all_left, key)
                            + with_key::<T>(all_right, key) by {
                        assert(with_key::<T>(l.drop_last(), key) + with_key::<T>(done, key)
                            == with_key::<T>(l, key) + with_key::<T>(d, key));
                        assert(with_key::<T>(l, key) + with_key::<T>(r, key) + with_key::<T>(d, key)
                            == with_key::<T>(all_left, key) + with_key::<T>(all_right, key));
                        lemma_with_key::<T>(r, key);
                        if T::key(x) == key {
                            T::irreflexive(key);
                            if keys::<T>(r).contains(key) {
                                let j = choose|j: int| 0 <= j < r.len() && keys::<T>(r)[j] == key;
                                assert(T::before(T::key(r[j]), T::key(x)));
                            }
                            assert(with_key::<T>(r, key) =~= Seq::<T::V>::empty());
                            assert(with_key::<T>(l.drop_last(), key) + with_key::<T>(r, key)
                                =~= with_key::<T>(l.drop_last(), key));
                            assert(with_key::<T>(l, key) + with_key::<T>(r, key) =~= with_key::<T>(
                                l,
                                key,
                            ));
                        } else {
                            lemma_with_key_concat::<T>(seq![x], d, key);
                            lemma_with_key_single::<T>(x, key);
                            assert(with_key::<T>(done, key) =~= with_key::<T>(d, key));
                        }
                    }
                }
            }
        } else {
            let item = right.pop();
            if let Some(item) = item {
                out.push(item);
                proof {
                    let x = r.last();
                    assert(right.deep_view() =~= r.drop_last());
                    assert(out.deep_view() =~= before.push(x));
                    lemma_put_before::<T>(r, d);
                    done = seq![x] + d;
                    assert(turned(out.deep_view()) =~= done);
                    assert(separated::<T>(done, l)) by {
                        assert forall|i: int, j: int| 0 <= i < done.len() && 0 <= j < l.len()
                            implies !T::before(
                            T::key(#[trigger] done[i]),
                            T::key(#[trigger] l[j]),
                        ) by {
                            if i == 0 {
                                if j < l.len() - 1 {
                                    assert(!T::before(keys::<T>(l)[l.len() - 1], keys::<T>(l)[j]));
                                    lemma_not_before_transitive::<T>(
                                        T::key(l[j]),
                                        T::key(l.last()),
                                        T::key(x),
                                    );
                                }
                            } else {
                                assert(done[i] == d[i - 1]);
                            }
                        }
                    }
                    assert forall|key: T::Key|
                        with_key::<T>(l, key) + with_key::<T>(right.deep_view(), key)
                            + #[trigger] with_key::<T>(done, key) == with_key::<T>(all_left, key)
                            + with_key::<T>(all_right, key) by {
                        assert(with_key::<T>(r.drop_last(), key) + with_key::<T>(done, key)
                            == with_key::<T>(r, key) + with_key::<T>(d, key));
                        assert(with_key::<T>(l, key) + with_key::<T>(r, key) + with_key::<T>(d, key)
                            == with_key::<T>(all_left, key) + with_key::<T>(all_right, key));
                        assert(with_key::<T>(l, key) + with_key::<T>(r.drop_last(), key)
                            + with_key::<T>(done, key) =~= with_key::<T>(l, key) + (with_key::<T>(
                            r.drop_last(),
                            key,
                        ) + with_key::<T>(done, key)));
                        assert(with_key::<T>(l, key) + with_key::<T>(r, key) + with_key::<T>(d, key)
                            =~= with_key::<T>(l, key) + (with_key::<T>(r, key) + with_key::<T>(
                            d,
                            key,
                        )));
                    }
                }
            }
        }
    }
    proof {
        assert forall|key: T::Key| #[trigger]
            with_key::<T>(done, key) == with_key::<T>(all_left, key) + with_key::<T>(
                all_right,
                key,
            ) by {
            assert(with_key::<T>(left.deep_view(), key) + with_key::<T>(right.deep_view(), key)
                + with_key::<T>(done, key) =~= with_key::<T>(done, key));
        }
    }
    out
}

/// Sorts by `Ranked::before`. Values with the same key stay in their order.
pub fn sorted<T: Ranked>(items: Vec<T>) -> (out: Vec<T>)
    ensures
        ascending::<T>(keys::<T>(out.deep_view())),
        forall|key: T::Key| #[trigger]
            with_key::<T>(out.deep_view(), key) == with_key::<T>(items.deep_view(), key),
        out.deep_view().to_multiset() == items.deep_view().to_multiset(),
        forall|i: int, j: int|
            0 <= i < j < out.len() ==> !T::before(
                T::key(#[trigger] out.deep_view()[j]),
                T::key(#[trigger] out.deep_view()[i]),
            ),
    decreases items.len(),
{
    if items.len() < 2 {
        return items;
    }
    let mut left = items;
    let ghost all = left.deep_view();
    let middle: usize = left.len() / 2;
    let right = left.split_off(middle);
    let ghost l = left.deep_view();
    let ghost r = right.deep_view();
    let out = turned_round(merged(sorted(left), sorted(right)));
    proof {
        assert(l + r =~= all);
        assert forall|key: T::Key| #[trigger]
            with_key::<T>(out.deep_view(), key) == with_key::<T>(all, key) by {
            lemma_with_key_concat::<T>(l, r, key);
        }
        law_sorting_keeps_all_values::<T>(out.deep_view(), all);
        assert forall|i: int, j: int| 0 <= i < j < out.len() implies !T::before(
            T::key(#[trigger] out.deep_view()[j]),
            T::key(#[trigger] out.deep_view()[i]),
        ) by {
            assert(!T::before(keys::<T>(out.deep_view())[j], keys::<T>(out.deep_view())[i]));
        }
    }
    out
}

/// Sorts by `Ranked::before` and keeps the first value with each key.
pub fn sorted_distinct<T: Ranked>(items: Vec<T>) -> (out: Vec<T>)
    ensures
        strictly_ascending::<T>(keys::<T>(out.deep_view())),
        forall|key: T::Key| #[trigger]
            keys::<T>(out.deep_view()).contains(key) <==> keys::<T>(items.deep_view()).contains(
                key,
            ),
        forall|i: int|
            0 <= i < out.len() ==> (#[trigger] out.deep_view()[i]) == with_key::<T>(
                items.deep_view(),
                T::key(out.deep_view()[i]),
            )[0],
{
    let ghost wanted = items.deep_view();
    let in_order = sorted(items);
    let ghost all = in_order.deep_view();
    let mut rest = turned_round(in_order);
    let mut out: Vec<T> = Vec::new();
    let ghost mut seen: int = 0;
    proof {
        assert(all.take(0) =~= Seq::<T::V>::empty());
        assert(keys::<T>(out.deep_view()) =~= Seq::<T::Key>::empty());
        assert(turned(all).take(all.len() as int) =~= turned(all));
    }
    while rest.len() > 0
        invariant
            0 <= seen <= all.len(),
            rest.len() == all.len() - seen,
            rest.deep_view() == turned(all).take(all.len() - seen),
            ascending::<T>(keys::<T>(all)),
            strictly_ascending::<T>(keys::<T>(out.deep_view())),
            forall|i: int, j: int|
                0 <= i < out.len() && seen <= j < all.len() ==> !T::before(
                    T::key(#[trigger] all[j]),
                    T::key(#[trigger] out.deep_view()[i]),
                ),
            forall|key: T::Key| #[trigger]
                keys::<T>(out.deep_view()).contains(key) <==> keys::<T>(all.take(seen)).contains(
                    key,
                ),
            forall|i: int|
                0 <= i < out.len() ==> (#[trigger] out.deep_view()[i]) == with_key::<T>(
                    all.take(seen),
                    T::key(out.deep_view()[i]),
                )[0],
        decreases rest.len(),
    {
        let ghost rest_before = rest.deep_view();
        let ghost out_before = out.deep_view();
        let item = rest.pop();
        if let Some(item) = item {
            let fresh: bool = out.len() == 0 || out[out.len() - 1].is_before(&item);
            let ghost x = all[seen];
            let ghost old_seen = all.take(seen);
            let ghost new_seen = all.take(seen + 1);
            proof {
                assert(rest_before.last() == turned(all)[all.len() - seen - 1]);
                assert(item.deep_view() == x);
                assert(rest.deep_view() =~= turned(all).take(all.len() - seen - 1));
                assert(new_seen.drop_last() =~= old_seen);
                lemma_key_added::<T>(old_seen, x);
                assert(new_seen =~= old_seen.push(x));
                lemma_first_kept::<T>(old_seen, new_seen, out_before);
                if out_before.len() > 0 {
                    T::trichotomous(T::key(out_before.last()), T::key(x));
                    assert(!T::before(T::key(all[seen]), T::key(out_before[out_before.len() - 1])));
                    assert(fresh || T::key(out_before.last()) == T::key(x));
                    assert(keys::<T>(out_before)[out_before.len() - 1] == T::key(
                        out_before.last(),
                    ));
                }
            }
            if fresh {
                out.push(item);
                proof {
                    assert(out.deep_view() =~= out_before.push(x));
                    lemma_key_added::<T>(out_before, x);
                    assert forall|i: int| 0 <= i < out_before.len() implies T::before(
                        T::key(#[trigger] out_before[i]),
                        T::key(x),
                    ) by {
                        if i < out_before.len() - 1 {
                            assert(T::before(
                                keys::<T>(out_before)[i],
                                keys::<T>(out_before)[out_before.len() - 1],
                            ));
                            T::transitive(
                                T::key(out_before[i]),
                                T::key(out_before.last()),
                                T::key(x),
                            );
                        }
                    }
                    assert forall|i: int, j: int| 0 <= i < j < out.len() implies T::before(
                        #[trigger] keys::<T>(out.deep_view())[i],
                        #[trigger] keys::<T>(out.deep_view())[j],
                    ) by {
                        if j < out_before.len() {
                            assert(T::before(keys::<T>(out_before)[i], keys::<T>(out_before)[j]));
                        } else {
                            assert(T::before(T::key(out_before[i]), T::key(x)));
                        }
                    }
                    assert(!keys::<T>(old_seen).contains(T::key(x))) by {
                        if keys::<T>(out_before).contains(T::key(x)) {
                            let i = choose|i: int|
                                0 <= i < out_before.len() && keys::<T>(out_before)[i] == T::key(x);
                            assert(T::before(T::key(out_before[i]), T::key(x)));
                            T::irreflexive(T::key(x));
                        }
                    }
                    lemma_with_key::<T>(old_seen, T::key(x));
                    assert(with_key::<T>(new_seen, T::key(x))[0] == x);
                    assert forall|i: int, j: int| 0 <= i < out.len() && seen + 1 <= j < all.len()
                        implies !T::before(
                        T::key(#[trigger] all[j]),
                        T::key(#[trigger] out.deep_view()[i]),
                    ) by {
                        if i < out_before.len() {
                            assert(out.deep_view()[i] == out_before[i]);
                        } else {
                            assert(!T::before(keys::<T>(all)[j], keys::<T>(all)[seen]));
                        }
                    }
                    assert forall|i: int| 0 <= i < out.len() implies (
                    #[trigger] out.deep_view()[i]) == with_key::<T>(
                        new_seen,
                        T::key(out.deep_view()[i]),
                    )[0] by {
                        if i < out_before.len() {
                            assert(out.deep_view()[i] == out_before[i]);
                        }
                    }
                }
            }
            proof {
                seen = seen + 1;
            }
        }
    }
    proof {
        assert(all.take(seen) =~= all);
        assert forall|key: T::Key| #[trigger]
            keys::<T>(out.deep_view()).contains(key) <==> keys::<T>(wanted).contains(key) by {
            lemma_with_key::<T>(all, key);
            lemma_with_key::<T>(wanted, key);
            assert(with_key::<T>(all, key) == with_key::<T>(wanted, key));
        }
    }
    out
}

/// The keys of a sequence with one more value.
pub proof fn lemma_key_added<T: Ranked>(s: Seq<T::V>, x: T::V)
    ensures
        forall|key: T::Key| #[trigger]
            keys::<T>(s.push(x)).contains(key) <==> keys::<T>(s).contains(key) || key == T::key(x),
{
    assert forall|key: T::Key| #[trigger]
        keys::<T>(s.push(x)).contains(key) <==> keys::<T>(s).contains(key) || key == T::key(x) by {
        if keys::<T>(s).contains(key) {
            let i = choose|i: int| 0 <= i < s.len() && keys::<T>(s)[i] == key;
            assert(keys::<T>(s.push(x))[i] == key);
        }
        if key == T::key(x) {
            assert(keys::<T>(s.push(x))[s.len() as int] == key);
        }
        if keys::<T>(s.push(x)).contains(key) {
            let i = choose|i: int|
                0 <= i < s.push(x).len() && keys::<T>(s.push(x))[i] == key;
            if i < s.len() {
                assert(keys::<T>(s)[i] == key);
            }
        }
    }
}

/// The first value with a key stays the first when one more value comes after it.
proof fn lemma_first_kept<T: Ranked>(s: Seq<T::V>, longer: Seq<T::V>, firsts: Seq<T::V>)
    requires
        longer.len() > 0,
        longer.drop_last() == s,
        forall|key: T::Key| #[trigger]
            keys::<T>(firsts).contains(key) <==> keys::<T>(s).contains(key),
        forall|i: int|
            0 <= i < firsts.len() ==> (#[trigger] firsts[i]) == with_key::<T>(
                s,
                T::key(firsts[i]),
            )[0],
    ensures
        forall|i: int|
            0 <= i < firsts.len() ==> (#[trigger] firsts[i]) == with_key::<T>(
                longer,
                T::key(firsts[i]),
            )[0],
{
    assert forall|i: int| 0 <= i < firsts.len() implies (#[trigger] firsts[i]) == with_key::<T>(
        longer,
        T::key(firsts[i]),
    )[0] by {
        let key = T::key(firsts[i]);
        assert(keys::<T>(firsts)[i] == key);
        assert(keys::<T>(firsts).contains(key));
        lemma_with_key::<T>(s, key);
    }
}

/// Whether a strictly ascending vector holds a value with the key of `item`.
pub fn holds<T: Ranked>(items: &Vec<T>, item: &T) -> (r: bool)
    requires
        strictly_ascending::<T>(keys::<T>(items.deep_view())),
    ensures
        r == keys::<T>(items.deep_view()).contains(T::key(item.deep_view())),
{
    let mut low: usize = 0;
    let mut high: usize = items.len();
    while low < high
        invariant
            low <= high <= items.len(),
            strictly_ascending::<T>(keys::<T>(items.deep_view())),
            forall|i: int|
                0 <= i < low ==> T::before(
                    #[trigger] keys::<T>(items.deep_view())[i],
                    T::key(item.deep_view()),
                ),
            forall|i: int|
                high <= i < items.len() ==> T::before(
                    T::key(item.deep_view()),
                    #[trigger] keys::<T>(items.deep_view())[i],
                ),
        decreases high - low,
    {
        let middle: usize = low + (high - low) / 2;
        if items[middle].is_before(item) {
            proof {
                assert forall|i: int| 0 <= i < middle + 1 implies T::before(
                    #[trigger] keys::<T>(items.deep_view())[i],
                    T::key(item.deep_view()),
                ) by {
                    if i < middle {
                        T::transitive(
                            keys::<T>(items.deep_view())[i],
                            keys::<T>(items.deep_view())[middle as int],
                            T::key(item.deep_view()),
                        );
                    }
                }
            }
            low = middle + 1;
        } else if item.is_before(&items[middle]) {
            proof {
                assert forall|i: int| middle <= i < items.len() implies T::before(
                    T::key(item.deep_view()),
                    #[trigger] keys::<T>(items.deep_view())[i],
                ) by {
                    if middle < i {
                        T::transitive(
                            T::key(item.deep_view()),
                            keys::<T>(items.deep_view())[middle as int],
                            keys::<T>(items.deep_view())[i],
                        );
                    }
                }
            }
            high = middle;
        } else {
            proof {
                T::trichotomous(
                    keys::<T>(items.deep_view())[middle as int],
                    T::key(item.deep_view()),
                );
                assert(keys::<T>(items.deep_view())[middle as int] == T::key(item.deep_view()));
            }
            return true;
        }
    }
    proof {
        T::irreflexive(T::key(item.deep_view()));
    }
    false
}

/// The first value with a key is the first of those with that key.
pub proof fn lemma_first_with_key<T: Ranked>(s: Seq<T::V>, f: int)
    requires
        0 <= f < s.len(),
        forall|g: int| 0 <= g < f ==> T::key(#[trigger] s[g]) != T::key(s[f]),
    ensures
        with_key::<T>(s, T::key(s[f])).len() > 0,
        with_key::<T>(s, T::key(s[f]))[0] == s[f],
{
    let key = T::key(s[f]);
    let head = s.take(f);
    let tail = s.skip(f + 1);
    assert(s =~= head + seq![s[f]] + tail);
    lemma_with_key_concat::<T>(head + seq![s[f]], tail, key);
    lemma_with_key_concat::<T>(head, seq![s[f]], key);
    lemma_with_key_single::<T>(s[f], key);
    lemma_with_key::<T>(head, key);
    if keys::<T>(head).contains(key) {
        let g = choose|g: int| 0 <= g < head.len() && keys::<T>(head)[g] == key;
        assert(T::key(s[g]) != T::key(s[f]));
    }
}

/// A value occurs among those with its key as often as it occurs at all.
pub proof fn lemma_with_key_count<T: Ranked>(s: Seq<T::V>, v: T::V)
    ensures
        with_key::<T>(s, T::key(v)).to_multiset().count(v) == s.to_multiset().count(v),
    decreases s.len(),
{
    broadcast use vstd::seq_lib::group_to_multiset_ensures;

    if s.len() > 0 {
        let shorter = s.drop_last();
        lemma_with_key_count::<T>(shorter, v);
        assert(s =~= shorter.push(s.last()));
    }
}

/// A vector sorted is the same values, each as often.
pub proof fn law_sorting_keeps_all_values<T: Ranked>(s: Seq<T::V>, t: Seq<T::V>)
    requires
        forall|key: T::Key| #[trigger] with_key::<T>(s, key) == with_key::<T>(t, key),
    ensures
        s.to_multiset() == t.to_multiset(),
{
    assert forall|v: T::V| #[trigger] s.to_multiset().count(v) == t.to_multiset().count(v) by {
        lemma_with_key_count::<T>(s, v);
        lemma_with_key_count::<T>(t, v);
        assert(with_key::<T>(s, T::key(v)) == with_key::<T>(t, T::key(v)));
    }
    assert(s.to_multiset() =~= t.to_multiset());
}

} // verus!

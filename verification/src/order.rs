//! Lists in order: a list arranged so that what goes before comes first.

use vstd::prelude::*;

verus! {

/// Where `x` goes in the list `s`: before the elements at its end that `x`
/// goes before, and after the last element that `x` does not go before.
pub open spec fn rank_of<T>(s: Seq<T>, x: T, before: spec_fn(T, T) -> bool) -> int
    decreases s.len(),
{
    if s.len() == 0 || !before(x, s.last()) {
        s.len() as int
    } else {
        rank_of(s.drop_last(), x, before)
    }
}

/// The list `s` with `x` in its place.
pub open spec fn placed<T>(s: Seq<T>, x: T, before: spec_fn(T, T) -> bool) -> Seq<T> {
    s.insert(rank_of(s, x, before), x)
}

/// The elements of `s`, each put in its place one after the other.
pub open spec fn arranged<T>(s: Seq<T>, before: spec_fn(T, T) -> bool) -> Seq<T>
    decreases s.len(),
{
    if s.len() == 0 {
        Seq::empty()
    } else {
        placed(arranged(s.drop_last(), before), s.last(), before)
    }
}

/// Each element of the list equals the next or goes before it.
pub open spec fn in_order<T>(s: Seq<T>, before: spec_fn(T, T) -> bool) -> bool {
    forall|i: int| 0 <= i < s.len() - 1 ==> s[i] == s[i + 1] || #[trigger] before(s[i], s[i + 1])
}

/// Of any two elements of the list that differ, one goes before the other.
pub open spec fn decided<T>(s: Seq<T>, before: spec_fn(T, T) -> bool) -> bool {
    forall|i: int, j: int|
        0 <= i < s.len() && 0 <= j < s.len() ==> s[i] == s[j] || #[trigger] before(s[i], s[j])
            || before(s[j], s[i])
}

/// What goes before a second thing, which goes before a third, goes before
/// the third.
pub open spec fn passes_on<T>(before: spec_fn(T, T) -> bool) -> bool {
    forall|a: T, b: T, c: T| #[trigger] before(a, b) && #[trigger] before(b, c) ==> before(a, c)
}

/// Every element of `t` is an element of `s`.
pub open spec fn drawn_from<T>(t: Seq<T>, s: Seq<T>) -> bool {
    forall|k: int| 0 <= k < t.len() ==> exists|i: int| 0 <= i < s.len() && s[i] == #[trigger] t[k]
}

/// The place of `x` lies within the list, `x` goes before everything from
/// its place on, and does not go before what stands right before its place.
pub proof fn lemma_rank<T>(s: Seq<T>, x: T, before: spec_fn(T, T) -> bool)
    ensures
        0 <= rank_of(s, x, before) <= s.len(),
        forall|k: int| rank_of(s, x, before) <= k < s.len() ==> before(x, #[trigger] s[k]),
        rank_of(s, x, before) == 0 || !before(x, s[rank_of(s, x, before) - 1]),
    decreases s.len(),
{
    if s.len() > 0 && before(x, s.last()) {
        let r = s.drop_last();
        lemma_rank(r, x, before);
        assert forall|k: int| rank_of(s, x, before) <= k < s.len() implies before(
            x,
            #[trigger] s[k],
        ) by {
            if k < r.len() {
                assert(r[k] == s[k]);
            }
        }
        if rank_of(s, x, before) != 0 {
            assert(r[rank_of(s, x, before) - 1] == s[rank_of(s, x, before) - 1]);
        }
    }
}

/// A position such that `x` goes before everything from it on, and not
/// before what stands right before it, is the place of `x`.
pub proof fn lemma_rank_is<T>(s: Seq<T>, x: T, before: spec_fn(T, T) -> bool, j: int)
    requires
        0 <= j <= s.len(),
        forall|k: int| j <= k < s.len() ==> before(x, #[trigger] s[k]),
        j == 0 || !before(x, s[j - 1]),
    ensures
        rank_of(s, x, before) == j,
    decreases s.len(),
{
    if s.len() > 0 {
        if j == s.len() {
            assert(s.last() == s[j - 1]);
        } else {
            assert(before(x, s[s.len() - 1]));
            let r = s.drop_last();
            assert forall|k: int| j <= k < r.len() implies before(x, #[trigger] r[k]) by {
                assert(r[k] == s[k]);
            }
            if j != 0 {
                assert(r[j - 1] == s[j - 1]);
            }
            lemma_rank_is(r, x, before, j);
        }
    }
}

/// A list in order stays in order when an element is put in its place; it
/// then holds that element once more and everything else as before.
pub proof fn lemma_placed<T>(s: Seq<T>, x: T, before: spec_fn(T, T) -> bool)
    requires
        in_order(s, before),
        forall|i: int|
            0 <= i < s.len() ==> s[i] == x || #[trigger] before(s[i], x) || before(x, s[i]),
    ensures
        in_order(placed(s, x, before), before),
        placed(s, x, before).len() == s.len() + 1,
        placed(s, x, before).to_multiset() =~= s.to_multiset().insert(x),
        drawn_from(placed(s, x, before), s.push(x)),
{
    let j = rank_of(s, x, before);
    let t = placed(s, x, before);
    lemma_rank(s, x, before);
    s.insert_ensures(j, x);
    assert forall|k: int| 0 <= k < t.len() implies t[k] == if k < j {
        s[k]
    } else if k == j {
        x
    } else {
        s[k - 1]
    } by {}
    assert forall|i: int| 0 <= i < t.len() - 1 implies t[i] == t[i + 1] || #[trigger] before(
        t[i],
        t[i + 1],
    ) by {
        if i + 1 < j {
            assert(s[i] == s[i + 1] || before(s[i], s[i + 1]));
        } else if i + 1 == j {
            assert(s[i] == x || before(s[i], x) || before(x, s[i]));
        } else if i == j {
            assert(before(x, s[j]));
        } else {
            assert(s[i - 1] == s[i] || before(s[i - 1], s[i]));
        }
    }
    assert(t.remove(j) =~= s);
    vstd::seq_lib::to_multiset_remove(t, j);
    t.to_multiset_ensures();
    assert(t.contains(x)) by {
        assert(t[j] == x);
    }
    assert(t.to_multiset() =~= s.to_multiset().insert(x));
    assert forall|k: int| 0 <= k < t.len() implies exists|i: int|
        0 <= i < s.push(x).len() && s.push(x)[i] == #[trigger] t[k] by {
        if k < j {
            assert(s.push(x)[k] == t[k]);
        } else if k == j {
            assert(s.push(x)[s.len() as int] == t[k]);
        } else {
            assert(s.push(x)[k - 1] == t[k]);
        }
    }
}

/// The arranged list holds the elements of the list, each as often as the
/// list does, and is in order.
pub proof fn law_arranged<T>(s: Seq<T>, before: spec_fn(T, T) -> bool)
    requires
        decided(s, before),
    ensures
        arranged(s, before).len() == s.len(),
        arranged(s, before).to_multiset() =~= s.to_multiset(),
        in_order(arranged(s, before), before),
        drawn_from(arranged(s, before), s),
    decreases s.len(),
{
    if s.len() == 0 {
        assert(arranged(s, before) =~= s);
    } else {
        let r = s.drop_last();
        let x = s.last();
        assert forall|i: int, j: int| 0 <= i < r.len() && 0 <= j < r.len() implies r[i] == r[j]
            || #[trigger] before(r[i], r[j]) || before(r[j], r[i]) by {
            assert(r[i] == s[i] && r[j] == s[j]);
        }
        law_arranged(r, before);
        let t = arranged(r, before);
        assert forall|i: int| 0 <= i < t.len() implies t[i] == x || #[trigger] before(t[i], x)
            || before(x, t[i]) by {
            let k = choose|k: int| 0 <= k < r.len() && r[k] == t[i];
            assert(s[k] == t[i]);
            assert(s[s.len() - 1] == x);
            assert(s[k] == s[s.len() - 1] || before(s[k], s[s.len() - 1]) || before(
                s[s.len() - 1],
                s[k],
            ));
        }
        lemma_placed(t, x, before);
        let u = arranged(s, before);
        assert(s =~= r.push(x));
        r.to_multiset_ensures();
        assert forall|k: int| 0 <= k < u.len() implies exists|i: int|
            0 <= i < s.len() && s[i] == #[trigger] u[k] by {
            let i = choose|i: int| 0 <= i < t.push(x).len() && t.push(x)[i] == u[k];
            if i < t.len() {
                let i2 = choose|i2: int| 0 <= i2 < r.len() && r[i2] == t[i];
                assert(s[i2] == u[k]);
            } else {
                assert(s[s.len() - 1] == u[k]);
            }
        }
    }
}

/// In a list in order, the first element equals or goes before every
/// other.
pub proof fn lemma_first_in_order<T>(s: Seq<T>, before: spec_fn(T, T) -> bool, k: int)
    requires
        in_order(s, before),
        passes_on(before),
        0 <= k < s.len(),
    ensures
        s[0] == s[k] || before(s[0], s[k]),
    decreases k,
{
    if k > 0 {
        lemma_first_in_order(s, before, k - 1);
        let i = k - 1;
        assert(s[i] == s[i + 1] || before(s[i], s[i + 1]));
    }
}

/// In a list in order, each element equals or goes before every later
/// one.
pub proof fn lemma_in_order_pairs<T>(s: Seq<T>, before: spec_fn(T, T) -> bool, i: int, j: int)
    requires
        in_order(s, before),
        passes_on(before),
        0 <= i <= j < s.len(),
    ensures
        s[i] == s[j] || before(s[i], s[j]),
    decreases j - i,
{
    if i < j {
        lemma_in_order_pairs(s, before, i, j - 1);
        let k = j - 1;
        assert(s[k] == s[k + 1] || before(s[k], s[k + 1]));
    }
}

} // verus!

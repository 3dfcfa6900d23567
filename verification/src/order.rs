//! Stable ordering by a pair of numbers.

use vstd::prelude::*;

verus! {

/// What values are ordered by: the first number, then the second.
pub type Key = (i128, i128);

/// Whether `a` does not come after `b`.
pub open spec fn not_after(a: Key, b: Key) -> bool {
    a.0 < b.0 || (a.0 == b.0 && a.1 <= b.1)
}

/// `r` with `i` put behind everything that does not come after it.
pub open spec fn placed(r: Seq<usize>, keys: Seq<Key>, i: usize) -> Seq<usize>
    decreases r.len(),
{
    if r.len() == 0 || not_after(keys[r.last() as int], keys[i as int]) {
        r.push(i)
    } else {
        placed(r.drop_last(), keys, i).push(r.last())
    }
}

/// The places below `n`, ordered by their keys.
pub open spec fn order_below(keys: Seq<Key>, n: nat) -> Seq<usize>
    decreases n,
{
    if n == 0 {
        Seq::empty()
    } else {
        placed(order_below(keys, (n - 1) as nat), keys, (n - 1) as usize)
    }
}

/// All places, ordered by their keys; equal keys keep their order.
pub open spec fn order(keys: Seq<Key>) -> Seq<usize> {
    order_below(keys, keys.len())
}

/// Place `i` comes before place `j`: by its key, or by its position if the keys are equal.
pub open spec fn precedes(keys: Seq<Key>, i: usize, j: usize) -> bool {
    let a = keys[i as int];
    let b = keys[j as int];
    not_after(a, b) && (a == b ==> i < j)
}

/// `r` holds the places below `n` once each, in the order of their keys.
pub open spec fn is_order(r: Seq<usize>, keys: Seq<Key>, n: nat) -> bool {
    &&& r.len() == n
    &&& forall|a: int| 0 <= a < n ==> (#[trigger] r[a]) < n
    &&& forall|a: int, b: int| 0 <= a < b < n ==> precedes(keys, #[trigger] r[a], #[trigger] r[b])
}

proof fn lemma_placed(r: Seq<usize>, keys: Seq<Key>, i: usize)
    requires
        forall|a: int, b: int|
            0 <= a < b < r.len() ==> precedes(keys, #[trigger] r[a], #[trigger] r[b]),
        forall|a: int| 0 <= a < r.len() ==> (#[trigger] r[a]) < i,
    ensures
        placed(r, keys, i).len() == r.len() + 1,
        forall|a: int| 0 <= a < r.len() + 1 ==> (#[trigger] placed(r, keys, i)[a]) <= i,
        forall|a: int|
            0 <= a < r.len() + 1 ==> (#[trigger] placed(r, keys, i)[a]) == i || r.contains(
                placed(r, keys, i)[a],
            ),
        forall|a: int, b: int|
            0 <= a < b < r.len() + 1 ==> precedes(
                keys,
                #[trigger] placed(r, keys, i)[a],
                #[trigger] placed(r, keys, i)[b],
            ),
    decreases r.len(),
{
    let p = placed(r, keys, i);
    if r.len() == 0 {
    } else if not_after(keys[r.last() as int], keys[i as int]) {
        assert forall|a: int| 0 <= a < r.len() + 1 implies (#[trigger] p[a]) == i || r.contains(
            p[a],
        ) by {
            if a < r.len() {
                assert(r[a] == p[a]);
            }
        }
        assert forall|a: int, b: int| 0 <= a < b < r.len() + 1 implies precedes(
            keys,
            #[trigger] p[a],
            #[trigger] p[b],
        ) by {
            assert(p[a] == r[a]);
            if b < r.len() {
                assert(p[b] == r[b]);
            } else if a < r.len() - 1 {
                assert(precedes(keys, r[a], r[r.len() - 1]));
            }
        }
    } else {
        let s = r.drop_last();
        lemma_placed(s, keys, i);
        let q = placed(s, keys, i);
        assert(p == q.push(r.last()));
        assert forall|a: int| 0 <= a < r.len() + 1 implies (#[trigger] p[a]) == i || r.contains(
            p[a],
        ) by {
            if a < r.len() {
                assert(p[a] == q[a]);
                if q[a] != i {
                    let k = choose|k: int| 0 <= k < s.len() && s[k] == q[a];
                    assert(r[k] == q[a]);
                }
            } else {
                assert(r[r.len() - 1] == p[a]);
            }
        }
        assert forall|a: int| 0 <= a < r.len() + 1 implies (#[trigger] p[a]) <= i by {
            if a < r.len() {
                assert(p[a] == q[a]);
            } else {
                assert(p[a] == r[r.len() - 1]);
            }
        }
        assert forall|a: int, b: int| 0 <= a < b < r.len() + 1 implies precedes(
            keys,
            #[trigger] p[a],
            #[trigger] p[b],
        ) by {
            assert(p[a] == q[a]);
            if b < r.len() {
                assert(p[b] == q[b]);
            } else if q[a] != i {
                let k = choose|k: int| 0 <= k < s.len() && s[k] == q[a];
                assert(r[k] == q[a]);
                assert(precedes(keys, r[k], r[r.len() - 1]));
            }
        }
    }
}

/// Ordering keeps every place, puts smaller keys first and keeps the order of equal keys.
pub proof fn law_order(keys: Seq<Key>, n: nat)
    requires
        n <= keys.len() <= usize::MAX,
    ensures
        is_order(order_below(keys, n), keys, n),
        order_below(keys, n).no_duplicates(),
    decreases n,
{
    if n > 0 {
        let r = order_below(keys, (n - 1) as nat);
        law_order(keys, (n - 1) as nat);
        lemma_placed(r, keys, (n - 1) as usize);
        let p = order_below(keys, n);
        assert forall|a: int, b: int| 0 <= a < n && 0 <= b < n && a != b implies p[a] != p[b] by {
            if a < b {
                assert(precedes(keys, p[a], p[b]));
            } else {
                assert(precedes(keys, p[b], p[a]));
            }
        }
    }
}

fn is_not_after(a: Key, b: Key) -> (r: bool)
    ensures
        r == not_after(a, b),
{
    a.0 < b.0 || (a.0 == b.0 && a.1 <= b.1)
}

/// All places, ordered by their keys.
pub fn sorted_indices(keys: &Vec<Key>) -> (r: Vec<usize>)
    ensures
        r@ == order(keys@),
        is_order(r@, keys@, keys@.len()),
{
    let mut r: Vec<usize> = Vec::new();
    let mut i: usize = 0;
    while i < keys.len()
        invariant
            i <= keys.len(),
            r@ == order_below(keys@, i as nat),
        decreases keys.len() - i,
    {
        proof {
            law_order(keys@, i as nat);
        }
        let ghost start = r@;
        r.push(i);
        let mut j: usize = i;
        assert(start.take(i as int) =~= start);
        assert(start.skip(i as int) =~= Seq::empty());
        assert(placed(start, keys@, i) =~= placed(start.take(j as int), keys@, i) + start.skip(
            j as int,
        ));
        let mut moving: bool = true;
        while j > 0 && moving
            invariant
                i < keys.len(),
                start.len() == i,
                forall|a: int| 0 <= a < i ==> (#[trigger] start[a]) < i,
                j <= i,
                r.len() == i + 1,
                forall|a: int| 0 <= a < j ==> r[a] == start[a],
                forall|a: int| j < a <= i ==> r[a] == start[a - 1],
                placed(start, keys@, i) == placed(start.take(j as int), keys@, i) + start.skip(
                    j as int,
                ),
                !moving ==> j > 0 && not_after(keys[start[j - 1] as int], keys[i as int]),
            decreases j + (if moving {
                1int
            } else {
                0
            }),
        {
            let other: usize = r[j - 1];
            assert(start[j - 1] == other);
            if is_not_after(keys[other], keys[i]) {
                moving = false;
            } else {
                r.set(j, other);
                proof {
                    let t = start.take(j as int);
                    assert(t.last() == other);
                    assert(t.drop_last() =~= start.take(j - 1));
                    assert(placed(t, keys@, i) == placed(start.take(j - 1), keys@, i).push(other));
                    assert(placed(start.take(j - 1), keys@, i).push(other) + start.skip(j as int)
                        =~= placed(start.take(j - 1), keys@, i) + start.skip(j - 1));
                }
                j = j - 1;
            }
        }
        r.set(j, i);
        proof {
            let t = start.take(j as int);
            if j > 0 {
                assert(t.last() == start[j - 1]);
            }
            assert(placed(t, keys@, i) == t.push(i));
            assert(r@ =~= t.push(i) + start.skip(j as int));
        }
        i += 1;
    }
    proof {
        law_order(keys@, keys@.len());
    }
    r
}

/// A strictly increasing list with `x` in it.
pub open spec fn with_member(r: Seq<usize>, x: usize) -> Seq<usize>
    decreases r.len(),
{
    if r.len() == 0 || r.last() < x {
        r.push(x)
    } else if r.last() == x {
        r
    } else {
        with_member(r.drop_last(), x).push(r.last())
    }
}

/// The values of `s`, once each and in increasing order.
pub open spec fn sorted_set(s: Seq<usize>) -> Seq<usize>
    decreases s.len(),
{
    if s.len() == 0 {
        Seq::empty()
    } else {
        with_member(sorted_set(s.drop_last()), s.last())
    }
}

/// Each value is less than the next.
pub open spec fn increasing(r: Seq<usize>) -> bool {
    forall|a: int, b: int| 0 <= a < b < r.len() ==> (#[trigger] r[a]) < (#[trigger] r[b])
}

/// Adding a value keeps the list increasing and adds nothing else.
pub proof fn lemma_with_member(r: Seq<usize>, x: usize)
    requires
        increasing(r),
    ensures
        increasing(with_member(r, x)),
        forall|y: usize| #[trigger] with_member(r, x).contains(y) <==> (y == x || r.contains(y)),
    decreases r.len(),
{
    let w = with_member(r, x);
    if r.len() == 0 || r.last() < x {
        assert forall|a: int, b: int| 0 <= a < b < w.len() implies (#[trigger] w[a]) < (
        #[trigger] w[b]) by {
            assert(w[a] == r[a]);
            if b < r.len() {
                assert(w[b] == r[b]);
            } else if a < r.len() - 1 {
                assert(r[a] < r[r.len() - 1]);
            }
        }
        assert forall|y: usize| w.contains(y) <==> (y == x || r.contains(y)) by {
            if w.contains(y) && y != x {
                let k = choose|k: int| 0 <= k < w.len() && w[k] == y;
                assert(r[k] == y);
            }
            if y == x {
                assert(w[w.len() - 1] == x);
            }
            if r.contains(y) {
                let k = choose|k: int| 0 <= k < r.len() && r[k] == y;
                assert(w[k] == y);
            }
        }
    } else if r.last() == x {
        assert(r[r.len() - 1] == x);
    } else {
        let s = r.drop_last();
        lemma_with_member(s, x);
        let q = with_member(s, x);
        assert(w == q.push(r.last()));
        assert forall|a: int, b: int| 0 <= a < b < w.len() implies (#[trigger] w[a]) < (
        #[trigger] w[b]) by {
            assert(w[a] == q[a]);
            if b < q.len() {
                assert(w[b] == q[b]);
            } else {
                assert(q.contains(q[a]));
                if q[a] != x {
                    assert(s.contains(q[a]));
                    let k = choose|k: int| 0 <= k < s.len() && s[k] == q[a];
                    assert(r[k] == q[a]);
                    assert(r[k] < r[r.len() - 1]);
                }
            }
        }
        assert forall|y: usize| w.contains(y) <==> (y == x || r.contains(y)) by {
            if w.contains(y) {
                let k = choose|k: int| 0 <= k < w.len() && w[k] == y;
                if k < q.len() {
                    assert(q[k] == y);
                    assert(q.contains(y));
                    if y != x {
                        assert(s.contains(y));
                        let j = choose|j: int| 0 <= j < s.len() && s[j] == y;
                        assert(r[j] == y);
                    }
                } else {
                    assert(r[r.len() - 1] == y);
                }
            }
            if y == x || r.contains(y) {
                if y == r.last() {
                    assert(w[w.len() - 1] == y);
                } else {
                    if y != x {
                        let j = choose|j: int| 0 <= j < r.len() && r[j] == y;
                        assert(s[j] == y);
                        assert(s.contains(y));
                    }
                    assert(q.contains(y));
                    let k = choose|k: int| 0 <= k < q.len() && q[k] == y;
                    assert(w[k] == y);
                }
            }
        }
    }
}

/// Collecting values keeps each once and puts them in increasing order.
pub proof fn law_sorted_set(s: Seq<usize>)
    ensures
        increasing(sorted_set(s)),
        forall|y: usize| #[trigger] sorted_set(s).contains(y) <==> s.contains(y),
    decreases s.len(),
{
    if s.len() > 0 {
        let t = s.drop_last();
        law_sorted_set(t);
        lemma_with_member(sorted_set(t), s.last());
        assert forall|y: usize| sorted_set(s).contains(y) <==> s.contains(y) by {
            if t.contains(y) {
                let k = choose|k: int| 0 <= k < t.len() && t[k] == y;
                assert(s[k] == y);
            }
            if y == s.last() {
                assert(s[s.len() - 1] == y);
            }
            if s.contains(y) && y != s.last() {
                let k = choose|k: int| 0 <= k < s.len() && s[k] == y;
                assert(t[k] == y);
            }
        }
    }
}

/// Adds a value to an increasing list.
pub fn add_member(r: &mut Vec<usize>, x: usize)
    ensures
        final(r)@ == with_member(old(r)@, x),
{
    let ghost start = r@;
    let mut j: usize = r.len();
    assert(start.take(j as int) =~= start);
    assert(with_member(start, x) =~= with_member(start.take(j as int), x) + start.skip(j as int));
    while j > 0 && r[j - 1] > x
        invariant
            r@ == start,
            j <= r.len(),
            with_member(start, x) == with_member(start.take(j as int), x) + start.skip(j as int),
        decreases j,
    {
        proof {
            let t = start.take(j as int);
            assert(t.last() == start[j - 1]);
            assert(t.drop_last() =~= start.take(j - 1));
            assert(with_member(start.take(j - 1), x).push(start[j - 1]) + start.skip(j as int)
                =~= with_member(start.take(j - 1), x) + start.skip(j - 1));
        }
        j = j - 1;
    }
    let ghost t = start.take(j as int);
    if j > 0 && r[j - 1] == x {
        assert(t.last() == x);
        assert(t + start.skip(j as int) =~= start);
    } else {
        r.insert(j, x);
        proof {
            if j > 0 {
                assert(t.last() == start[j - 1]);
            }
            assert(t.push(x) + start.skip(j as int) =~= r@);
        }
    }
}

} // verus!

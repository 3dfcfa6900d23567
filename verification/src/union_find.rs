//! Disjoint sets as a forest of parent links.

use vstd::prelude::*;

verus! {

/// The link of `i` leads to an element of lesser rank, or `i` is a root.
pub open spec fn rank_at(parent: Seq<usize>, rank: Seq<nat>, i: int) -> bool {
    &&& parent[i] < parent.len()
    &&& parent[i] != i ==> rank[parent[i] as int] < rank[i]
}

/// `rank` decreases along every parent link.
pub open spec fn ranked(parent: Seq<usize>, rank: Seq<nat>) -> bool {
    &&& rank.len() == parent.len()
    &&& forall|i: int| 0 <= i < parent.len() ==> #[trigger] rank_at(parent, rank, i)
}

/// `owner[i]` is a root, the root of the parent of `i`, and `i` itself if `i` is a root.
pub open spec fn owner_at(parent: Seq<usize>, owner: Seq<usize>, i: int) -> bool {
    &&& owner[i] < parent.len()
    &&& parent[owner[i] as int] == owner[i]
    &&& owner[parent[i] as int] == owner[i]
    &&& parent[i] == i ==> owner[i] == i
}

/// `owner` names the root of each element.
pub open spec fn represents(parent: Seq<usize>, owner: Seq<usize>) -> bool {
    &&& owner.len() == parent.len()
    &&& forall|i: int| 0 <= i < parent.len() ==> #[trigger] owner_at(parent, owner, i)
}

/// The links form a forest.
pub open spec fn forest(parent: Seq<usize>) -> bool {
    &&& exists|rank: Seq<nat>| ranked(parent, rank)
    &&& exists|owner: Seq<usize>| represents(parent, owner)
}

/// A rank of a forest.
pub open spec fn rank_of(parent: Seq<usize>) -> Seq<nat> {
    choose|rank: Seq<nat>| ranked(parent, rank)
}

/// The root of each element of a forest.
pub open spec fn owners(parent: Seq<usize>) -> Seq<usize> {
    choose|owner: Seq<usize>| represents(parent, owner)
}

/// The element that `n` links lead to from `i`.
pub open spec fn ancestor(parent: Seq<usize>, i: int, n: nat) -> int
    decreases n,
{
    if n == 0 {
        i
    } else {
        ancestor(parent, parent[i] as int, (n - 1) as nat)
    }
}

/// Links lead from `i` to `j`.
pub open spec fn on_chain(parent: Seq<usize>, i: int, j: int) -> bool {
    exists|n: nat| #[trigger] ancestor(parent, i, n) == j
}

/// The links after every element that links lead to from `i` has been linked to its root.
pub open spec fn shortened(parent: Seq<usize>, i: int) -> Seq<usize> {
    Seq::new(
        parent.len(),
        |j: int| if on_chain(parent, i, j) { owners(parent)[i] } else { parent[j] },
    )
}

/// The links after the roots of `i` and then of `j` have been found and the first has been
/// linked to the second.
pub open spec fn united(parent: Seq<usize>, i: int, j: int) -> Seq<usize> {
    let both = shortened(shortened(parent, i), j);
    let (ri, rj) = (owners(parent)[i], owners(parent)[j]);
    if ri != rj {
        both.update(ri as int, rj)
    } else {
        both
    }
}

/// Links lead from `i` to itself and to where they lead from its parent.
proof fn lemma_on_chain(parent: Seq<usize>, i: int, j: int)
    ensures
        on_chain(parent, i, j) <==> i == j || on_chain(parent, parent[i] as int, j),
{
    if i == j {
        assert(ancestor(parent, i, 0) == j);
    }
    if on_chain(parent, parent[i] as int, j) {
        let n = choose|n: nat| #[trigger] ancestor(parent, parent[i] as int, n) == j;
        assert(ancestor(parent, i, n + 1) == j);
    }
    if on_chain(parent, i, j) {
        let n = choose|n: nat| #[trigger] ancestor(parent, i, n) == j;
        if n > 0 {
            assert(ancestor(parent, parent[i] as int, (n - 1) as nat) == j);
        }
    }
}

/// Links lead from a root only to itself.
proof fn lemma_root_chain(parent: Seq<usize>, i: int, n: nat)
    requires
        parent[i] == i,
    ensures
        ancestor(parent, i, n) == i,
    decreases n,
{
    if n > 0 {
        lemma_root_chain(parent, i, (n - 1) as nat);
    }
}

proof fn lemma_owner_unique_at(
    parent: Seq<usize>,
    rank: Seq<nat>,
    a: Seq<usize>,
    b: Seq<usize>,
    i: int,
)
    requires
        ranked(parent, rank),
        represents(parent, a),
        represents(parent, b),
        0 <= i < parent.len(),
    ensures
        a[i] == b[i],
    decreases rank[i],
{
    assert(rank_at(parent, rank, i));
    assert(owner_at(parent, a, i) && owner_at(parent, b, i));
    if parent[i] != i {
        lemma_owner_unique_at(parent, rank, a, b, parent[i] as int);
    }
}

/// The roots of a forest are determined.
pub proof fn lemma_owner_unique(parent: Seq<usize>, owner: Seq<usize>)
    requires
        exists|rank: Seq<nat>| ranked(parent, rank),
        represents(parent, owner),
    ensures
        owners(parent) == owner,
{
    let rank = choose|rank: Seq<nat>| ranked(parent, rank);
    let chosen = owners(parent);
    assert(represents(parent, chosen));
    assert forall|i: int| 0 <= i < parent.len() implies chosen[i] == owner[i] by {
        lemma_owner_unique_at(parent, rank, chosen, owner, i);
    }
    assert(chosen =~= owner);
}

proof fn lemma_root_rank(parent: Seq<usize>, rank: Seq<nat>, owner: Seq<usize>, i: int)
    requires
        ranked(parent, rank),
        represents(parent, owner),
        0 <= i < parent.len(),
    ensures
        owner[i] == i || rank[owner[i] as int] < rank[i],
    decreases rank[i],
{
    assert(rank_at(parent, rank, i));
    assert(owner_at(parent, owner, i));
    if parent[i] != i {
        lemma_root_rank(parent, rank, owner, parent[i] as int);
    }
}

/// Linking an element to its root keeps the roots.
proof fn lemma_link_to_root(mid: Seq<usize>, own: Seq<usize>, i: int)
    requires
        forest(mid),
        represents(mid, own),
        0 <= i < mid.len(),
    ensures
        forest(mid.update(i, own[i])),
        owners(mid.update(i, own[i])) == own,
{
    let rank = rank_of(mid);
    let r = own[i];
    let end = mid.update(i, r);
    lemma_root_rank(mid, rank, own, i);
    assert(owner_at(mid, own, i));
    assert(owner_at(mid, own, r as int));
    assert forall|k: int| 0 <= k < end.len() implies #[trigger] rank_at(end, rank, k) by {
        assert(rank_at(mid, rank, k));
    }
    assert(ranked(end, rank));
    assert forall|k: int| 0 <= k < end.len() implies #[trigger] owner_at(end, own, k) by {
        assert(owner_at(mid, own, k));
    }
    assert(represents(end, own));
    lemma_owner_unique(end, own);
}

/// Linking one root to another joins their sets.
proof fn lemma_link_roots(mid: Seq<usize>, own: Seq<usize>, i: int, j: int)
    requires
        forest(mid),
        represents(mid, own),
        0 <= i < mid.len(),
        0 <= j < mid.len(),
        own[i] != own[j],
    ensures
        forest(mid.update(own[i] as int, own[j])),
        owners(mid.update(own[i] as int, own[j])) == joined(own, i, j),
{
    let rank = rank_of(mid);
    let ri = own[i];
    let rj = own[j];
    let end = mid.update(ri as int, rj);
    let own2 = joined(own, i, j);
    let rank2 = Seq::new(
        mid.len(),
        |k: int| if own[k] == ri { rank[k] + rank[rj as int] + 1 } else { rank[k] },
    );
    assert(owner_at(mid, own, i) && owner_at(mid, own, j));
    assert(owner_at(mid, own, ri as int) && owner_at(mid, own, rj as int));
    assert forall|k: int| 0 <= k < end.len() implies #[trigger] rank_at(end, rank2, k) by {
        assert(rank_at(mid, rank, k));
        assert(owner_at(mid, own, k));
    }
    assert(ranked(end, rank2));
    assert forall|k: int| 0 <= k < end.len() implies #[trigger] owner_at(end, own2, k) by {
        assert(rank_at(mid, rank, k));
        assert(owner_at(mid, own, k));
        assert(owner_at(mid, own, mid[k] as int));
    }
    assert(represents(end, own2));
    lemma_owner_unique(end, own2);
}

/// Every element on its own.
pub fn singletons(n: usize) -> (parent: Vec<usize>)
    ensures
        parent.len() == n,
        forest(parent@),
        owners(parent@) == Seq::new(n as nat, |i: int| i as usize),
        parent@ == Seq::new(n as nat, |i: int| i as usize),
{
    let mut parent: Vec<usize> = Vec::new();
    let mut i: usize = 0;
    while i < n
        invariant
            i <= n,
            parent.len() == i,
            forall|k: int| 0 <= k < i ==> parent[k] == k,
        decreases n - i,
    {
        parent.push(i);
        i += 1;
    }
    proof {
        let own = Seq::new(n as nat, |k: int| k as usize);
        let rank = Seq::new(n as nat, |k: int| 0nat);
        assert(parent@ =~= own);
        assert forall|k: int| 0 <= k < n implies #[trigger] rank_at(parent@, rank, k) by {}
        assert(ranked(parent@, rank));
        assert forall|k: int| 0 <= k < n implies #[trigger] owner_at(parent@, own, k) by {}
        assert(represents(parent@, own));
        lemma_owner_unique(parent@, own);
    }
    parent
}

/// The root of `i`. Every element on the way is linked to it; no other link changes, and no
/// root does.
pub fn find(parent: &mut Vec<usize>, i: usize) -> (r: usize)
    requires
        forest(old(parent)@),
        i < old(parent).len(),
    ensures
        r == owners(old(parent)@)[i as int],
        r < old(parent).len(),
        final(parent).len() == old(parent).len(),
        forest(final(parent)@),
        owners(final(parent)@) == owners(old(parent)@),
        final(parent)@ == shortened(old(parent)@, i as int),
    decreases rank_of(old(parent)@)[i as int],
{
    let ghost before = parent@;
    let ghost own = owners(before);
    proof {
        assert(ranked(before, rank_of(before)));
        assert(represents(before, own));
        assert(rank_at(before, rank_of(before), i as int));
        assert(owner_at(before, own, i as int));
    }
    let p: usize = parent[i];
    if p != i {
        let r: usize = find(parent, p);
        proof {
            assert(represents(parent@, own));
            lemma_link_to_root(parent@, own, i as int);
        }
        parent.set(i, r);
        proof {
            assert forall|j: int| 0 <= j < before.len() implies parent@[j] == shortened(
                before,
                i as int,
            )[j] by {
                lemma_on_chain(before, i as int, j);
            }
            assert(parent@ =~= shortened(before, i as int));
        }
        r
    } else {
        proof {
            assert forall|j: int| 0 <= j < before.len() implies parent@[j] == shortened(
                before,
                i as int,
            )[j] by {
                if on_chain(before, i as int, j) {
                    let n = choose|n: nat| #[trigger] ancestor(before, i as int, n) == j;
                    lemma_root_chain(before, i as int, n);
                }
            }
            assert(parent@ =~= shortened(before, i as int));
        }
        p
    }
}

/// Joins the set of `i` to the set of `j`: the root of `i` is linked to that of `j`.
pub fn union(parent: &mut Vec<usize>, i: usize, j: usize)
    requires
        forest(old(parent)@),
        i < old(parent).len(),
        j < old(parent).len(),
    ensures
        final(parent).len() == old(parent).len(),
        forest(final(parent)@),
        owners(final(parent)@) == joined(owners(old(parent)@), i as int, j as int),
        final(parent)@ == united(old(parent)@, i as int, j as int),
{
    let ghost own = owners(parent@);
    let root_i: usize = find(parent, i);
    let root_j: usize = find(parent, j);
    if root_i != root_j {
        proof {
            assert(represents(parent@, own));
            lemma_link_roots(parent@, own, i as int, j as int);
        }
        parent.set(root_i, root_j);
    } else {
        assert(joined(own, i as int, j as int) =~= own);
    }
}

/// The roots after the set of `i` has been joined to the set of `j`.
pub open spec fn joined(owner: Seq<usize>, i: int, j: int) -> Seq<usize> {
    Seq::new(owner.len(), |k: int| if owner[k] == owner[i] { owner[j] } else { owner[k] })
}

} // verus!

//! Disjoint sets over `0..n` with union by rank and path compression.

use vstd::prelude::*;

verus! {

/// Number of indices below `k` that are their own parent.
pub open spec fn count_roots(parent: Seq<usize>, k: int) -> nat
    decreases k,
{
    if k <= 0 {
        0
    } else {
        count_roots(parent, k - 1) + if parent[k - 1] == k - 1 {
            1nat
        } else {
            0nat
        }
    }
}

/// The representative reached from `i` by following parent links.
///
/// A link is followed only while it leads to a strictly higher rank, so the
/// walk ends on every pair of sequences, well formed or not.
pub open spec fn root_of(parent: Seq<usize>, rank: Seq<usize>, i: int) -> int
    decreases usize::MAX - rank[i],
{
    if 0 <= i < parent.len() && i < rank.len() && parent[i] != i && parent[i] < parent.len()
        && parent[i] < rank.len() && rank[i] < rank[parent[i] as int] {
        root_of(parent, rank, parent[i] as int)
    } else {
        i
    }
}

/// The forest is well formed: links stay in range, ranks grow strictly
/// towards the root, and no rank exceeds the number of unions made so far.
pub open spec fn forest_wf(parent: Seq<usize>, rank: Seq<usize>) -> bool {
    &&& parent.len() == rank.len()
    &&& forall|i: int| 0 <= i < parent.len() ==> #[trigger] parent[i] < parent.len()
    &&& forall|i: int|
        0 <= i < parent.len() && #[trigger] parent[i] != i ==> rank[i] < rank[parent[i] as int]
    &&& forall|i: int|
        0 <= i < parent.len() ==> (#[trigger] rank[i]) + count_roots(parent, parent.len() as int)
            <= parent.len()
}

/// A forest that has a root counts at least one.
proof fn lemma_count_roots_positive(parent: Seq<usize>, r: int, k: int)
    requires
        0 <= r < k <= parent.len(),
        parent[r] == r,
    ensures
        count_roots(parent, k) >= 1,
    decreases k,
{
    if k - 1 > r {
        lemma_count_roots_positive(parent, r, k - 1);
    }
}

proof fn lemma_count_roots_identity(parent: Seq<usize>, k: int)
    requires
        0 <= k <= parent.len(),
        forall|i: int| 0 <= i < k ==> parent[i] == i,
    ensures
        count_roots(parent, k) == k,
    decreases k,
{
    if k > 0 {
        lemma_count_roots_identity(parent, k - 1);
    }
}

proof fn lemma_count_roots_update(parent: Seq<usize>, x: int, v: usize, k: int)
    requires
        0 <= x < parent.len(),
        0 <= k <= parent.len(),
    ensures
        count_roots(parent.update(x, v), k) + (if x < k && parent[x] == x {
            1nat
        } else {
            0nat
        }) == count_roots(parent, k) + (if x < k && v == x {
            1nat
        } else {
            0nat
        }),
    decreases k,
{
    if k > 0 {
        lemma_count_roots_update(parent, x, v, k - 1);
    }
}

/// The representative of a well-formed forest is in range and is a root.
proof fn lemma_root_is_root(parent: Seq<usize>, rank: Seq<usize>, i: int)
    requires
        forest_wf(parent, rank),
        0 <= i < parent.len(),
    ensures
        0 <= root_of(parent, rank, i) < parent.len(),
        parent[root_of(parent, rank, i)] == root_of(parent, rank, i),
        rank[i] <= rank[root_of(parent, rank, i)],
        parent[i] != i ==> rank[i] < rank[root_of(parent, rank, i)],
        root_of(parent, rank, root_of(parent, rank, i)) == root_of(parent, rank, i),
    decreases usize::MAX - rank[i],
{
    if parent[i] != i {
        lemma_root_is_root(parent, rank, parent[i] as int);
    }
}

/// Pointing a non-root straight at its representative changes no
/// representative.
proof fn lemma_compress_keeps_roots(parent: Seq<usize>, rank: Seq<usize>, x: int, k: int)
    requires
        forest_wf(parent, rank),
        0 <= x < parent.len(),
        parent[x] != x,
        0 <= k < parent.len(),
    ensures
        root_of(parent.update(x, root_of(parent, rank, x) as usize), rank, k) == root_of(
            parent,
            rank,
            k,
        ),
    decreases usize::MAX - rank[k],
{
    let r = root_of(parent, rank, x);
    let moved = parent.update(x, r as usize);
    lemma_root_is_root(parent, rank, x);
    if parent[k] == k {
        assert(moved[k] == k);
    } else if k == x {
        assert(moved[r] == r);
        assert(root_of(moved, rank, r) == r);
        assert(root_of(moved, rank, x) == root_of(moved, rank, r));
    } else {
        lemma_compress_keeps_roots(parent, rank, x, parent[k] as int);
        assert(moved[k] == parent[k]);
    }
}

proof fn lemma_compress_keeps_wf(parent: Seq<usize>, rank: Seq<usize>, x: int)
    requires
        forest_wf(parent, rank),
        0 <= x < parent.len(),
        parent[x] != x,
    ensures
        forest_wf(parent.update(x, root_of(parent, rank, x) as usize), rank),
{
    let r = root_of(parent, rank, x);
    let moved = parent.update(x, r as usize);
    lemma_root_is_root(parent, rank, x);
    lemma_count_roots_update(parent, x, r as usize, parent.len() as int);
    assert(count_roots(moved, moved.len() as int) == count_roots(parent, parent.len() as int));
    assert forall|i: int| 0 <= i < moved.len() && #[trigger] moved[i] != i implies rank[i] < rank[moved[i] as int] by {
        if i != x {
            assert(parent[i] != i);
        }
    }
}

/// Hanging the root `c` below the root `p` moves exactly the set of `c`.
proof fn lemma_link_roots(
    parent: Seq<usize>,
    rank: Seq<usize>,
    rank2: Seq<usize>,
    c: int,
    p: int,
    k: int,
)
    requires
        forest_wf(parent, rank),
        0 <= c < parent.len(),
        0 <= p < parent.len(),
        c != p,
        parent[c] == c,
        parent[p] == p,
        rank2.len() == rank.len(),
        forall|i: int| 0 <= i < rank.len() && i != p ==> rank2[i] == rank[i],
        rank[p] <= rank2[p],
        rank[c] < rank2[p],
        0 <= k < parent.len(),
    ensures
        root_of(parent.update(c, p as usize), rank2, k) == if root_of(parent, rank, k) == c {
            p
        } else {
            root_of(parent, rank, k)
        },
    decreases usize::MAX - rank[k],
{
    let moved = parent.update(c, p as usize);
    if k == c {
        assert(moved[c] == p);
        assert(moved[p] == p);
        assert(root_of(moved, rank2, p) == p);
    } else if parent[k] == k {
        assert(moved[k] == k);
    } else {
        let up = parent[k] as int;
        lemma_link_roots(parent, rank, rank2, c, p, up);
        assert(moved[k] == parent[k]);
        assert(rank[k] < rank[up]);
        assert(rank2[k] < rank2[up]);
    }
}

/// `k` lies on the way from `i` to its representative, both ends included.
pub open spec fn on_path_of(parent: Seq<usize>, rank: Seq<usize>, i: int, k: int) -> bool
    decreases usize::MAX - rank[i],
{
    k == i || (0 <= i < parent.len() && i < rank.len() && parent[i] != i && parent[i] < parent.len()
        && parent[i] < rank.len() && rank[i] < rank[parent[i] as int] && on_path_of(
        parent,
        rank,
        parent[i] as int,
        k,
    ))
}

/// What lies on the way from `i` is an element of rank at least that of
/// `i`, and the representative of `i` lies on it.
proof fn lemma_on_path_rank(parent: Seq<usize>, rank: Seq<usize>, i: int, k: int)
    requires
        forest_wf(parent, rank),
        0 <= i < parent.len(),
        on_path_of(parent, rank, i, k),
    ensures
        0 <= k < parent.len(),
        rank[i] <= rank[k],
        k != i ==> rank[i] < rank[k],
        root_of(parent, rank, k) == root_of(parent, rank, i),
    decreases usize::MAX - rank[i],
{
    if k != i {
        lemma_on_path_rank(parent, rank, parent[i] as int, k);
    }
}

/// The way from `i` goes on from each of its elements to that element's
/// parent.
proof fn lemma_on_path_step(parent: Seq<usize>, rank: Seq<usize>, i: int, c: int)
    requires
        forest_wf(parent, rank),
        0 <= i < parent.len(),
        on_path_of(parent, rank, i, c),
    ensures
        on_path_of(parent, rank, i, parent[c] as int),
    decreases usize::MAX - rank[i],
{
    lemma_on_path_rank(parent, rank, i, c);
    if c == i {
        if parent[i] != i {
            assert(on_path_of(parent, rank, parent[i] as int, parent[i] as int));
        }
    } else {
        lemma_on_path_step(parent, rank, parent[i] as int, c);
    }
}

/// A partition of `0..n` into disjoint sets.
pub struct UnionFind {
    parent: Vec<usize>,
    rank: Vec<usize>,
}

impl UnionFind {
    /// Number of elements.
    pub closed spec fn size(&self) -> nat {
        self.parent@.len()
    }

    /// The invariant that every operation keeps.
    pub closed spec fn wf(&self) -> bool {
        forest_wf(self.parent@, self.rank@)
    }

    /// The representative of the set that holds `i`.
    pub closed spec fn root(&self, i: int) -> int {
        root_of(self.parent@, self.rank@, i)
    }

    /// `i` and `j` lie in one set.
    pub open spec fn same_set(&self, i: int, j: int) -> bool {
        self.root(i) == self.root(j)
    }

    /// The element that `i` is linked to; a representative is linked to
    /// itself.
    pub closed spec fn parent_of(&self, i: int) -> int {
        self.parent@[i] as int
    }

    /// The rank of `i`: a bound on the length of the ways that end in `i`.
    pub closed spec fn rank_of(&self, i: int) -> int {
        self.rank@[i] as int
    }

    /// `k` lies on the way from `i` to its representative, both ends
    /// included.
    pub closed spec fn on_path(&self, i: int, k: int) -> bool {
        on_path_of(self.parent@, self.rank@, i, k)
    }

    /// The representative that stands for the sets of `i` and `j` once they
    /// are merged: of their two representatives the one of higher rank,
    /// and that of `i` where the ranks are equal.
    pub open spec fn winner(&self, i: int, j: int) -> int {
        if self.rank_of(self.root(i)) >= self.rank_of(self.root(j)) {
            self.root(i)
        } else {
            self.root(j)
        }
    }

    /// How links, ways and representatives hang together: a link leads to
    /// an element of higher rank; the way from `i` is `i` and then the way
    /// from its parent, it stays in the set of `i` and ends at its
    /// representative, the one element of the set that is linked to
    /// itself.
    pub proof fn lemma_links(&self, i: int, k: int)
        requires
            self.wf(),
            0 <= i < self.size(),
        ensures
            0 <= self.parent_of(i) < self.size(),
            self.parent_of(i) != i ==> self.rank_of(i) < self.rank_of(self.parent_of(i)),
            self.root(i) == if self.parent_of(i) == i {
                i
            } else {
                self.root(self.parent_of(i))
            },
            self.on_path(i, k) <==> k == i || (self.parent_of(i) != i && self.on_path(
                self.parent_of(i),
                k,
            )),
            self.on_path(i, self.root(i)),
            self.parent_of(i) == i <==> self.root(i) == i,
            self.on_path(i, k) ==> 0 <= k < self.size() && self.root(k) == self.root(i)
                && self.rank_of(i) <= self.rank_of(k),
    {
        lemma_root_is_root(self.parent@, self.rank@, i);
        Self::lemma_root_on_path(self.parent@, self.rank@, i);
        if self.on_path(i, k) {
            lemma_on_path_rank(self.parent@, self.rank@, i, k);
        }
    }

    /// The representative of `i` lies on the way from `i`.
    proof fn lemma_root_on_path(parent: Seq<usize>, rank: Seq<usize>, i: int)
        requires
            forest_wf(parent, rank),
            0 <= i < parent.len(),
        ensures
            on_path_of(parent, rank, i, root_of(parent, rank, i)),
        decreases usize::MAX - rank[i],
    {
        if parent[i] != i {
            Self::lemma_root_on_path(parent, rank, parent[i] as int);
        }
    }

    /// The element that `i` is linked to.
    pub fn parent_at(&self, i: usize) -> (p: usize)
        requires
            self.wf(),
            i < self.size(),
        ensures
            p == self.parent_of(i as int),
            p < self.size(),
    {
        self.parent[i]
    }

    /// The rank of `i`.
    pub fn rank_at(&self, i: usize) -> (rank: usize)
        requires
            self.wf(),
            i < self.size(),
        ensures
            rank == self.rank_of(i as int),
    {
        self.rank[i]
    }

    /// Representatives are elements, and are their own representatives.
    pub proof fn lemma_root_in_range(&self, i: int)
        requires
            self.wf(),
            0 <= i < self.size(),
        ensures
            0 <= self.root(i) < self.size(),
            self.root(self.root(i)) == self.root(i),
    {
        lemma_root_is_root(self.parent@, self.rank@, i);
    }

    /// `size` singleton sets.
    pub fn new(size: usize) -> (uf: Self)
        ensures
            uf.wf(),
            uf.size() == size,
            forall|i: int| 0 <= i < size ==> uf.root(i) == i,
            forall|i: int| 0 <= i < size ==> #[trigger] uf.parent_of(i) == i,
            forall|i: int| 0 <= i < size ==> #[trigger] uf.rank_of(i) == 0,
    {
        let mut parent: Vec<usize> = Vec::new();
        let mut rank: Vec<usize> = Vec::new();
        let mut i: usize = 0;
        while i < size
            invariant
                i <= size,
                parent@.len() == i,
                rank@.len() == i,
                forall|k: int| 0 <= k < i ==> parent@[k] == k,
                forall|k: int| 0 <= k < i ==> rank@[k] == 0,
            decreases size - i,
        {
            parent.push(i);
            rank.push(0);
            i = i + 1;
        }
        proof {
            lemma_count_roots_identity(parent@, size as int);
        }
        UnionFind { parent, rank }
    }

    /// Returns the representative of `i`'s set and shortens the way to it:
    /// afterwards `i` and every element that lay on its way are linked to
    /// the representative itself. No other link, no rank and no set
    /// changes.
    pub fn find(&mut self, i: usize) -> (r: usize)
        requires
            old(self).wf(),
            i < old(self).size(),
        ensures
            final(self).wf(),
            final(self).size() == old(self).size(),
            r == old(self).root(i as int),
            r < old(self).size(),
            forall|k: int| 0 <= k < old(self).size() ==> final(self).root(k) == old(self).root(k),
            forall|k: int|
                0 <= k < old(self).size() ==> #[trigger] final(self).rank_of(k) == old(self).rank_of(
                    k,
                ),
            forall|k: int|
                0 <= k < old(self).size() ==> #[trigger] final(self).parent_of(k) == if old(
                    self,
                ).on_path(i as int, k) {
                    r as int
                } else {
                    old(self).parent_of(k)
                },
            final(self).parent_of(i as int) == r,
            final(self).parent_of(r as int) == r,
    {
        let mut root: usize = i;
        while self.parent[root] != root
            invariant
                self.wf(),
                *self == *old(self),
                root < self.parent@.len(),
                root_of(self.parent@, self.rank@, root as int) == root_of(
                    self.parent@,
                    self.rank@,
                    i as int,
                ),
            decreases usize::MAX - self.rank@[root as int],
        {
            root = self.parent[root];
        }
        let ghost parent0 = old(self).parent@;
        let ghost rank0 = old(self).rank@;
        proof {
            lemma_root_is_root(parent0, rank0, i as int);
        }
        let mut cur: usize = i;
        while self.parent[cur] != cur
            invariant
                self.wf(),
                forest_wf(parent0, rank0),
                parent0 == old(self).parent@,
                rank0 == old(self).rank@,
                i < parent0.len(),
                self.parent@.len() == parent0.len(),
                self.rank@ == rank0,
                cur < self.parent@.len(),
                root < self.parent@.len(),
                self.parent@[root as int] == root,
                parent0[root as int] == root,
                root_of(self.parent@, self.rank@, cur as int) == root,
                root == root_of(parent0, rank0, i as int),
                forall|k: int|
                    0 <= k < self.parent@.len() ==> root_of(self.parent@, self.rank@, k)
                        == root_of(parent0, rank0, k),
                on_path_of(parent0, rank0, i as int, cur as int),
                forall|k: int|
                    0 <= k < parent0.len() ==> #[trigger] self.parent@[k] == if on_path_of(
                        parent0,
                        rank0,
                        i as int,
                        k,
                    ) && !on_path_of(parent0, rank0, cur as int, k) {
                        root
                    } else {
                        parent0[k]
                    },
            decreases usize::MAX - self.rank@[cur as int],
        {
            let next: usize = self.parent[cur];
            let ghost links = self.parent@;
            proof {
                let rk = self.rank@;
                lemma_compress_keeps_wf(links, rk, cur as int);
                assert forall|k: int| 0 <= k < links.len() implies root_of(
                    links.update(cur as int, root),
                    rk,
                    k,
                ) == root_of(links, rk, k) by {
                    lemma_compress_keeps_roots(links, rk, cur as int, k);
                }
                assert(root_of(links, rk, next as int) == root);
                // The link of `cur` is still the one it had.
                assert(on_path_of(parent0, rank0, cur as int, cur as int));
                assert(links[cur as int] == parent0[cur as int]);
                lemma_on_path_step(parent0, rank0, i as int, cur as int);
            }
            self.parent.set(cur, root);
            proof {
                assert forall|k: int| 0 <= k < parent0.len() implies #[trigger] self.parent@[k]
                    == if on_path_of(parent0, rank0, i as int, k) && !on_path_of(
                    parent0,
                    rank0,
                    next as int,
                    k,
                ) {
                    root
                } else {
                    parent0[k]
                } by {
                    if k == cur {
                        if on_path_of(parent0, rank0, next as int, k) {
                            lemma_on_path_rank(parent0, rank0, next as int, k);
                        }
                    } else {
                        assert(self.parent@[k] == links[k]);
                        assert(on_path_of(parent0, rank0, cur as int, k) <==> on_path_of(
                            parent0,
                            rank0,
                            next as int,
                            k,
                        ));
                    }
                }
            }
            cur = next;
        }
        proof {
            // `cur` is the representative: what lay on the way from `i` is
            // linked to it, and so is the representative itself.
            assert(on_path_of(parent0, rank0, cur as int, cur as int));
            assert(self.parent@[cur as int] == parent0[cur as int]);
            assert(cur == root);
            assert forall|k: int| 0 <= k < parent0.len() implies #[trigger] self.parent@[k]
                == if on_path_of(parent0, rank0, i as int, k) {
                root
            } else {
                parent0[k]
            } by {
                if on_path_of(parent0, rank0, root as int, k) {
                    assert(k == root);
                }
            }
            assert(on_path_of(parent0, rank0, i as int, i as int));
        }
        root
    }

    /// Merges the sets of `i` and `j` by rank: of the two representatives
    /// the one of higher rank stands for the merged set, and that of `i`
    /// where the ranks are equal, whose rank then grows by one. No other
    /// rank and no other set changes, and nothing does where `i` and `j`
    /// share a set already.
    pub fn union(&mut self, i: usize, j: usize)
        requires
            old(self).wf(),
            i < old(self).size(),
            j < old(self).size(),
        ensures
            final(self).wf(),
            final(self).size() == old(self).size(),
            forall|a: int, b: int|
                0 <= a < old(self).size() && 0 <= b < old(self).size() ==> (
                    #[trigger] final(self).same_set(a, b) <==> (
                        old(self).same_set(a, b)
                        || (old(self).same_set(a, i as int) && old(self).same_set(b, j as int))
                        || (old(self).same_set(a, j as int) && old(self).same_set(b, i as int))
                    )
                ),
            forall|k: int|
                0 <= k < old(self).size() ==> #[trigger] final(self).root(k) == if old(
                    self,
                ).same_set(k, i as int) || old(self).same_set(k, j as int) {
                    old(self).winner(i as int, j as int)
                } else {
                    old(self).root(k)
                },
            forall|k: int|
                0 <= k < old(self).size() ==> #[trigger] final(self).rank_of(k) == if !old(
                    self,
                ).same_set(i as int, j as int) && old(self).rank_of(old(self).root(i as int))
                    == old(self).rank_of(old(self).root(j as int)) && k == old(self).root(
                    i as int,
                ) {
                    old(self).rank_of(k) + 1
                } else {
                    old(self).rank_of(k)
                },
    {
        let root_i: usize = self.find(i);
        let root_j: usize = self.find(j);
        proof {
            lemma_root_is_root(old(self).parent@, old(self).rank@, i as int);
            lemma_root_is_root(old(self).parent@, old(self).rank@, j as int);
            assert(self.rank@ =~= old(self).rank@) by {
                assert forall|k: int| 0 <= k < old(self).size() implies self.rank@[k] == old(
                    self,
                ).rank@[k] by {
                    assert(self.rank_of(k) == old(self).rank_of(k));
                }
            }
        }
        if root_i != root_j {
            let rank_i: usize = self.rank[root_i];
            let rank_j: usize = self.rank[root_j];
            let n: usize = self.parent.len();
            proof {
                lemma_root_is_root(self.parent@, self.rank@, i as int);
                lemma_root_is_root(self.parent@, self.rank@, j as int);
                lemma_count_roots_positive(
                    self.parent@,
                    root_i as int,
                    self.parent@.len() as int,
                );
                assert(self.rank@[root_i as int] + count_roots(
                    self.parent@,
                    self.parent@.len() as int,
                ) <= n);
            }
            let ghost parents = self.parent@;
            let ghost ranks = self.rank@;
            if rank_i > rank_j {
                self.parent.set(root_j, root_i);
                proof {
                    Self::lemma_linked(parents, ranks, ranks, root_j as int, root_i as int);
                }
            } else if rank_i < rank_j {
                self.parent.set(root_i, root_j);
                proof {
                    Self::lemma_linked(parents, ranks, ranks, root_i as int, root_j as int);
                }
            } else {
                self.parent.set(root_j, root_i);
                self.rank.set(root_i, rank_i + 1);
                proof {
                    Self::lemma_linked(parents, ranks, self.rank@, root_j as int, root_i as int);
                }
            }
        }
    }

    /// After a link of root `c` below root `p` the forest is well formed and
    /// every representative is as `lemma_link_roots` says.
    proof fn lemma_linked(parent: Seq<usize>, rank: Seq<usize>, rank2: Seq<usize>, c: int, p: int)
        requires
            forest_wf(parent, rank),
            0 <= c < parent.len(),
            0 <= p < parent.len(),
            c != p,
            parent[c] == c,
            parent[p] == p,
            rank2 == rank || (rank[c] == rank[p] && rank[p] < usize::MAX && rank2 == rank.update(
                p,
                (rank[p] + 1) as usize,
            )),
            rank[c] < rank2[p],
        ensures
            forest_wf(parent.update(c, p as usize), rank2),
            forall|k: int|
                0 <= k < parent.len() ==> #[trigger] root_of(parent.update(c, p as usize), rank2, k)
                    == if root_of(parent, rank, k) == c {
                    p
                } else {
                    root_of(parent, rank, k)
                },
    {
        let moved = parent.update(c, p as usize);
        let n = parent.len() as int;
        lemma_count_roots_update(parent, c, p as usize, n);
        assert(count_roots(moved, n) + 1 == count_roots(parent, n));
        assert forall|i: int| 0 <= i < n && #[trigger] moved[i] != i implies rank2[i] < rank2[moved[i] as int] by {
            if i != c {
                assert(parent[i] != i);
                assert(rank[i] < rank[parent[i] as int]);
            }
        }
        assert forall|i: int| 0 <= i < n implies (#[trigger] rank2[i]) + count_roots(moved, n) <= n by {
            assert(rank[i] + count_roots(parent, n) <= n);
        }
        assert forall|k: int| 0 <= k < n implies #[trigger] root_of(moved, rank2, k) == if root_of(
            parent,
            rank,
            k,
        ) == c {
            p
        } else {
            root_of(parent, rank, k)
        } by {
            lemma_link_roots(parent, rank, rank2, c, p, k);
        }
    }
}

} // verus!

//! Disjoint sets of indices.

use vstd::prelude::*;

verus! {

/// Disjoint sets of the numbers below a limit, as trees: each number points to its parent, and the
/// roots stand for the sets. Trees are joined by rank, and paths are shortened on the way.
pub struct UnionFind {
    parent: Vec<usize>,
    rank: Vec<usize>,
}

/// The representative of the set of each number, and the rank of each number.
pub struct Partition {
    pub rep: Seq<usize>,
    pub rank: Seq<usize>,
}

impl Partition {
    /// Each number by itself.
    pub open spec fn singletons(n: nat) -> Partition {
        Partition { rep: Seq::new(n, |i: int| i as usize), rank: Seq::new(n, |i: int| 0usize) }
    }

    /// Whether these are sets of the numbers below `n`: each number has a representative, and a
    /// representative represents itself.
    pub open spec fn is_of(self, n: nat) -> bool {
        &&& self.rep.len() == n
        &&& self.rank.len() == n
        &&& forall|i: int|
            0 <= i < n ==> (#[trigger] self.rep[i]) < n && self.rep[self.rep[i] as int]
                == self.rep[i]
    }

    /// The sets with representative `from` joined to the set with representative `to`.
    pub open spec fn moved(self, from: usize, to: usize) -> Seq<usize> {
        Seq::new(
            self.rep.len(),
            |i: int|
                if self.rep[i] == from {
                    to
                } else {
                    self.rep[i]
                },
        )
    }

    /// The sets of `a` and `b` joined. The representative with the higher rank stays; where the
    /// ranks are equal that of `a` stays, and its rank goes up.
    pub open spec fn united(self, a: int, b: int) -> Partition {
        let ra = self.rep[a];
        let rb = self.rep[b];
        if ra == rb {
            self
        } else if self.rank[ra as int] < self.rank[rb as int] {
            Partition { rep: self.moved(ra, rb), rank: self.rank }
        } else if self.rank[ra as int] > self.rank[rb as int] {
            Partition { rep: self.moved(rb, ra), rank: self.rank }
        } else {
            Partition {
                rep: self.moved(rb, ra),
                rank: self.rank.update(ra as int, (self.rank[ra as int] + 1) as usize),
            }
        }
    }

    /// Whether two numbers are in the same set.
    pub open spec fn same(self, x: int, y: int) -> bool {
        self.rep[x] == self.rep[y]
    }
}

/// How many of the first `n` numbers are their own parents.
spec fn root_count(parent: Seq<usize>, n: int) -> nat
    decreases n,
{
    if n <= 0 {
        0
    } else {
        root_count(parent, n - 1) + if parent[n - 1] == n - 1 {
            1nat
        } else {
            0nat
        }
    }
}

proof fn lemma_root_count_update(parent: Seq<usize>, x: int, p: usize, n: int)
    requires
        0 <= x < parent.len(),
        0 <= n <= parent.len(),
        parent[x] == x,
        p != x,
    ensures
        root_count(parent.update(x, p), n) == root_count(parent, n) - if x < n {
            1int
        } else {
            0int
        },
        x < n ==> root_count(parent, n) >= 1,
    decreases n,
{
    if n > 0 {
        lemma_root_count_update(parent, x, p, n - 1);
    }
}

proof fn lemma_root_count_same(a: Seq<usize>, b: Seq<usize>, n: int)
    requires
        a.len() == b.len(),
        0 <= n <= a.len(),
        forall|i: int| 0 <= i < a.len() ==> (a[i] == i <==> b[i] == i),
    ensures
        root_count(a, n) == root_count(b, n),
    decreases n,
{
    if n > 0 {
        lemma_root_count_same(a, b, n - 1);
    }
}

proof fn lemma_root_count_all(parent: Seq<usize>, n: int)
    requires
        0 <= n <= parent.len(),
        forall|i: int| 0 <= i < parent.len() ==> parent[i] == i,
    ensures
        root_count(parent, n) == n,
    decreases n,
{
    if n > 0 {
        lemma_root_count_all(parent, n - 1);
    }
}

/// Whether parents and ranks form trees: ranks grow towards the root.
spec fn are_trees(parent: Seq<usize>, rank: Seq<usize>) -> bool {
    &&& parent.len() == rank.len()
    &&& forall|i: int| 0 <= i < parent.len() ==> (#[trigger] parent[i]) < parent.len()
    &&& forall|i: int|
        0 <= i < parent.len() && (#[trigger] parent[i]) != i ==> rank[i] < rank[parent[i] as int]
    &&& forall|i: int|
        0 <= i < parent.len() ==> (#[trigger] rank[i]) + root_count(parent, parent.len() as int)
            <= parent.len()
}

/// The root above a number.
spec fn root_of(parent: Seq<usize>, rank: Seq<usize>, x: int) -> int
    decreases parent.len() - rank[x],
    when are_trees(parent, rank) && 0 <= x < parent.len()
{
    if parent[x] == x {
        x
    } else {
        root_of(parent, rank, parent[x] as int)
    }
}

proof fn lemma_root_of(parent: Seq<usize>, rank: Seq<usize>, x: int)
    requires
        are_trees(parent, rank),
        0 <= x < parent.len(),
    ensures
        0 <= root_of(parent, rank, x) < parent.len(),
        parent[root_of(parent, rank, x)] == root_of(parent, rank, x),
        rank[x] <= rank[root_of(parent, rank, x)],
        x != root_of(parent, rank, x) ==> rank[x] < rank[root_of(parent, rank, x)],
    decreases parent.len() - rank[x],
{
    if parent[x] != x {
        lemma_root_of(parent, rank, parent[x] as int);
    }
}

/// To point a number to its root changes no root.
proof fn lemma_shorten(parent: Seq<usize>, rank: Seq<usize>, x: int)
    requires
        are_trees(parent, rank),
        0 <= x < parent.len(),
    ensures
        ({
            let short = parent.update(x, root_of(parent, rank, x) as usize);
            &&& are_trees(short, rank)
            &&& forall|y: int|
                0 <= y < parent.len() ==> #[trigger] root_of(short, rank, y) == root_of(
                    parent,
                    rank,
                    y,
                )
        }),
{
    let r = root_of(parent, rank, x);
    let short = parent.update(x, r as usize);
    lemma_root_of(parent, rank, x);
    assert forall|i: int| 0 <= i < parent.len() implies (parent[i] == i <==> short[i] == i) by {
        if i == x && short[x] == x {
            assert(parent[r] == r);
        }
    }
    lemma_root_count_same(parent, short, parent.len() as int);
    assert(are_trees(short, rank));
    assert forall|y: int| 0 <= y < parent.len() implies #[trigger] root_of(short, rank, y)
        == root_of(parent, rank, y) by {
        lemma_shorten_one(parent, rank, x, y);
    }
}

proof fn lemma_shorten_one(parent: Seq<usize>, rank: Seq<usize>, x: int, y: int)
    requires
        are_trees(parent, rank),
        0 <= x < parent.len(),
        0 <= y < parent.len(),
        are_trees(parent.update(x, root_of(parent, rank, x) as usize), rank),
    ensures
        root_of(parent.update(x, root_of(parent, rank, x) as usize), rank, y) == root_of(
            parent,
            rank,
            y,
        ),
    decreases parent.len() - rank[y],
{
    let r = root_of(parent, rank, x);
    let short = parent.update(x, r as usize);
    lemma_root_of(parent, rank, x);
    if y == x {
        assert(short[r] == r);
        assert(root_of(short, rank, r) == r);
    } else if parent[y] != y {
        lemma_shorten_one(parent, rank, x, parent[y] as int);
    }
}

/// To hang one root below another moves the numbers below it, and no others.
proof fn lemma_hang(
    parent: Seq<usize>,
    rank: Seq<usize>,
    from: int,
    to: int,
    rank2: Seq<usize>,
    y: int,
)
    requires
        are_trees(parent, rank),
        0 <= from < parent.len(),
        0 <= to < parent.len(),
        from != to,
        parent[from] == from,
        parent[to] == to,
        are_trees(parent.update(from, to as usize), rank2),
        0 <= y < parent.len(),
    ensures
        root_of(parent.update(from, to as usize), rank2, y) == if root_of(parent, rank, y) == from {
            to
        } else {
            root_of(parent, rank, y)
        },
    decreases parent.len() - rank[y],
{
    let hung = parent.update(from, to as usize);
    if y == from {
        assert(hung[to] == to);
        assert(root_of(hung, rank2, to) == to);
    } else if parent[y] != y {
        lemma_hang(parent, rank, from, to, rank2, parent[y] as int);
    }
}

impl UnionFind {
    /// The numbers below this limit are held.
    pub closed spec fn size(self) -> nat {
        self.parent@.len()
    }

    /// The pointers form trees.
    pub closed spec fn wf(self) -> bool {
        are_trees(self.parent@, self.rank@)
    }

    /// The sets and ranks.
    pub closed spec fn partition(self) -> Partition {
        Partition {
            rep: Seq::new(
                self.parent@.len(),
                |i: int| root_of(self.parent@, self.rank@, i) as usize,
            ),
            rank: self.rank@,
        }
    }

    /// Each number below `n` by itself.
    pub fn new(n: usize) -> (r: Self)
        ensures
            r.wf(),
            r.size() == n,
            r.partition() == Partition::singletons(n as nat),
            r.partition().is_of(n as nat),
    {
        let mut parent: Vec<usize> = Vec::new();
        let mut rank: Vec<usize> = Vec::new();
        let mut i: usize = 0;
        while i < n
            invariant
                i <= n,
                parent@.len() == i,
                rank@.len() == i,
                forall|k: int| 0 <= k < i ==> parent@[k] == k,
                forall|k: int| 0 <= k < i ==> rank@[k] == 0,
            decreases n - i,
        {
            parent.push(i);
            rank.push(0);
            i = i + 1;
        }
        proof {
            lemma_root_count_all(parent@, parent@.len() as int);
        }
        let r = UnionFind { parent, rank };
        assert(r.partition().rep =~= Partition::singletons(n as nat).rep);
        assert(r.partition().rank =~= Partition::singletons(n as nat).rank);
        r
    }

    /// The representative of the set of `x`.
    pub fn find(&mut self, x: usize) -> (r: usize)
        requires
            old(self).wf(),
            x < old(self).size(),
        ensures
            final(self).wf(),
            final(self).size() == old(self).size(),
            final(self).partition() == old(self).partition(),
            r == old(self).partition().rep[x as int],
            r < old(self).size(),
            final(self).partition().is_of(old(self).size()),
        decreases old(self).size() - old(self).partition().rank[x as int],
    {
        proof {
            lemma_root_of(self.parent@, self.rank@, x as int);
            self.lemma_is_partition();
        }
        let p: usize = self.parent[x];
        if p != x {
            let ghost before = *self;
            let root: usize = self.find(p);
            assert(root == before.partition().rep[p as int]);
            assert(self.partition().rep[x as int] == before.partition().rep[x as int]);
            proof {
                lemma_root_of(self.parent@, self.rank@, x as int);
                lemma_shorten(self.parent@, self.rank@, x as int);
            }
            let ghost middle = *self;
            self.parent.set(x, root);
            assert(self.partition().rep =~= middle.partition().rep);
            root
        } else {
            x
        }
    }

    /// Joins the sets of `a` and `b`.
    pub fn union(&mut self, a: usize, b: usize)
        requires
            old(self).wf(),
            a < old(self).size(),
            b < old(self).size(),
        ensures
            final(self).wf(),
            final(self).size() == old(self).size(),
            final(self).partition() == old(self).partition().united(a as int, b as int),
            final(self).partition().is_of(old(self).size()),
    {
        let ra: usize = self.find(a);
        let rb: usize = self.find(b);
        if ra == rb {
            return ;
        }
        let ghost parent = self.parent@;
        let ghost rank = self.rank@;
        let ghost before = self.partition();
        let n: usize = self.parent.len();
        proof {
            lemma_root_of(parent, rank, a as int);
            lemma_root_of(parent, rank, b as int);
            lemma_root_count_update(parent, rb as int, ra, n as int);
            lemma_root_count_update(parent, ra as int, rb, n as int);
        }
        if self.rank[ra] < self.rank[rb] {
            self.parent.set(ra, rb);
            proof {
                assert(are_trees(self.parent@, self.rank@));
                assert forall|y: int| 0 <= y < n implies #[trigger] self.partition().rep[y]
                    == before.united(a as int, b as int).rep[y] by {
                    lemma_hang(parent, rank, ra as int, rb as int, self.rank@, y);
                    lemma_root_of(parent, rank, y);
                }
            }
        } else if self.rank[ra] > self.rank[rb] {
            self.parent.set(rb, ra);
            proof {
                assert(are_trees(self.parent@, self.rank@));
                assert forall|y: int| 0 <= y < n implies #[trigger] self.partition().rep[y]
                    == before.united(a as int, b as int).rep[y] by {
                    lemma_hang(parent, rank, rb as int, ra as int, self.rank@, y);
                    lemma_root_of(parent, rank, y);
                }
            }
        } else {
            self.parent.set(rb, ra);
            let k: usize = self.rank[ra];
            self.rank.set(ra, k + 1);
            proof {
                assert(are_trees(self.parent@, self.rank@));
                assert forall|y: int| 0 <= y < n implies #[trigger] self.partition().rep[y]
                    == before.united(a as int, b as int).rep[y] by {
                    lemma_hang(parent, rank, rb as int, ra as int, self.rank@, y);
                    lemma_root_of(parent, rank, y);
                }
            }
        }
        assert(self.partition().rep =~= before.united(a as int, b as int).rep);
        proof {
            self.lemma_is_partition();
        }
    }

    /// The sets are sets of the numbers.
    pub proof fn lemma_is_partition(self)
        requires
            self.wf(),
        ensures
            self.partition().is_of(self.size()),
    {
        let rep = self.partition().rep;
        assert forall|i: int| 0 <= i < rep.len() implies (#[trigger] rep[i]) < rep.len()
            && rep[rep[i] as int] == rep[i] by {
            lemma_root_of(self.parent@, self.rank@, i);
            lemma_root_of(self.parent@, self.rank@, rep[i] as int);
        }
    }
}

// ---------------------------------------------------------------------------------------------
// Laws
// ---------------------------------------------------------------------------------------------

/// To join two sets puts two numbers into the same set exactly where they were in the same set
/// before, or one was in the one set and the other in the other.
pub proof fn lemma_union_joins(p: Partition, a: int, b: int, x: int, y: int)
    requires
        0 <= a < p.rep.len(),
        0 <= b < p.rep.len(),
        0 <= x < p.rep.len(),
        0 <= y < p.rep.len(),
    ensures
        p.united(a, b).same(x, y) <==> p.same(x, y) || (p.same(x, a) && p.same(y, b)) || (p.same(
            x,
            b,
        ) && p.same(y, a)),
        p.united(a, b).rep.len() == p.rep.len(),
{
}

/// The sets after the first `k` pairs of a list have been joined, one after the other.
pub open spec fn joined_pairs(n: nat, pairs: Seq<(usize, usize)>, k: int) -> Partition
    decreases k,
{
    if k <= 0 {
        Partition::singletons(n)
    } else {
        joined_pairs(n, pairs, k - 1).united(pairs[k - 1].0 as int, pairs[k - 1].1 as int)
    }
}

/// Whether a pair of the list links two numbers, in either order.
pub open spec fn linked(pairs: Seq<(usize, usize)>, x: int, y: int) -> bool {
    exists|m: int|
        0 <= m < pairs.len() && ((#[trigger] pairs[m]).0 == x && pairs[m].1 == y || pairs[m].0 == y
            && pairs[m].1 == x)
}

/// Whether each number of a path is linked to the next.
pub open spec fn is_path(pairs: Seq<(usize, usize)>, path: Seq<int>) -> bool {
    forall|i: int| 0 <= i < path.len() - 1 ==> linked(pairs, #[trigger] path[i], path[i + 1])
}

/// Whether a path of links leads from one number to another.
pub open spec fn connected(pairs: Seq<(usize, usize)>, x: int, y: int) -> bool {
    exists|path: Seq<int>|
        path.len() > 0 && path.first() == x && path.last() == y && #[trigger] is_path(pairs, path)
}

/// Whether the pairs are of numbers below a limit.
pub open spec fn are_pairs_below(pairs: Seq<(usize, usize)>, n: nat) -> bool {
    forall|m: int| 0 <= m < pairs.len() ==> (#[trigger] pairs[m]).0 < n && pairs[m].1 < n
}

pub proof fn lemma_joined_size(n: nat, pairs: Seq<(usize, usize)>, k: int)
    requires
        0 <= k <= pairs.len(),
    ensures
        joined_pairs(n, pairs, k).rep.len() == n,
    decreases k,
{
    if k > 0 {
        lemma_joined_size(n, pairs, k - 1);
    }
}

proof fn lemma_linked_stay_same(
    n: nat,
    pairs: Seq<(usize, usize)>,
    m: int,
    k: int,
)
    requires
        are_pairs_below(pairs, n),
        0 <= m < k <= pairs.len(),
    ensures
        joined_pairs(n, pairs, k).same(pairs[m].0 as int, pairs[m].1 as int),
    decreases k,
{
    let before = joined_pairs(n, pairs, k - 1);
    let a = pairs[k - 1].0 as int;
    let b = pairs[k - 1].1 as int;
    let x = pairs[m].0 as int;
    let y = pairs[m].1 as int;
    lemma_joined_size(n, pairs, k - 1);
    assert(pairs[k - 1].0 < n && pairs[k - 1].1 < n);
    assert(pairs[m].0 < n && pairs[m].1 < n);
    lemma_union_joins(before, a, b, x, y);
    if m < k - 1 {
        lemma_linked_stay_same(n, pairs, m, k - 1);
    }
}

proof fn lemma_path_same(n: nat, pairs: Seq<(usize, usize)>, path: Seq<int>)
    requires
        are_pairs_below(pairs, n),
        is_path(pairs, path),
        path.len() > 0,
        0 <= path.first() < n,
    ensures
        0 <= path.last() < n,
        joined_pairs(n, pairs, pairs.len() as int).same(path.first(), path.last()),
    decreases path.len(),
{
    if path.len() > 1 {
        let head = path.drop_last();
        assert forall|i: int| 0 <= i < head.len() - 1 implies linked(
            pairs,
            #[trigger] head[i],
            head[i + 1],
        ) by {
            assert(linked(pairs, path[i], path[i + 1]));
        }
        lemma_path_same(n, pairs, head);
        let x = path[path.len() - 2];
        let y = path[path.len() - 1];
        assert(linked(pairs, path[path.len() - 2], path[path.len() - 2 + 1]));
        let m = choose|m: int|
            0 <= m < pairs.len() && ((#[trigger] pairs[m]).0 == x && pairs[m].1 == y || pairs[m].0
                == y && pairs[m].1 == x);
        lemma_linked_stay_same(n, pairs, m, pairs.len() as int);
    }
}

proof fn lemma_connected_grows(
    pairs: Seq<(usize, usize)>,
    j: int,
    k: int,
    x: int,
    y: int,
)
    requires
        0 <= j <= k <= pairs.len(),
        connected(pairs.take(j), x, y),
    ensures
        connected(pairs.take(k), x, y),
{
    let path = choose|path: Seq<int>|
        path.len() > 0 && path.first() == x && path.last() == y && #[trigger] is_path(
            pairs.take(j),
            path,
        );
    assert forall|i: int| 0 <= i < path.len() - 1 implies linked(
        pairs.take(k),
        #[trigger] path[i],
        path[i + 1],
    ) by {
        assert(linked(pairs.take(j), path[i], path[i + 1]));
        let m = choose|m: int|
            0 <= m < pairs.take(j).len() && ((#[trigger] pairs.take(j)[m]).0 == path[i]
                && pairs.take(j)[m].1 == path[i + 1] || pairs.take(j)[m].0 == path[i + 1]
                && pairs.take(j)[m].1 == path[i]);
        assert(pairs.take(k)[m] == pairs.take(j)[m]);
    }
    assert(is_path(pairs.take(k), path));
}

proof fn lemma_connected_joins(pairs: Seq<(usize, usize)>, x: int, y: int, z: int)
    requires
        connected(pairs, x, y),
        connected(pairs, y, z),
    ensures
        connected(pairs, x, z),
{
    let a = choose|path: Seq<int>|
        path.len() > 0 && path.first() == x && path.last() == y && #[trigger] is_path(pairs, path);
    let b = choose|path: Seq<int>|
        path.len() > 0 && path.first() == y && path.last() == z && #[trigger] is_path(pairs, path);
    let c = a + b.skip(1);
    assert forall|i: int| 0 <= i < c.len() - 1 implies linked(
        pairs,
        #[trigger] c[i],
        c[i + 1],
    ) by {
        if i + 1 < a.len() {
            assert(linked(pairs, a[i], a[i + 1]));
        } else {
            let k = i - a.len() + 1;
            assert(linked(pairs, b[k], b[k + 1]));
            assert(c[i] == b[k]);
        }
    }
    assert(is_path(pairs, c));
    assert(c.last() == z);
}

proof fn lemma_connected_link(pairs: Seq<(usize, usize)>, m: int)
    requires
        0 <= m < pairs.len(),
    ensures
        connected(pairs, pairs[m].0 as int, pairs[m].1 as int),
        connected(pairs, pairs[m].1 as int, pairs[m].0 as int),
{
    let x = pairs[m].0 as int;
    let y = pairs[m].1 as int;
    assert(linked(pairs, x, y));
    assert(linked(pairs, y, x));
    assert(is_path(pairs, seq![x, y]));
    assert(is_path(pairs, seq![y, x]));
    assert(seq![x, y].last() == y && seq![y, x].last() == x);
}

proof fn lemma_connected_self(pairs: Seq<(usize, usize)>, x: int)
    ensures
        connected(pairs, x, x),
{
    assert(is_path(pairs, seq![x]));
    assert(seq![x].last() == x);
}

proof fn lemma_same_connected(n: nat, pairs: Seq<(usize, usize)>, k: int, x: int, y: int)
    requires
        are_pairs_below(pairs, n),
        n <= usize::MAX,
        0 <= k <= pairs.len(),
        0 <= x < n,
        0 <= y < n,
        joined_pairs(n, pairs, k).same(x, y),
    ensures
        connected(pairs.take(k), x, y),
    decreases k,
{
    if k == 0 {
        lemma_connected_self(pairs.take(0), x);
    } else {
        let before = joined_pairs(n, pairs, k - 1);
        let a = pairs[k - 1].0 as int;
        let b = pairs[k - 1].1 as int;
        assert(pairs[k - 1].0 < n && pairs[k - 1].1 < n);
        lemma_joined_size(n, pairs, k - 1);
        lemma_union_joins(before, a, b, x, y);
        assert(pairs.take(k)[k - 1] == pairs[k - 1]);
        lemma_connected_link(pairs.take(k), k - 1);
        if before.same(x, y) {
            lemma_same_connected(n, pairs, k - 1, x, y);
            lemma_connected_grows(pairs, k - 1, k, x, y);
        } else if before.same(x, a) && before.same(y, b) {
            lemma_same_connected(n, pairs, k - 1, x, a);
            lemma_connected_grows(pairs, k - 1, k, x, a);
            lemma_same_connected(n, pairs, k - 1, b, y);
            lemma_connected_grows(pairs, k - 1, k, b, y);
            lemma_connected_joins(pairs.take(k), x, a, b);
            lemma_connected_joins(pairs.take(k), x, b, y);
        } else {
            lemma_same_connected(n, pairs, k - 1, x, b);
            lemma_connected_grows(pairs, k - 1, k, x, b);
            lemma_same_connected(n, pairs, k - 1, a, y);
            lemma_connected_grows(pairs, k - 1, k, a, y);
            lemma_connected_joins(pairs.take(k), x, b, a);
            lemma_connected_joins(pairs.take(k), x, a, y);
        }
    }
}

/// After all pairs have been joined, two numbers are in the same set exactly where a path of pairs
/// leads from one to the other.
pub proof fn lemma_sets_are_components(n: nat, pairs: Seq<(usize, usize)>, x: int, y: int)
    requires
        are_pairs_below(pairs, n),
        n <= usize::MAX,
        0 <= x < n,
        0 <= y < n,
    ensures
        joined_pairs(n, pairs, pairs.len() as int).same(x, y) <==> connected(pairs, x, y),
{
    if joined_pairs(n, pairs, pairs.len() as int).same(x, y) {
        lemma_same_connected(n, pairs, pairs.len() as int, x, y);
        assert(pairs.take(pairs.len() as int) =~= pairs);
    }
    if connected(pairs, x, y) {
        let path = choose|path: Seq<int>|
            path.len() > 0 && path.first() == x && path.last() == y && #[trigger] is_path(
                pairs,
                path,
            );
        lemma_path_same(n, pairs, path);
    }
}

} // verus!

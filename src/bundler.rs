use vstd::prelude::*;

verus! {

/// A dependency edge: the name the package refers to it by, and the index of the
/// package it resolves to.
#[derive(Debug)]
pub struct Dependency {
    pub name: String,
    pub package: usize,
}

/// A compilation target: its name and the path of its source file.
#[derive(Debug)]
pub struct Target {
    pub name: String,
    pub src_path: String,
}

/// A package: its dependency edges and its library and binary targets.
#[derive(Debug)]
pub struct Package {
    pub deps: Vec<Dependency>,
    pub lib: Option<Target>,
    pub bin: Option<Target>,
}

/// The resolved dependency graph; packages are identified by their index.
#[derive(Debug)]
pub struct Graph {
    pub packages: Vec<Package>,
}

/// Dependency names that the execution environment provides; they are never bundled.
pub open spec fn builtin_name(name: Seq<char>) -> bool {
    name == "rand"@ || name == "log"@ || name == "env_logger"@
}

/// Whether a dependency with this name is provided by the environment.
pub fn is_builtin(name: &String) -> (r: bool)
    ensures
        r == builtin_name(name@),
{
    let rand = String::from_str("rand");
    let log = String::from_str("log");
    let env_logger = String::from_str("env_logger");
    *name == rand || *name == log || *name == env_logger
}

impl Graph {
    /// Every edge leads to a package of the graph.
    pub open spec fn wf(&self) -> bool {
        forall|p: int, k: int|
            0 <= p < self.packages.len() && 0 <= k < self.packages[p].deps.len()
                ==> #[trigger] self.packages[p].deps[k].package < self.packages.len()
    }

    /// Package `p` has a non-builtin dependency edge to package `q`.
    pub open spec fn depends_on(&self, p: int, q: int) -> bool {
        exists|k: int|
            0 <= k < self.packages[p].deps.len() && !builtin_name(self.packages[p].deps[k].name@)
                && #[trigger] self.packages[p].deps[k].package == q
    }

    /// `rank` strictly decreases along every non-builtin edge: the graph is acyclic.
    pub open spec fn ranked(&self, rank: Seq<int>) -> bool {
        &&& rank.len() == self.packages.len()
        &&& forall|p: int, k: int|
            0 <= p < self.packages.len() && 0 <= k < self.packages[p].deps.len()
                && !builtin_name(self.packages[p].deps[k].name@)
                ==> rank[#[trigger] self.packages[p].deps[k].package as int] < rank[p]
    }

    pub open spec fn acyclic(&self) -> bool {
        exists|rank: Seq<int>| self.ranked(rank)
    }

    /// `q` is reachable from `p` over one or more non-builtin edges, in at most `n` steps.
    pub open spec fn reaches(&self, p: int, q: int, n: nat) -> bool
        decreases n,
    {
        n > 0 && (self.depends_on(p, q) || exists|m: int|
            0 <= m < self.packages.len() && #[trigger] self.depends_on(p, m) && self.reaches(m, q, (n - 1) as nat))
    }
}

/// Every entry of `o` differs from every other.
pub open spec fn distinct(o: Seq<usize>) -> bool {
    forall|i: int, j: int| 0 <= i < j < o.len() ==> o[i] != o[j]
}

/// Every dependency of the package at position `k` of `o` stands before it.
pub open spec fn deps_before(g: Graph, o: Seq<usize>, k: int) -> bool {
    forall|q: int| #[trigger] g.depends_on(o[k] as int, q) ==> exists|j: int| 0 <= j < k && o[j] == q
}

/// Every dependency of package `p` is marked.
pub open spec fn deps_marked(g: Graph, b: Seq<bool>, p: int) -> bool {
    forall|q: int| #[trigger] g.depends_on(p, q) ==> b[q]
}

pub open spec fn unmarked(b: Seq<bool>) -> nat
    decreases b.len(),
{
    if b.len() == 0 {
        0
    } else {
        unmarked(b.drop_last()) + if b.last() { 0nat } else { 1nat }
    }
}

proof fn lemma_unmarked_mono(a: Seq<bool>, b: Seq<bool>)
    requires
        a.len() == b.len(),
        forall|i: int| 0 <= i < a.len() && a[i] ==> b[i],
    ensures
        unmarked(b) <= unmarked(a),
    decreases a.len(),
{
    if a.len() > 0 {
        lemma_unmarked_mono(a.drop_last(), b.drop_last());
    }
}

proof fn lemma_unmarked_mark(a: Seq<bool>, j: int)
    requires
        0 <= j < a.len(),
        !a[j],
    ensures
        unmarked(a.update(j, true)) + 1 == unmarked(a),
    decreases a.len(),
{
    if j < a.len() - 1 {
        assert(a.update(j, true).drop_last() =~= a.drop_last().update(j, true));
        lemma_unmarked_mark(a.drop_last(), j);
    } else {
        assert(a.update(j, true).drop_last() =~= a.drop_last());
    }
}

/// The traversal from `p`, given the marks `b` and the finished order `o`: mark
/// `p`, visit its dependencies from the first on, then finish `p`.
pub open spec fn dfs(g: Graph, p: int, b: Seq<bool>, o: Seq<usize>) -> (Seq<bool>, Seq<usize>)
    decreases unmarked(b), 0nat,
{
    if 0 <= p < b.len() && !b[p] {
        let b1 = b.update(p, true);
        if unmarked(b1) < unmarked(b) {
            let r = dfs_deps(g, p, 0, b1, o);
            (r.0, r.1.push(p as usize))
        } else {
            (b, o)
        }
    } else {
        (b, o)
    }
}

/// The traversal of the dependencies of `p` from the `k`-th on: each
/// non-builtin one that is not yet marked is visited, in the order of the edges.
pub open spec fn dfs_deps(g: Graph, p: int, k: int, b: Seq<bool>, o: Seq<usize>) -> (Seq<bool>, Seq<usize>)
    decreases unmarked(b), g.packages[p].deps.len() - k,
{
    if 0 <= p < g.packages.len() && 0 <= k < g.packages[p].deps.len() {
        let d = g.packages[p].deps[k];
        if !builtin_name(d.name@) && 0 <= d.package < b.len() && !b[d.package as int] {
            let r = dfs(g, d.package as int, b, o);
            if unmarked(r.0) <= unmarked(b) {
                dfs_deps(g, p, k + 1, r.0, r.1)
            } else {
                r
            }
        } else {
            dfs_deps(g, p, k + 1, b, o)
        }
    } else {
        (b, o)
    }
}

/// The traversal from `root` of a graph with `n` packages, none marked.
pub open spec fn traversal_order(g: Graph, root: int) -> Seq<usize> {
    dfs(g, root, Seq::new(g.packages.len() as nat, |_i: int| false), Seq::empty()).1
}

/// The state of a traversal: the packages marked so far, and the order in which
/// packages were finished.
pub struct Bundler {
    pub bundled: Vec<bool>,
    pub order: Vec<usize>,
}

/// `q` stands in `o` at a position from `start` on.
pub open spec fn placed_from(o: Seq<usize>, start: int, q: int) -> bool {
    exists|i: int| start <= i < o.len() && #[trigger] o[i] == q
}

/// Every package marked in `b` but not finished in `o` ranks above `p`.
pub open spec fn pending_above(b: Seq<bool>, o: Seq<usize>, rank: Seq<int>, p: int) -> bool {
    forall|q: int| 0 <= q < b.len() && #[trigger] b[q] && !placed_from(o, 0, q) ==> rank[q] > rank[p]
}

proof fn lemma_deps_before_extend(g: Graph, o: Seq<usize>, o2: Seq<usize>, i: int)
    requires
        0 <= i < o.len() <= o2.len(),
        o2.subrange(0, o.len() as int) == o,
        deps_before(g, o, i),
    ensures
        deps_before(g, o2, i),
{
    assert forall|q: int| #[trigger] g.depends_on(o2[i] as int, q) implies exists|j: int| 0 <= j < i && o2[j] == q by {
        assert(o2[i] == o[i]);
        let j = choose|j: int| 0 <= j < i && o[j] == q;
        assert(o2[j] == o[j]);
    }
}

impl Bundler {
    pub open spec fn inv(&self, n: nat) -> bool {
        &&& self.bundled.len() == n
        &&& distinct(self.order@)
        &&& forall|i: int| 0 <= i < self.order.len() ==> #[trigger] self.order[i] < n
        &&& forall|i: int| 0 <= i < self.order.len() ==> self.bundled[#[trigger] self.order[i] as int]
    }
}

impl Bundler {
    /// Marks `p`, visits each of its non-builtin dependencies that is not yet
    /// marked, then finishes `p`.
    fn visit(&mut self, g: &Graph, p: usize, Ghost(rank): Ghost<Seq<int>>)
        requires
            g.wf(),
            p < g.packages.len(),
            old(self).inv(g.packages.len() as nat),
            !old(self).bundled[p as int],
        ensures
            final(self).inv(g.packages.len() as nat),
            final(self).order.len() > old(self).order.len(),
            final(self).order@.subrange(0, old(self).order.len() as int) == old(self).order@,
            final(self).order@.last() == p,
            forall|i: int| old(self).order.len() <= i < final(self).order.len()
                ==> !old(self).bundled[#[trigger] final(self).order[i] as int],
            forall|q: int| 0 <= q < g.packages.len() ==> (#[trigger] final(self).bundled[q] == (old(self).bundled[q]
                || placed_from(final(self).order@, old(self).order.len() as int, q))),
            forall|i: int| old(self).order.len() <= i < final(self).order.len()
                ==> deps_marked(*g, final(self).bundled@, #[trigger] final(self).order[i] as int),
            g.ranked(rank) && pending_above(old(self).bundled@, old(self).order@, rank, p as int)
                ==> forall|i: int| old(self).order.len() <= i < final(self).order.len()
                ==> #[trigger] deps_before(*g, final(self).order@, i),
            (final(self).bundled@, final(self).order@) == dfs(*g, p as int, old(self).bundled@, old(self).order@),
        decreases unmarked(old(self).bundled@),
    {
        let ghost n = g.packages.len() as nat;
        let ghost b0 = self.bundled@;
        let ghost o0 = self.order@;
        let ghost start = self.order.len() as int;
        self.bundled.set(p, true);
        proof {
            lemma_unmarked_mark(b0, p as int);
        }
        let deps = &g.packages[p].deps;
        let mut k: usize = 0;
        while k < deps.len()
            invariant
                g.wf(),
                p < n,
                n == g.packages.len(),
                deps == g.packages[p as int].deps,
                k <= deps.len(),
                self.inv(n),
                self.bundled[p as int],
                start == o0.len(),
                b0 == old(self).bundled@,
                self.order.len() >= start,
                self.order@.subrange(0, start) == o0,
                b0.len() == n,
                !b0[p as int],
                forall|i: int| 0 <= i < start ==> b0[#[trigger] o0[i] as int],
                unmarked(self.bundled@) < unmarked(b0),
                forall|i: int| start <= i < self.order.len()
                    ==> !b0[#[trigger] self.order[i] as int] && self.order[i] != p,
                forall|q: int| 0 <= q < n ==> (#[trigger] self.bundled[q] == (b0[q] || q == p
                    || placed_from(self.order@, start, q))),
                forall|i: int| start <= i < self.order.len()
                    ==> deps_marked(*g, self.bundled@, #[trigger] self.order[i] as int),
                forall|j: int| 0 <= j < k && !builtin_name(deps[j].name@)
                    ==> self.bundled[#[trigger] deps[j].package as int],
                g.ranked(rank) && pending_above(b0, o0, rank, p as int)
                    ==> forall|i: int| start <= i < self.order.len()
                    ==> #[trigger] deps_before(*g, self.order@, i),
                dfs_deps(*g, p as int, 0, b0.update(p as int, true), o0)
                    == dfs_deps(*g, p as int, k as int, self.bundled@, self.order@),
            decreases deps.len() - k,
        {
            let d = &deps[k];
            if !is_builtin(&d.name) && !self.bundled[d.package] {
                let ghost b1 = self.bundled@;
                let ghost o1 = self.order@;
                proof {
                    lemma_unmarked_mono(b0.update(p as int, true), b1);
                    if g.ranked(rank) && pending_above(b0, o0, rank, p as int) {
                        assert(rank[d.package as int] < rank[p as int]);
                        assert forall|q: int| 0 <= q < b1.len() && #[trigger] b1[q] && !placed_from(o1, 0, q)
                            implies rank[q] > rank[d.package as int] by {
                            if q != p {
                                if placed_from(o0, 0, q) {
                                    let i = choose|i: int| 0 <= i < o0.len() && o0[i] == q;
                                    assert(o1.subrange(0, start)[i] == o1[i]);
                                }
                                if placed_from(o1, start, q) {
                                    let i = choose|i: int| start <= i < o1.len() && o1[i] == q;
                                    assert(placed_from(o1, 0, q));
                                }
                            }
                        }
                    }
                }
                assert(unmarked(self.bundled@) < unmarked(b0));
                self.visit(g, d.package, Ghost(rank));
                proof {
                    let o2 = self.order@;
                    let b2 = self.bundled@;
                    assert forall|j: int| 0 <= j < o1.len() implies o2[j] == o1[j] by {
                        assert(o2.subrange(0, o1.len() as int)[j] == o2[j]);
                    }
                    assert forall|j: int| 0 <= j < start implies o1[j] == o0[j] by {
                        assert(o1.subrange(0, start)[j] == o1[j]);
                    }
                    assert(o2.subrange(0, start) =~= o0);
                    assert forall|q: int| 0 <= q < n implies (#[trigger] b2[q] == (b0[q] || q == p
                        || placed_from(o2, start, q))) by {
                        if placed_from(o1, start, q) {
                            let i = choose|i: int| start <= i < o1.len() && o1[i] == q;
                            assert(o2[i] == o1[i]);
                        }
                        if placed_from(o2, start, q) && !placed_from(o2, o1.len() as int, q) {
                            let i = choose|i: int| start <= i < o2.len() && o2[i] == q;
                            assert(o2[i] == o1[i]);
                            assert(placed_from(o1, start, q));
                        }
                    }
                    assert forall|i: int| start <= i < o2.len()
                        implies !b0[#[trigger] o2[i] as int] && o2[i] != p by {
                        if i < o1.len() {
                            assert(o2[i] == o1[i]);
                        }
                    }
                    assert forall|i: int| start <= i < o2.len()
                        implies deps_marked(*g, b2, #[trigger] o2[i] as int) by {
                        if i < o1.len() {
                            assert(o2[i] == o1[i]);
                            assert(deps_marked(*g, b1, o1[i] as int));
                        }
                    }
                    if g.ranked(rank) && pending_above(b0, o0, rank, p as int) {
                        assert forall|i: int| start <= i < o2.len() implies #[trigger] deps_before(*g, o2, i) by {
                            if i < o1.len() {
                                assert(deps_before(*g, o1, i));
                                lemma_deps_before_extend(*g, o1, o2, i);
                            }
                        }
                    }
                    lemma_unmarked_mono(b1, b2);
                    assert(dfs_deps(*g, p as int, k as int, b1, o1) == dfs_deps(*g, p as int, k + 1, b2, o2));
                }
            }
            k = k + 1;
        }
        let ghost o3 = self.order@;
        let ghost b3 = self.bundled@;
        proof {
            assert(dfs(*g, p as int, b0, o0) == (b3, o3.push(p)));
            assert forall|j: int| 0 <= j < start implies o3[j] == o0[j] by {
                assert(o3.subrange(0, start)[j] == o3[j]);
            }
            assert forall|i: int| 0 <= i < o3.len() implies o3[i] != p by {
                if i < start {
                    assert(o3[i] == o0[i]);
                }
            }
        }
        self.order.push(p);
        proof {
            let o4 = self.order@;
            assert(o4.subrange(0, o3.len() as int) =~= o3);
            assert(o4.subrange(0, start) =~= o0);
            assert forall|q: int| 0 <= q < n implies (#[trigger] b3[q] == (b0[q]
                || placed_from(o4, start, q))) by {
                if q == p {
                    assert(o4[o3.len() as int] == p);
                }
                if placed_from(o3, start, q) {
                    let i = choose|i: int| start <= i < o3.len() && o3[i] == q;
                    assert(o4[i] == o3[i]);
                }
                if placed_from(o4, start, q) && q != p {
                    let i = choose|i: int| start <= i < o4.len() && o4[i] == q;
                    assert(o4[i] == o3[i]);
                }
            }
            assert forall|i: int| start <= i < o4.len()
                implies deps_marked(*g, b3, #[trigger] o4[i] as int) by {
                if i < o3.len() {
                    assert(o4[i] == o3[i]);
                } else {
                    assert forall|q: int| #[trigger] g.depends_on(p as int, q) implies b3[q] by {
                        let j = choose|j: int| 0 <= j < deps.len() && !builtin_name(deps[j].name@)
                            && #[trigger] deps[j].package == q;
                    }
                }
            }
            if g.ranked(rank) && pending_above(b0, o0, rank, p as int) {
                assert forall|i: int| start <= i < o4.len() implies #[trigger] deps_before(*g, o4, i) by {
                    if i < o3.len() {
                        assert(deps_before(*g, o3, i));
                        lemma_deps_before_extend(*g, o3, o4, i);
                    } else {
                        assert forall|q: int| #[trigger] g.depends_on(o4[i] as int, q)
                            implies exists|j: int| 0 <= j < i && o4[j] == q by {
                            let j = choose|j: int| 0 <= j < deps.len() && !builtin_name(deps[j].name@)
                                && #[trigger] deps[j].package == q;
                            assert(b3[q]);
                            assert(rank[q] < rank[p as int]);
                            if placed_from(o3, start, q) {
                                let i2 = choose|i2: int| start <= i2 < o3.len() && o3[i2] == q;
                                assert(o4[i2] == q);
                            } else {
                                assert(b0[q]);
                                if placed_from(o0, 0, q) {
                                    let i2 = choose|i2: int| 0 <= i2 < o0.len() && o0[i2] == q;
                                    assert(o4[i2] == o3[i2]);
                                }
                            }
                        }
                    }
                }
            }
        }
    }
}

/// The order in which the packages that `root` needs are emitted: a depth-first
/// traversal from `root` over the non-builtin edges that finishes each package
/// after its dependencies and visits each package once; `root` comes last.
pub fn bundle_order(g: &Graph, root: usize) -> (r: Vec<usize>)
    requires
        g.wf(),
        root < g.packages.len(),
    ensures
        r.len() > 0,
        r@.last() == root,
        distinct(r@),
        forall|i: int| 0 <= i < r.len() ==> #[trigger] r[i] < g.packages.len(),
        forall|i: int, q: int| 0 <= i < r.len() && #[trigger] g.depends_on(r[i] as int, q)
            ==> placed_from(r@, 0, q),
        g.acyclic() ==> forall|i: int| 0 <= i < r.len() ==> #[trigger] deps_before(*g, r@, i),
        r@ == traversal_order(*g, root as int),
{
    let n = g.packages.len();
    let mut bundled: Vec<bool> = Vec::new();
    let mut i: usize = 0;
    while i < n
        invariant
            i <= n,
            bundled.len() == i,
            forall|j: int| 0 <= j < i ==> !#[trigger] bundled[j],
        decreases n - i,
    {
        bundled.push(false);
        i = i + 1;
    }
    let mut b = Bundler { bundled, order: Vec::new() };
    let ghost rank = choose|rank: Seq<int>| g.ranked(rank);
    let ghost b0 = b.bundled@;
    assert(b0 =~= Seq::new(g.packages.len() as nat, |_i: int| false));
    b.visit(g, root, Ghost(rank));
    proof {
        assert(b.order@.subrange(0, 0) =~= Seq::<usize>::empty());
        assert forall|i: int, q: int| 0 <= i < b.order.len() && #[trigger] g.depends_on(b.order[i] as int, q)
            implies placed_from(b.order@, 0, q) by {
            assert(deps_marked(*g, b.bundled@, b.order[i] as int));
            assert(g.wf());
            let k = choose|k: int| 0 <= k < g.packages[b.order[i] as int].deps.len()
                && !builtin_name(g.packages[b.order[i] as int].deps[k].name@)
                && #[trigger] g.packages[b.order[i] as int].deps[k].package == q;
            assert(b.bundled[q]);
        }
        if g.acyclic() {
            assert(pending_above(b0, Seq::<usize>::empty(), rank, root as int));
        }
    }
    b.order
}

/// Where package `a` reaches package `q` and every package of `o` has its
/// dependencies before it, `q` stands before `a` in `o`: a package's library
/// block follows every block it depends on, directly or not.
pub proof fn lemma_order_respects_reach(g: Graph, o: Seq<usize>, a: int, q: int, steps: nat)
    requires
        0 <= a < o.len(),
        forall|i: int| 0 <= i < o.len() ==> #[trigger] deps_before(g, o, i),
        g.reaches(o[a] as int, q, steps),
    ensures
        exists|j: int| 0 <= j < a && o[j] == q,
    decreases steps,
{
    assert(deps_before(g, o, a));
    if !g.depends_on(o[a] as int, q) {
        let m = choose|m: int|
            0 <= m < g.packages.len() && #[trigger] g.depends_on(o[a] as int, m) && g.reaches(m, q, (steps - 1) as nat);
        let jm = choose|j: int| 0 <= j < a && o[j] == m;
        lemma_order_respects_reach(g, o, jm, q, (steps - 1) as nat);
        let j = choose|j: int| 0 <= j < jm && o[j] == q;
        assert(0 <= j < a && o[j] == q);
    }
}

/// Every package reachable from the last entry of an order that is closed under
/// the dependency relation stands in it; with `distinct`, it stands there once.
pub proof fn lemma_reachable_emitted(g: Graph, o: Seq<usize>, p: int, q: int, steps: nat)
    requires
        placed_from(o, 0, p),
        forall|i: int, d: int| 0 <= i < o.len() && #[trigger] g.depends_on(o[i] as int, d) ==> placed_from(o, 0, d),
        g.reaches(p, q, steps),
    ensures
        placed_from(o, 0, q),
    decreases steps,
{
    let i = choose|i: int| 0 <= i < o.len() && #[trigger] o[i] == p;
    if !g.depends_on(p, q) {
        let m = choose|m: int|
            0 <= m < g.packages.len() && #[trigger] g.depends_on(p, m) && g.reaches(m, q, (steps - 1) as nat);
        assert(g.depends_on(o[i] as int, m));
        lemma_reachable_emitted(g, o, m, q, (steps - 1) as nat);
    } else {
        assert(g.depends_on(o[i] as int, q));
    }
}

} // verus!

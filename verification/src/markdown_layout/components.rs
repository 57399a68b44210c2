//! Which rules cross each other, directly or through others.
use super::rules::{HSeg, VSeg};
use crate::float::F32;
use vstd::prelude::*;

verus! {

/// Whether the parents lead each index to a root: every step to a parent takes a level less.
pub open spec fn is_forest(parent: Seq<usize>, level: Seq<nat>) -> bool {
    &&& level.len() == parent.len()
    &&& forall|x: int|
        0 <= x < parent.len() ==> (#[trigger] parent[x]) < parent.len() && (parent[x] == x
            || level[parent[x] as int] < level[x])
}

/// The root that an index leads to.
pub open spec fn root(parent: Seq<usize>, level: Seq<nat>, x: int) -> int
    decreases level[x],
    when is_forest(parent, level) && 0 <= x < parent.len()
{
    if parent[x] == x {
        x
    } else {
        root(parent, level, parent[x] as int)
    }
}

/// Disjoint sets of indices, each a tree of parents.
pub struct DisjointSets {
    pub parent: Vec<usize>,
    /// A bound on the way to the root, for each index.
    pub level: Ghost<Seq<nat>>,
}

impl DisjointSets {
    /// Whether every index leads to a root.
    pub open spec fn well_formed(self) -> bool {
        is_forest(self.parent@, self.level@)
    }

    /// How many indices there are.
    pub open spec fn size(self) -> nat {
        self.parent@.len()
    }

    /// The root of the set that an index is in.
    pub open spec fn set_of(self, x: int) -> int {
        root(self.parent@, self.level@, x)
    }

    /// Each of `a + b` indices in a set of its own.
    pub fn new(a: usize, b: usize) -> (r: DisjointSets)
        ensures
            r.well_formed(),
            r.size() == a + b,
            forall|x: int| 0 <= x < a + b ==> #[trigger] r.set_of(x) == x,
    {
        let mut parent: Vec<usize> = Vec::new();
        let mut i: usize = 0;
        while i < a
            invariant
                i <= a,
                parent@.len() == i,
                forall|x: int| 0 <= x < i ==> #[trigger] parent@[x] == x,
            decreases a - i,
        {
            parent.push(i);
            i = i + 1;
        }
        let mut j: usize = 0;
        while j < b
            invariant
                j <= b,
                parent@.len() == a + j,
                forall|x: int| 0 <= x < a + j ==> #[trigger] parent@[x] == x,
            decreases b - j,
        {
            let n: usize = parent.len();
            parent.push(n);
            j = j + 1;
        }
        DisjointSets { parent, level: Ghost(Seq::new((a + b) as nat, |x: int| 0nat)) }
    }
}

proof fn lemma_root(parent: Seq<usize>, level: Seq<nat>, x: int)
    requires
        is_forest(parent, level),
        0 <= x < parent.len(),
    ensures
        0 <= root(parent, level, x) < parent.len(),
        parent[root(parent, level, x)] == root(parent, level, x),
        level[root(parent, level, x)] <= level[x],
    decreases level[x],
{
    if parent[x] != x {
        lemma_root(parent, level, parent[x] as int);
    }
}

proof fn lemma_halved(parent: Seq<usize>, level: Seq<nat>, x: int)
    requires
        is_forest(parent, level),
        0 <= x < parent.len(),
        parent[x] != x,
    ensures
        is_forest(parent.update(x, parent[parent[x] as int]), level),
        forall|y: int|
            0 <= y < parent.len() ==> #[trigger] root(
                parent.update(x, parent[parent[x] as int]),
                level,
                y,
            ) == root(parent, level, y),
{
    let p = parent[x] as int;
    let after = parent.update(x, parent[p]);
    assert(parent[p] < parent.len());
    assert forall|y: int| 0 <= y < after.len() implies (#[trigger] after[y]) < after.len() && (after[y]
        == y || level[after[y] as int] < level[y]) by {
        assert(parent[y] < parent.len());
    }
    assert forall|y: int| 0 <= y < parent.len() implies #[trigger] root(after, level, y) == root(
        parent,
        level,
        y,
    ) by {
        lemma_halved_root(parent, level, x, y);
    }
}

proof fn lemma_halved_root(parent: Seq<usize>, level: Seq<nat>, x: int, y: int)
    requires
        is_forest(parent, level),
        0 <= x < parent.len(),
        parent[x] != x,
        is_forest(parent.update(x, parent[parent[x] as int]), level),
        0 <= y < parent.len(),
    ensures
        root(parent.update(x, parent[parent[x] as int]), level, y) == root(parent, level, y),
    decreases level[y],
{
    let p = parent[x] as int;
    let after = parent.update(x, parent[p]);
    assert(parent[p] < parent.len());
    if y == x {
        reveal_with_fuel(root, 3);
        let q = parent[p] as int;
        lemma_halved_root(parent, level, x, q);
        assert(root(parent, level, x) == root(parent, level, q));
        assert(after[x] == q);
        assert(root(after, level, x) == root(after, level, q));
    } else if parent[y] != y {
        lemma_halved_root(parent, level, x, parent[y] as int);
        assert(after[y] == parent[y]);
    } else {
        assert(after[y] == y);
    }
}

/// Union-find root with path compression.
pub fn uf_find(sets: &mut DisjointSets, x: usize) -> (r: usize)
    requires
        old(sets).well_formed(),
        x < old(sets).size(),
    ensures
        r == old(sets).set_of(x as int),
        r < old(sets).size(),
        final(sets).well_formed(),
        final(sets).size() == old(sets).size(),
        forall|y: int|
            0 <= y < old(sets).size() ==> #[trigger] final(sets).set_of(y) == old(sets).set_of(y),
{
    let mut at: usize = x;
    while sets.parent[at] != at
        invariant
            sets.well_formed(),
            sets.size() == old(sets).size(),
            at < sets.size(),
            x < sets.size(),
            sets.level == old(sets).level,
            forall|y: int|
                0 <= y < old(sets).size() ==> #[trigger] sets.set_of(y) == old(sets).set_of(y),
            sets.set_of(at as int) == old(sets).set_of(x as int),
        decreases sets.level@[at as int],
    {
        proof {
            lemma_halved(sets.parent@, sets.level@, at as int);
        }
        assert(sets.parent@[at as int] < sets.parent@.len());
        let up: usize = sets.parent[sets.parent[at]];
        let ghost before = *sets;
        assert(before.set_of(up as int) == before.set_of(at as int)) by {
            reveal_with_fuel(root, 3);
        }
        assert(before.parent@[up as int] < before.parent@.len());
        sets.parent.set(at, up);
        assert(sets.parent@ == before.parent@.update(at as int, up));
        assert forall|y: int| 0 <= y < old(sets).size() implies #[trigger] sets.set_of(y) == old(
            sets,
        ).set_of(y) by {
            assert(before.set_of(y) == old(sets).set_of(y));
        }
        at = up;
    }
    at
}

/// The levels after the tree of `a` is hung below `b`.
pub open spec fn raised_levels(parent: Seq<usize>, level: Seq<nat>, a: int, b: int) -> Seq<nat> {
    Seq::new(
        level.len(),
        |y: int|
            if root(parent, level, y) == a {
                level[y] + level[b] + 1
            } else {
                level[y]
            },
    )
}

proof fn lemma_hung(parent: Seq<usize>, level: Seq<nat>, a: int, b: int)
    requires
        is_forest(parent, level),
        0 <= a < parent.len(),
        0 <= b < parent.len(),
        a != b,
        parent[a] == a,
        parent[b] == b,
    ensures
        is_forest(parent.update(a, b as usize), raised_levels(parent, level, a, b)),
        forall|y: int|
            0 <= y < parent.len() ==> #[trigger] root(
                parent.update(a, b as usize),
                raised_levels(parent, level, a, b),
                y,
            ) == (if root(parent, level, y) == a {
                b
            } else {
                root(parent, level, y)
            }),
{
    let after = parent.update(a, b as usize);
    let raised = raised_levels(parent, level, a, b);
    assert forall|y: int| 0 <= y < after.len() implies (#[trigger] after[y]) < after.len() && (after[y]
        == y || raised[after[y] as int] < raised[y]) by {
        assert(parent[y] < parent.len());
        if y != a && parent[y] != y {
            assert(root(parent, level, y) == root(parent, level, parent[y] as int));
        }
    }
    assert forall|y: int| 0 <= y < parent.len() implies #[trigger] root(after, raised, y) == (
    if root(parent, level, y) == a {
        b
    } else {
        root(parent, level, y)
    }) by {
        lemma_hung_root(parent, level, a, b, y);
    }
}

proof fn lemma_hung_root(parent: Seq<usize>, level: Seq<nat>, a: int, b: int, y: int)
    requires
        is_forest(parent, level),
        0 <= a < parent.len(),
        0 <= b < parent.len(),
        a != b,
        parent[a] == a,
        parent[b] == b,
        is_forest(parent.update(a, b as usize), raised_levels(parent, level, a, b)),
        0 <= y < parent.len(),
    ensures
        root(parent.update(a, b as usize), raised_levels(parent, level, a, b), y) == (if root(
            parent,
            level,
            y,
        ) == a {
            b
        } else {
            root(parent, level, y)
        }),
    decreases level[y],
{
    let after = parent.update(a, b as usize);
    let raised = raised_levels(parent, level, a, b);
    if y == a {
        reveal_with_fuel(root, 2);
        assert(after[a] == b);
        assert(after[b] == b);
        assert(root(after, raised, b) == b);
    } else if parent[y] != y {
        lemma_hung_root(parent, level, a, b, parent[y] as int);
        assert(after[y] == parent[y]);
    } else {
        assert(after[y] == y);
    }
}

/// Joins the sets of two indices.
pub fn uf_union(sets: &mut DisjointSets, a: usize, b: usize)
    requires
        old(sets).well_formed(),
        a < old(sets).size(),
        b < old(sets).size(),
    ensures
        final(sets).well_formed(),
        final(sets).size() == old(sets).size(),
        forall|y: int|
            0 <= y < old(sets).size() ==> #[trigger] final(sets).set_of(y) == (if old(sets).set_of(y)
                == old(sets).set_of(a as int) {
                old(sets).set_of(b as int)
            } else {
                old(sets).set_of(y)
            }),
{
    let ra: usize = uf_find(sets, a);
    let rb: usize = uf_find(sets, b);
    if ra != rb {
        let ghost before = *sets;
        proof {
            assert(before.set_of(a as int) == ra);
            assert(before.set_of(b as int) == rb);
            lemma_root(before.parent@, before.level@, a as int);
            lemma_root(before.parent@, before.level@, b as int);
            lemma_hung(before.parent@, before.level@, ra as int, rb as int);
        }
        sets.parent.set(ra, rb);
        sets.level = Ghost(raised_levels(before.parent@, before.level@, ra as int, rb as int));
        assert forall|y: int| 0 <= y < old(sets).size() implies #[trigger] sets.set_of(y) == (
        if old(sets).set_of(y) == old(sets).set_of(a as int) {
            old(sets).set_of(b as int)
        } else {
            old(sets).set_of(y)
        }) by {
            assert(before.set_of(y) == old(sets).set_of(y));
        }
    }
}

/// Whether a path along the edges leads from `a` to `b`: it uses the last edge not at all, or in
/// one of its two directions.
pub open spec fn connected(edges: Seq<(int, int)>, a: int, b: int) -> bool
    decreases edges.len(),
{
    if edges.len() == 0 {
        a == b
    } else {
        let rest = edges.drop_last();
        let (p, q) = edges.last();
        connected(rest, a, b) || (connected(rest, a, p) && connected(rest, q, b)) || (connected(
            rest,
            a,
            q,
        ) && connected(rest, p, b))
    }
}

/// To be connected is an equivalence.
pub proof fn connection_is_an_equivalence(edges: Seq<(int, int)>, a: int, b: int, c: int)
    ensures
        connected(edges, a, a),
        connected(edges, a, b) ==> connected(edges, b, a),
        connected(edges, a, b) && connected(edges, b, c) ==> connected(edges, a, c),
    decreases edges.len(),
{
    if edges.len() > 0 {
        let rest = edges.drop_last();
        let (p, q) = edges.last();
        let nodes = seq![a, b, c, p, q];
        assert forall|i: int, j: int, k: int|
            0 <= i < 5 && 0 <= j < 5 && 0 <= k < 5 implies connected(rest, #[trigger] nodes[i], nodes[i])
            && (connected(rest, nodes[i], #[trigger] nodes[j]) ==> connected(rest, nodes[j], nodes[i]))
            && (connected(rest, nodes[i], nodes[j]) && connected(rest, nodes[j], #[trigger] nodes[k])
            ==> connected(rest, nodes[i], nodes[k])) by {
            connection_is_an_equivalence(rest, nodes[i], nodes[j], nodes[k]);
        }
        assert(nodes[0] == a && nodes[1] == b && nodes[2] == c && nodes[3] == p && nodes[4] == q);
    }
}

/// The ends of an edge are connected.
pub proof fn edges_connect(edges: Seq<(int, int)>, i: int)
    requires
        0 <= i < edges.len(),
    ensures
        connected(edges, edges[i].0, edges[i].1),
    decreases edges.len(),
{
    let rest = edges.drop_last();
    if i < rest.len() {
        edges_connect(rest, i);
    } else {
        let (p, q) = edges.last();
        connection_is_an_equivalence(rest, p, q, q);
        connection_is_an_equivalence(rest, q, p, p);
    }
}

/// Nothing more is connected than an equivalence that holds along every edge makes it.
pub proof fn connection_is_least(
    edges: Seq<(int, int)>,
    related: spec_fn(int, int) -> bool,
    a: int,
    b: int,
)
    requires
        forall|x: int| #[trigger] related(x, x),
        forall|x: int, y: int| #[trigger] related(x, y) ==> related(y, x),
        forall|x: int, y: int, z: int|
            #[trigger] related(x, y) && #[trigger] related(y, z) ==> related(x, z),
        forall|i: int| 0 <= i < edges.len() ==> related((#[trigger] edges[i]).0, edges[i].1),
        connected(edges, a, b),
    ensures
        related(a, b),
    decreases edges.len(),
{
    if edges.len() > 0 {
        let rest = edges.drop_last();
        let (p, q) = edges.last();
        assert(related(edges[edges.len() - 1].0, edges[edges.len() - 1].1));
        assert forall|i: int| 0 <= i < rest.len() implies related((#[trigger] rest[i]).0, rest[i].1) by {
            assert(related(edges[i].0, edges[i].1));
        }
        if connected(rest, a, b) {
            connection_is_least(rest, related, a, b);
        } else if connected(rest, a, p) && connected(rest, q, b) {
            connection_is_least(rest, related, a, p);
            connection_is_least(rest, related, q, b);
        } else {
            connection_is_least(rest, related, a, q);
            connection_is_least(rest, related, p, b);
        }
    }
}

/// Whether a horizontal and a vertical rule cross, or nearly so.
pub open spec fn crosses(h: HSeg, v: VSeg) -> bool {
    let slack = F32::from_nat(3);
    h.x_min.minus(slack).at_most(v.x) && v.x.at_most(h.x_max.plus(slack)) && v.y_min.minus(
        slack,
    ).at_most(h.y) && h.y.at_most(v.y_max.plus(slack))
}

/// The crossings of the `i`th horizontal rule with the first `j` vertical ones. Vertical rules
/// are counted after the horizontal ones.
pub open spec fn crossings_of(hs: Seq<HSeg>, vs: Seq<VSeg>, i: int, j: nat) -> Seq<(int, int)>
    decreases j,
{
    if j == 0 {
        Seq::empty()
    } else {
        let before = crossings_of(hs, vs, i, (j - 1) as nat);
        if crosses(hs[i], vs[j - 1]) {
            before.push((i, hs.len() + j - 1))
        } else {
            before
        }
    }
}

/// The crossings of the first `i` horizontal rules with the vertical ones.
pub open spec fn crossings(hs: Seq<HSeg>, vs: Seq<VSeg>, i: nat) -> Seq<(int, int)>
    decreases i,
{
    if i == 0 {
        Seq::empty()
    } else {
        crossings(hs, vs, (i - 1) as nat) + crossings_of(hs, vs, i - 1, vs.len())
    }
}

/// Whether two rules belong to one grid.
pub open spec fn in_one_grid(hs: Seq<HSeg>, vs: Seq<VSeg>, a: int, b: int) -> bool {
    connected(crossings(hs, vs, hs.len()), a, b)
}

/// The indices below `n` that satisfy a predicate.
pub open spec fn indices_where(n: nat, p: spec_fn(int) -> bool) -> Seq<usize>
    decreases n,
{
    if n == 0 {
        Seq::empty()
    } else {
        let before = indices_where((n - 1) as nat, p);
        if p(n - 1) {
            before.push((n - 1) as usize)
        } else {
            before
        }
    }
}

/// The indices are below `n`.
pub proof fn lemma_indices_below(n: nat, p: spec_fn(int) -> bool)
    requires
        n <= usize::MAX,
    ensures
        forall|k: int| 0 <= k < indices_where(n, p).len() ==> (#[trigger] indices_where(n, p)[k]) < n,
    decreases n,
{
    if n > 0 {
        lemma_indices_below((n - 1) as nat, p);
        let before = indices_where((n - 1) as nat, p);
        let all = indices_where(n, p);
        assert forall|k: int| 0 <= k < all.len() implies (#[trigger] all[k]) < n by {
            if k < before.len() {
                assert(all[k] == before[k]);
            }
        }
    }
}

/// The indices satisfy the predicate.
pub proof fn lemma_indices_hold(n: nat, p: spec_fn(int) -> bool)
    requires
        n <= usize::MAX,
    ensures
        forall|k: int|
            0 <= k < indices_where(n, p).len() ==> p(#[trigger] indices_where(n, p)[k] as int),
    decreases n,
{
    if n > 0 {
        lemma_indices_hold((n - 1) as nat, p);
        let before = indices_where((n - 1) as nat, p);
        let all = indices_where(n, p);
        assert forall|k: int| 0 <= k < all.len() implies p(#[trigger] all[k] as int) by {
            if k < before.len() {
                assert(all[k] == before[k]);
            }
        }
    }
}

/// The horizontal rules of the grid that the `i`th one is in.
pub open spec fn grid_rows(hs: Seq<HSeg>, vs: Seq<VSeg>, i: int) -> Seq<usize> {
    indices_where(hs.len(), |k: int| in_one_grid(hs, vs, i, k))
}

/// The vertical rules of the grid that the `i`th horizontal one is in.
pub open spec fn grid_columns(hs: Seq<HSeg>, vs: Seq<VSeg>, i: int) -> Seq<usize> {
    indices_where(vs.len(), |k: int| in_one_grid(hs, vs, i, hs.len() + k))
}

/// Whether the `i`th horizontal rule is the first one of a grid with two rules or more each way.
pub open spec fn starts_grid(hs: Seq<HSeg>, vs: Seq<VSeg>, i: int) -> bool {
    &&& forall|k: int| 0 <= k < i ==> !(#[trigger] in_one_grid(hs, vs, k, i))
    &&& grid_rows(hs, vs, i).len() >= 2
    &&& grid_columns(hs, vs, i).len() >= 2
}

/// The grids that start among the first `n` horizontal rules.
pub open spec fn grids(hs: Seq<HSeg>, vs: Seq<VSeg>, n: nat) -> Seq<(Seq<usize>, Seq<usize>)>
    decreases n,
{
    if n == 0 {
        Seq::empty()
    } else {
        let before = grids(hs, vs, (n - 1) as nat);
        if starts_grid(hs, vs, n - 1) {
            before.push((grid_rows(hs, vs, n - 1), grid_columns(hs, vs, n - 1)))
        } else {
            before
        }
    }
}

/// What the components hold.
pub open spec fn components_of(c: Seq<(Vec<usize>, Vec<usize>)>) -> Seq<(Seq<usize>, Seq<usize>)> {
    Seq::new(c.len(), |i: int| (c[i].0@, c[i].1@))
}

/// Whether a horizontal and a vertical rule cross, or nearly so.
fn do_cross(h: HSeg, v: VSeg) -> (r: bool)
    ensures
        r == crosses(h, v),
{
    let tol: F32 = F32::from_u32(3);
    v.x.ge(h.x_min.sub(tol)) && v.x.le(h.x_max.add(tol)) && h.y.ge(v.y_min.sub(tol)) && h.y.le(
        v.y_max.add(tol),
    )
}

/// Whether the sets are the connected components of the edges.
pub open spec fn reflects(sets: DisjointSets, edges: Seq<(int, int)>) -> bool {
    forall|a: int, b: int|
        0 <= a < sets.size() && 0 <= b < sets.size() ==> (#[trigger] sets.set_of(a)
            == #[trigger] sets.set_of(b)) == connected(edges, a, b)
}

proof fn lemma_reflects_edge(
    before: DisjointSets,
    after: DisjointSets,
    edges: Seq<(int, int)>,
    p: int,
    q: int,
)
    requires
        reflects(before, edges),
        0 <= p < before.size(),
        0 <= q < before.size(),
        after.size() == before.size(),
        forall|y: int|
            0 <= y < before.size() ==> #[trigger] after.set_of(y) == (if before.set_of(y)
                == before.set_of(p) {
                before.set_of(q)
            } else {
                before.set_of(y)
            }),
    ensures
        reflects(after, edges.push((p, q))),
{
    let more = edges.push((p, q));
    assert(more.drop_last() =~= edges);
    assert forall|a: int, b: int|
        0 <= a < after.size() && 0 <= b < after.size() implies (#[trigger] after.set_of(a)
        == #[trigger] after.set_of(b)) == connected(more, a, b) by {
        assert(before.set_of(a) == before.set_of(b) <==> connected(edges, a, b));
        assert(before.set_of(a) == before.set_of(p) <==> connected(edges, a, p));
        assert(before.set_of(a) == before.set_of(q) <==> connected(edges, a, q));
        assert(before.set_of(p) == before.set_of(b) <==> connected(edges, p, b));
        assert(before.set_of(q) == before.set_of(b) <==> connected(edges, q, b));
    }
}

/// The sets of rules that cross each other, directly or through others.
fn join_crossing(hs: &Vec<HSeg>, vs: &Vec<VSeg>) -> (r: DisjointSets)
    ensures
        r.well_formed(),
        r.size() == hs@.len() + vs@.len(),
        reflects(r, crossings(hs@, vs@, hs@.len())),
{
    let n_h: usize = hs.len();
    let mut sets: DisjointSets = DisjointSets::new(n_h, vs.len());
    let n: usize = sets.parent.len();
    let mut i: usize = 0;
    while i < n_h
        invariant
            n_h == hs@.len(),
            n == hs@.len() + vs@.len(),
            i <= n_h,
            sets.well_formed(),
            sets.size() == n,
            reflects(sets, crossings(hs@, vs@, i as nat)),
        decreases n_h - i,
    {
        let ghost done = crossings(hs@, vs@, i as nat);
        let mut j: usize = 0;
        assert(done + crossings_of(hs@, vs@, i as int, 0) =~= done);
        while j < vs.len()
            invariant
                n_h == hs@.len(),
                n == hs@.len() + vs@.len(),
                i < n_h,
                j <= vs@.len(),
                sets.well_formed(),
                sets.size() == n,
                reflects(sets, done + crossings_of(hs@, vs@, i as int, j as nat)),
            decreases vs@.len() - j,
        {
            if do_cross(hs[i], vs[j]) {
                let ghost before = sets;
                let ghost edges = done + crossings_of(hs@, vs@, i as int, j as nat);
                uf_union(&mut sets, i, n_h + j);
                proof {
                    lemma_reflects_edge(before, sets, edges, i as int, n_h + j);
                    assert(edges.push((i as int, n_h + j)) =~= done + crossings_of(
                        hs@,
                        vs@,
                        i as int,
                        (j + 1) as nat,
                    ));
                }
            }
            j = j + 1;
        }
        i = i + 1;
    }
    sets
}

/// Group H/V grid lines that cross each other into connected components.
/// Each component is a candidate ruled table — typically one component per
/// distinct table on the page. Returns `(h_indices, v_indices)` per component, in the order of
/// the first horizontal line,
/// dropping components without ≥2 H and ≥2 V lines (a single L-shape doesn't
/// make a table).
pub fn find_grid_components(hs: &Vec<HSeg>, vs: &Vec<VSeg>) -> (r: Vec<(Vec<usize>, Vec<usize>)>)
    ensures
        components_of(r@) == grids(hs@, vs@, hs@.len()),
{
    let n_h: usize = hs.len();
    let n_v: usize = vs.len();
    let mut sets: DisjointSets = join_crossing(hs, vs);
    let n: usize = sets.parent.len();
    let ghost edges = crossings(hs@, vs@, hs@.len());
    let ghost joined = sets;
    let mut roots: Vec<usize> = Vec::new();
    let mut x: usize = 0;
    while x < n
        invariant
            x <= n,
            n == joined.size(),
            sets.well_formed(),
            sets.size() == n,
            forall|y: int| 0 <= y < n ==> #[trigger] sets.set_of(y) == joined.set_of(y),
            roots@.len() == x,
            forall|y: int| 0 <= y < x ==> #[trigger] roots@[y] == joined.set_of(y),
        decreases n - x,
    {
        let r: usize = uf_find(&mut sets, x);
        roots.push(r);
        x = x + 1;
    }
    assert forall|a: int, b: int| 0 <= a < n && 0 <= b < n implies (#[trigger] roots@[a]
        == #[trigger] roots@[b]) == in_one_grid(hs@, vs@, a, b) by {
        assert(joined.set_of(a) == joined.set_of(b) <==> connected(edges, a, b));
    }
    let mut out: Vec<(Vec<usize>, Vec<usize>)> = Vec::new();
    let mut i: usize = 0;
    assert(components_of(out@) =~= grids(hs@, vs@, 0));
    while i < n_h
        invariant
            i <= n_h,
            n_h == hs@.len(),
            n_v == vs@.len(),
            n == n_h + n_v,
            roots@.len() == n,
            forall|a: int, b: int|
                0 <= a < n && 0 <= b < n ==> (#[trigger] roots@[a] == #[trigger] roots@[b])
                    == in_one_grid(hs@, vs@, a, b),
            components_of(out@) == grids(hs@, vs@, i as nat),
        decreases n_h - i,
    {
        let fresh: bool = !holds_before(&roots, i);
        let ghost row = |k: int| in_one_grid(hs@, vs@, i as int, k);
        let ghost column = |k: int| in_one_grid(hs@, vs@, i as int, hs@.len() + k);
        let rows: Vec<usize> = indices_with_root(&roots, 0, n_h, roots[i], Ghost(row));
        let columns: Vec<usize> = indices_with_root(&roots, n_h, n, roots[i], Ghost(column));
        proof {
            assert(rows@ == grid_rows(hs@, vs@, i as int));
            assert(columns@ == grid_columns(hs@, vs@, i as int));
            assert forall|k: int| 0 <= k < i && fresh implies !(#[trigger] in_one_grid(
                hs@,
                vs@,
                k,
                i as int,
            )) by {
                assert(roots@[k] != roots@[i as int]);
            }
            if !fresh {
                let k = choose|k: int| 0 <= k < i && roots@[k] == roots@[i as int];
                assert(in_one_grid(hs@, vs@, k, i as int));
            }
        }
        if fresh && rows.len() >= 2 && columns.len() >= 2 {
            let ghost before = components_of(out@);
            let ghost pair = (rows@, columns@);
            out.push((rows, columns));
            assert(components_of(out@) =~= before.push(pair));
        }
        i = i + 1;
    }
    out
}

/// Whether the value at `i` occurs before.
fn holds_before(v: &Vec<usize>, i: usize) -> (r: bool)
    requires
        i < v@.len(),
    ensures
        r == exists|k: int| 0 <= k < i && v@[k] == v@[i as int],
{
    let mut k: usize = 0;
    while k < i
        invariant
            k <= i < v@.len(),
            forall|j: int| 0 <= j < k ==> v@[j] != v@[i as int],
        decreases i - k,
    {
        if v[k] == v[i] {
            return true;
        }
        k = k + 1;
    }
    false
}

/// The places from `from` up to `to`, counted from `from`, that hold a value.
fn indices_with_root(
    v: &Vec<usize>,
    from: usize,
    to: usize,
    value: usize,
    Ghost(p): Ghost<spec_fn(int) -> bool>,
) -> (r: Vec<usize>)
    requires
        from <= to <= v@.len(),
        forall|k: int| 0 <= k < to - from ==> #[trigger] p(k) == (v@[from + k] == value),
    ensures
        r@ == indices_where((to - from) as nat, p),
{
    let mut r: Vec<usize> = Vec::new();
    let mut k: usize = 0;
    while k < to - from
        invariant
            from <= to <= v@.len(),
            k <= to - from,
            forall|k: int| 0 <= k < to - from ==> #[trigger] p(k) == (v@[from + k] == value),
            r@ == indices_where(k as nat, p),
        decreases to - from - k,
    {
        assert(p(k as int) == (v@[from + k] == value));
        if v[from + k] == value {
            r.push(k);
        }
        k = k + 1;
    }
    r
}

/// The indices are in order, and they are all those below `n` for which the condition holds.
pub proof fn indices_are_those_where(n: nat, p: spec_fn(int) -> bool)
    requires
        n <= usize::MAX,
    ensures
        forall|i: int, k: int|
            0 <= i < k < indices_where(n, p).len() ==> (#[trigger] indices_where(n, p)[i]) < (
            #[trigger] indices_where(n, p)[k]),
        forall|i: int|
            0 <= i < n && #[trigger] p(i) ==> indices_where(n, p).contains(i as usize),
        forall|k: int|
            0 <= k < indices_where(n, p).len() ==> (#[trigger] indices_where(n, p)[k]) < n && p(
                indices_where(n, p)[k] as int,
            ),
    decreases n,
{
    lemma_indices_below(n, p);
    lemma_indices_hold(n, p);
    if n > 0 {
        let before = indices_where((n - 1) as nat, p);
        let all = indices_where(n, p);
        indices_are_those_where((n - 1) as nat, p);
        assert forall|i: int, k: int| 0 <= i < k < all.len() implies (#[trigger] all[i]) < (
        #[trigger] all[k]) by {
            assert(all[i] == before[i]);
            if k < before.len() {
                assert(all[k] == before[k]);
            }
        }
        assert forall|i: int| 0 <= i < n && #[trigger] p(i) implies all.contains(i as usize) by {
            if i < n - 1 {
                let k = choose|k: int| 0 <= k < before.len() && before[k] == i as usize;
                assert(all[k] == i as usize);
            } else {
                assert(all[all.len() - 1] == i as usize);
            }
        }
    }
}

/// On halves of points, a horizontal and a vertical rule cross if each reaches the other, or fails
/// to by three points at most.
pub proof fn rules_cross_within_three_points(
    h: HSeg,
    v: VSeg,
    left: int,
    right: int,
    y: int,
    top: int,
    bottom: int,
    x: int,
)
    requires
        h.x_min.measures(128 * left),
        h.x_max.measures(128 * right),
        h.y.measures(128 * y),
        v.y_min.measures(128 * top),
        v.y_max.measures(128 * bottom),
        v.x.measures(128 * x),
        -8192 < left < 8192,
        -8192 < right < 8192,
        -8192 < top < 8192,
        -8192 < bottom < 8192,
    ensures
        crosses(h, v) <==> left - 6 <= x <= right + 6 && top - 6 <= y <= bottom + 6,
{
    let slack = F32::from_nat(3);
    crate::float::exact::naturals_are_whole(3);
    crate::float::exact::measured_difference(h.x_min, slack, 128 * left, 768);
    crate::float::exact::measured_sum(h.x_max, slack, 128 * right, 768);
    crate::float::exact::measured_difference(v.y_min, slack, 128 * top, 768);
    crate::float::exact::measured_sum(v.y_max, slack, 128 * bottom, 768);
    crate::float::exact::measures_are_ordered(h.x_min.minus(slack), v.x, 128 * left - 768, 128 * x);
    crate::float::exact::measures_are_ordered(v.x, h.x_max.plus(slack), 128 * x, 128 * right + 768);
    crate::float::exact::measures_are_ordered(v.y_min.minus(slack), h.y, 128 * top - 768, 128 * y);
    crate::float::exact::measures_are_ordered(h.y, v.y_max.plus(slack), 128 * y, 128 * bottom + 768);
}

proof fn lemma_crossings_of(hs: Seq<HSeg>, vs: Seq<VSeg>, i: int, n: nat)
    ensures
        forall|j: int|
            0 <= j < n && #[trigger] crosses(hs[i], vs[j]) ==> crossings_of(hs, vs, i, n).contains(
                (i, hs.len() + j),
            ),
        forall|k: int|
            0 <= k < crossings_of(hs, vs, i, n).len() ==> {
                let e = #[trigger] crossings_of(hs, vs, i, n)[k];
                e.0 == i && hs.len() <= e.1 < hs.len() + n && crosses(hs[i], vs[e.1 - hs.len()])
            },
    decreases n,
{
    if n > 0 {
        let m = (n - 1) as nat;
        let (before, all) = (crossings_of(hs, vs, i, m), crossings_of(hs, vs, i, n));
        lemma_crossings_of(hs, vs, i, m);
        assert forall|j: int| 0 <= j < n && #[trigger] crosses(hs[i], vs[j]) implies all.contains(
            (i, hs.len() + j),
        ) by {
            if j < m {
                let k = choose|k: int| 0 <= k < before.len() && before[k] == (i, hs.len() + j);
                assert(all[k] == before[k]);
            } else {
                assert(all[all.len() - 1] == (i, hs.len() + j));
            }
        }
        assert forall|k: int| 0 <= k < all.len() implies {
            let e = #[trigger] all[k];
            e.0 == i && hs.len() <= e.1 < hs.len() + n && crosses(hs[i], vs[e.1 - hs.len()])
        } by {
            if k < before.len() {
                assert(all[k] == before[k]);
            }
        }
    }
}

/// The crossings are the pairs of a horizontal and a vertical rule that cross.
pub proof fn crossings_are_the_pairs_that_cross(hs: Seq<HSeg>, vs: Seq<VSeg>, n: nat)
    requires
        n <= hs.len(),
    ensures
        forall|i: int, j: int|
            0 <= i < n && 0 <= j < vs.len() && #[trigger] crosses(hs[i], vs[j]) ==> crossings(
                hs,
                vs,
                n,
            ).contains((i, hs.len() + j)),
        forall|k: int|
            0 <= k < crossings(hs, vs, n).len() ==> {
                let e = #[trigger] crossings(hs, vs, n)[k];
                0 <= e.0 < n && hs.len() <= e.1 < hs.len() + vs.len() && crosses(
                    hs[e.0],
                    vs[e.1 - hs.len()],
                )
            },
    decreases n,
{
    if n > 0 {
        let m = (n - 1) as nat;
        let (before, last, all) = (
            crossings(hs, vs, m),
            crossings_of(hs, vs, n - 1, vs.len()),
            crossings(hs, vs, n),
        );
        crossings_are_the_pairs_that_cross(hs, vs, m);
        lemma_crossings_of(hs, vs, n - 1, vs.len());
        assert forall|i: int, j: int|
            0 <= i < n && 0 <= j < vs.len() && #[trigger] crosses(
                hs[i],
                vs[j],
            ) implies all.contains((i, hs.len() + j)) by {
            let e = (i, hs.len() + j);
            if i < m {
                let k = choose|k: int| 0 <= k < before.len() && before[k] == e;
                assert(all[k] == e);
            } else {
                assert(last.contains(e));
                let k = choose|k: int| 0 <= k < last.len() && last[k] == e;
                assert(all[before.len() + k] == e);
            }
        }
        assert forall|k: int| 0 <= k < all.len() implies {
            let e = #[trigger] all[k];
            0 <= e.0 < n && hs.len() <= e.1 < hs.len() + vs.len() && crosses(
                hs[e.0],
                vs[e.1 - hs.len()],
            )
        } by {
            if k < before.len() {
                assert(all[k] == before[k]);
            } else {
                assert(all[k] == last[k - before.len()]);
            }
        }
    }
}

proof fn lemma_same_indices(n: nat, p: spec_fn(int) -> bool, q: spec_fn(int) -> bool)
    requires
        forall|i: int| 0 <= i < n ==> #[trigger] p(i) == q(i),
    ensures
        indices_where(n, p) == indices_where(n, q),
    decreases n,
{
    if n > 0 {
        lemma_same_indices((n - 1) as nat, p, q);
        assert(p(n - 1) == q(n - 1));
    }
}

proof fn lemma_grid_start(hs: Seq<HSeg>, vs: Seq<VSeg>, i: int, k: int) -> (r: int)
    requires
        0 <= k <= i < hs.len(),
        in_one_grid(hs, vs, k, i),
    ensures
        0 <= r <= k,
        in_one_grid(hs, vs, r, i),
        forall|j: int| 0 <= j < r ==> !(#[trigger] in_one_grid(hs, vs, j, i)),
    decreases k,
{
    if exists|j: int| 0 <= j < k && #[trigger] in_one_grid(hs, vs, j, i) {
        let j = choose|j: int| 0 <= j < k && #[trigger] in_one_grid(hs, vs, j, i);
        lemma_grid_start(hs, vs, i, j)
    } else {
        k
    }
}

proof fn lemma_grid_at(hs: Seq<HSeg>, vs: Seq<VSeg>, n: nat, i: int)
    requires
        0 <= i < n,
        starts_grid(hs, vs, i),
    ensures
        grids(hs, vs, n).contains((grid_rows(hs, vs, i), grid_columns(hs, vs, i))),
    decreases n,
{
    let g = (grid_rows(hs, vs, i), grid_columns(hs, vs, i));
    let all = grids(hs, vs, n);
    if i < n - 1 {
        let before = grids(hs, vs, (n - 1) as nat);
        lemma_grid_at(hs, vs, (n - 1) as nat, i);
        let k = choose|k: int| 0 <= k < before.len() && before[k] == g;
        assert(all[k] == g);
    } else {
        assert(all[all.len() - 1] == g);
    }
}

/// Each horizontal rule that is connected with two rules or more each way, itself among them, is in
/// a grid, together with all of these.
pub proof fn connected_rules_make_up_grids(hs: Seq<HSeg>, vs: Seq<VSeg>, i: int)
    requires
        0 <= i < hs.len() <= usize::MAX,
        grid_rows(hs, vs, i).len() >= 2,
        grid_columns(hs, vs, i).len() >= 2,
    ensures
        grids(hs, vs, hs.len()).contains((grid_rows(hs, vs, i), grid_columns(hs, vs, i))),
        grid_rows(hs, vs, i).contains(i as usize),
{
    let edges = crossings(hs, vs, hs.len());
    connection_is_an_equivalence(edges, i, i, i);
    let r = lemma_grid_start(hs, vs, i, i);
    connection_is_an_equivalence(edges, r, i, r);
    assert forall|k: int| in_one_grid(hs, vs, r, k) == #[trigger] in_one_grid(hs, vs, i, k) by {
        connection_is_an_equivalence(edges, r, i, k);
        connection_is_an_equivalence(edges, i, r, k);
    }
    assert forall|j: int| 0 <= j < r implies !(#[trigger] in_one_grid(hs, vs, j, r)) by {
        connection_is_an_equivalence(edges, j, r, i);
        assert(!in_one_grid(hs, vs, j, i));
    }
    let (p, q) = (|k: int| in_one_grid(hs, vs, r, k), |k: int| in_one_grid(hs, vs, i, k));
    assert forall|k: int| 0 <= k < hs.len() implies #[trigger] p(k) == q(k) by {
        assert(in_one_grid(hs, vs, r, k) == in_one_grid(hs, vs, i, k));
    }
    lemma_same_indices(hs.len(), p, q);
    let (s, t) = (
        |k: int| in_one_grid(hs, vs, r, hs.len() + k),
        |k: int| in_one_grid(hs, vs, i, hs.len() + k),
    );
    assert forall|k: int| 0 <= k < vs.len() implies #[trigger] s(k) == t(k) by {
        assert(in_one_grid(hs, vs, r, hs.len() + k) == in_one_grid(hs, vs, i, hs.len() + k));
    }
    lemma_same_indices(vs.len(), s, t);
    assert(starts_grid(hs, vs, r));
    lemma_grid_at(hs, vs, hs.len(), r);
    indices_are_those_where(hs.len(), q);
    assert(q(i));
}

} // verus!

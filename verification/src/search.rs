//! A* search over a weighted directed graph of locations: a priority queue
//! orders the frontier by known cost plus straight-line estimate, two hash
//! tables track the best known cost of each vertex and its predecessor, and
//! the path is rebuilt by walking the predecessors from the goal.

use crate::graph::WeightedDirectedGraph;
use crate::hash_table::HashTable;
use crate::keys::TableKey;
use crate::location::Location;
use crate::location::LocationView;
use crate::priority_queue::HeapItem;
use crate::priority_queue::PriorityQueue;
use vstd::multiset::Multiset;
use vstd::prelude::*;

verus! {

#[derive(Debug, PartialEq, Eq)]
pub enum AStarError {
    NoPathFound,
    InvalidStartOrGoal,
}

/// A frontier entry: a location with the priority it was queued at.
pub struct PriorityLocation {
    pub location: Location,
    pub priority: u64,
}

impl HeapItem for PriorityLocation {
    open spec fn pkey(&self) -> int {
        self.priority as int
    }

    fn lt_item(&self, other: &Self) -> (r: bool) {
        self.priority < other.priority
    }

    fn dup(&self) -> (r: Self) {
        PriorityLocation { location: self.location.clone(), priority: self.priority }
    }
}

/// The abstraction of a graph of locations.
pub type GraphView = Map<LocationView, Seq<(LocationView, u64)>>;

/// The views of a sequence of locations.
pub open spec fn loc_views(p: Seq<Location>) -> Seq<LocationView> {
    Seq::new(p.len(), |i: int| p[i]@)
}

/// Whether the graph holds a directed edge from `u` to `v`.
pub open spec fn has_edge(g: GraphView, u: LocationView, v: LocationView) -> bool {
    g.dom().contains(u) && exists|i: int| 0 <= i < g[u].len() && (#[trigger] g[u][i]).0 == v
}

/// Whether `p` is a path of the graph from `s` to `t`: non-empty, within the
/// vertex set, with an edge between each consecutive pair.
pub open spec fn is_path(g: GraphView, p: Seq<LocationView>, s: LocationView, t: LocationView) -> bool {
    &&& p.len() >= 1
    &&& p[0] == s
    &&& p.last() == t
    &&& forall|i: int| 0 <= i < p.len() ==> g.dom().contains(#[trigger] p[i])
    &&& forall|i: int| 0 <= i < p.len() - 1 ==> has_edge(g, #[trigger] p[i], p[i + 1])
}

/// Whether some directed path of the graph leads from `s` to `t`.
pub open spec fn reachable(g: GraphView, s: LocationView, t: LocationView) -> bool {
    exists|p: Seq<LocationView>| is_path(g, p, s, t)
}

/// Whether the vertex set `d` is closed under the graph's edges.
spec fn edge_closed(g: GraphView, d: Set<LocationView>) -> bool {
    forall|v: LocationView, i: int|
        d.contains(v) && g.dom().contains(v) && 0 <= i < g[v].len() ==> d.contains(
            (#[trigger] g[v][i]).0,
        )
}

/// A path cannot leave an edge-closed vertex set.
proof fn lemma_closed_no_escape(
    g: GraphView,
    d: Set<LocationView>,
    p: Seq<LocationView>,
    s: LocationView,
    t: LocationView,
)
    requires
        is_path(g, p, s, t),
        edge_closed(g, d),
        d.contains(s),
    ensures
        d.contains(t),
    decreases p.len(),
{
    if p.len() == 1 {
    } else {
        assert(has_edge(g, p[0], p[1]));
        let i = choose|i: int| 0 <= i < g[s].len() && (#[trigger] g[s][i]).0 == p[1];
        assert(d.contains(p[1]));
        let q = p.drop_first();
        assert(q.len() == p.len() - 1);
        assert(forall|j: int| 0 <= j < q.len() ==> q[j] == p[j + 1]);
        assert(q.last() == p.last());
        assert(is_path(g, q, p[1], t));
        lemma_closed_no_escape(g, d, q, p[1], t);
    }
}

/// Whether following the predecessor map from `v` reaches `s` within `n`
/// steps.
pub open spec fn chain_reaches(
    p: Map<LocationView, Location>,
    s: LocationView,
    v: LocationView,
    n: nat,
) -> bool
    decreases n,
{
    v == s || (n > 0 && p.dom().contains(v) && chain_reaches(p, s, p[v]@, (n - 1) as nat))
}

/// A chain that reaches within `n` steps also reaches within any larger
/// budget.
proof fn lemma_chain_fuel(p: Map<LocationView, Location>, s: LocationView, v: LocationView, n: nat, m: nat)
    requires
        chain_reaches(p, s, v, n),
        n <= m,
    ensures
        chain_reaches(p, s, v, m),
    decreases n,
{
    if v != s {
        lemma_chain_fuel(p, s, p[v]@, (n - 1) as nat, (m - 1) as nat);
    }
}

/// Adding a predecessor for a vertex that no existing chain passes keeps the
/// existing chains.
proof fn lemma_chain_insert_fresh(
    p: Map<LocationView, Location>,
    s: LocationView,
    v: LocationView,
    n: nat,
    k: LocationView,
    x: Location,
)
    requires
        chain_reaches(p, s, v, n),
        forall|w: LocationView| p.dom().contains(w) ==> (#[trigger] p[w])@ != k,
        v != k,
    ensures
        chain_reaches(p.insert(k, x), s, v, n),
    decreases n,
{
    if v != s {
        lemma_chain_insert_fresh(p, s, p[v]@, (n - 1) as nat, k, x);
    }
}

/// Re-parenting a vertex whose recorded cost lies strictly above the chain's
/// costs keeps the chain: the chain cannot pass that vertex, since costs
/// never increase along a predecessor chain.
proof fn lemma_chain_insert_above(
    p: Map<LocationView, Location>,
    c: Map<LocationView, u64>,
    s: LocationView,
    v: LocationView,
    n: nat,
    k: LocationView,
    x: Location,
)
    requires
        chain_reaches(p, s, v, n),
        c.dom().contains(v),
        c.dom().contains(k),
        c[v] < c[k],
        forall|w: LocationView| #[trigger]
            p.dom().contains(w) ==> c.dom().contains(w) && c.dom().contains(p[w]@) && c[(p[w])@]
                <= c[w],
    ensures
        chain_reaches(p.insert(k, x), s, v, n),
    decreases n,
{
    if v != s {
        assert(v != k);
        assert(c[(p[v])@] <= c[v]);
        lemma_chain_insert_above(p, c, s, p[v]@, (n - 1) as nat, k, x);
    }
}

/// Once the re-parented vertex has a chain of its own, every old chain that
/// may pass it still reaches `s` with a combined budget.
proof fn lemma_chain_insert_route(
    p: Map<LocationView, Location>,
    s: LocationView,
    w: LocationView,
    n: nat,
    k: LocationView,
    x: Location,
    m: nat,
)
    requires
        chain_reaches(p, s, w, n),
        chain_reaches(p.insert(k, x), s, k, m),
    ensures
        chain_reaches(p.insert(k, x), s, w, n + m),
    decreases n,
{
    if w == s {
    } else if w == k {
        lemma_chain_fuel(p.insert(k, x), s, k, m, n + m);
    } else {
        lemma_chain_insert_route(p, s, p[w]@, (n - 1) as nat, k, x, m);
        assert(p.insert(k, x)[w] == p[w]);
    }
}

/// The squared straight-line distance between the coordinates of two
/// locations.
pub open spec fn sq_dist(a: LocationView, b: LocationView) -> int {
    (a.lat - b.lat) * (a.lat - b.lat) + (a.long - b.long) * (a.long - b.long)
}

/// The straight-line distance between the coordinates of two locations,
/// rounded down to an integer: the unique `r` with
/// `r * r <= sq_dist < (r + 1) * (r + 1)`.
pub open spec fn hdist(a: LocationView, b: LocationView) -> int {
    choose|r: int| 0 <= r && #[trigger] (r * r) <= sq_dist(a, b) < (r + 1) * (r + 1)
}

/// Every non-negative integer has an integer square root.
proof fn lemma_sqrt_exists(n: int)
    requires
        0 <= n,
    ensures
        exists|r: int| 0 <= r && #[trigger] (r * r) <= n < (r + 1) * (r + 1),
    decreases n,
{
    if n == 0 {
        assert(0 * 0 <= n < 1 * 1);
    } else {
        lemma_sqrt_exists(n - 1);
        let r = choose|r: int| 0 <= r && #[trigger] (r * r) <= n - 1 < (r + 1) * (r + 1);
        if (r + 1) * (r + 1) <= n {
            assert((r + 1) * (r + 1) <= n < (r + 2) * (r + 2)) by (nonlinear_arith)
                requires
                    0 <= r,
                    (r + 1) * (r + 1) <= n,
                    n - 1 < (r + 1) * (r + 1),
            ;
        } else {
            assert(r * r <= n < (r + 1) * (r + 1));
        }
    }
}

/// The integer square root is unique.
proof fn lemma_sqrt_unique(n: int, r1: int, r2: int)
    requires
        0 <= r1 && r1 * r1 <= n < (r1 + 1) * (r1 + 1),
        0 <= r2 && r2 * r2 <= n < (r2 + 1) * (r2 + 1),
    ensures
        r1 == r2,
{
    assert(r1 == r2) by (nonlinear_arith)
        requires
            0 <= r1 && r1 * r1 <= n < (r1 + 1) * (r1 + 1),
            0 <= r2 && r2 * r2 <= n < (r2 + 1) * (r2 + 1),
    ;
}

/// The rounded distance is non-negative, below `2^33`, and pinned by its
/// squares.
proof fn lemma_hdist_props(a: LocationView, b: LocationView)
    ensures
        0 <= hdist(a, b) < 0x2_0000_0000,
        hdist(a, b) * hdist(a, b) <= sq_dist(a, b) < (hdist(a, b) + 1) * (hdist(a, b) + 1),
{
    assert(0 <= sq_dist(a, b) && sq_dist(a, b) < 0x4_0000_0000_0000_0000) by (nonlinear_arith)
        requires
            0 <= a.lat < 0x1_0000_0000 && 0 <= b.lat < 0x1_0000_0000,
            0 <= a.long < 0x1_0000_0000 && 0 <= b.long < 0x1_0000_0000,
    ;
    lemma_sqrt_exists(sq_dist(a, b));
    let h = hdist(a, b);
    assert(0 <= h && h * h <= sq_dist(a, b) < (h + 1) * (h + 1));
    assert(h < 0x2_0000_0000) by (nonlinear_arith)
        requires
            0 <= h,
            h * h <= sq_dist(a, b),
            sq_dist(a, b) < 0x4_0000_0000_0000_0000,
    ;
}

/// The straight-line distance between two locations on a flat plane, rounded
/// down to an integer: the unique `r` with
/// `r * r <= sq_dist < (r + 1) * (r + 1)`.
pub fn heuristic(goal: &Location, current: &Location) -> (r: u64)
    ensures
        r * r <= sq_dist(goal@, current@) < (r + 1) * (r + 1),
        r == hdist(goal@, current@),
{
    let dx: u64 = if goal.lat >= current.lat {
        (goal.lat - current.lat) as u64
    } else {
        (current.lat - goal.lat) as u64
    };
    let dy: u64 = if goal.long >= current.long {
        (goal.long - current.long) as u64
    } else {
        (current.long - goal.long) as u64
    };
    assert((dx as int) * (dx as int) == (goal@.lat - current@.lat) * (goal@.lat - current@.lat)
        && (dx as int) * (dx as int) < 0x1_0000_0000_0000_0000) by (nonlinear_arith)
        requires
            dx < 0x1_0000_0000,
            dx as int == goal@.lat - current@.lat || dx as int == current@.lat - goal@.lat,
    ;
    assert((dy as int) * (dy as int) == (goal@.long - current@.long) * (goal@.long - current@.long)
        && (dy as int) * (dy as int) < 0x1_0000_0000_0000_0000) by (nonlinear_arith)
        requires
            dy < 0x1_0000_0000,
            dy as int == goal@.long - current@.long || dy as int == current@.long - goal@.long,
    ;
    let dd: u128 = (dx as u128) * (dx as u128) + (dy as u128) * (dy as u128);
    let r = crate::isqrt(dd);
    proof {
        lemma_hdist_props(goal@, current@);
        lemma_sqrt_unique(sq_dist(goal@, current@), r as int, hdist(goal@, current@));
    }
    r
}

/// Whether the graph holds a directed edge from `u` to `v` with cost `c`.
pub open spec fn edge_with(g: GraphView, u: LocationView, v: LocationView, c: u64) -> bool {
    g.dom().contains(u) && exists|i: int| 0 <= i < g[u].len() && #[trigger] g[u][i] == (v, c)
}

/// Whether `p` is a path of the graph from `s` to `t` whose edges carry the
/// costs `cs`, one per consecutive pair.
pub open spec fn is_costed_path(
    g: GraphView,
    p: Seq<LocationView>,
    cs: Seq<u64>,
    s: LocationView,
    t: LocationView,
) -> bool {
    &&& p.len() >= 1
    &&& cs.len() == p.len() - 1
    &&& p[0] == s
    &&& p.last() == t
    &&& forall|i: int| 0 <= i < cs.len() ==> edge_with(g, p[i], p[i + 1], #[trigger] cs[i])
}

/// The total of a sequence of edge costs.
pub open spec fn sum_costs(cs: Seq<u64>) -> int
    decreases cs.len(),
{
    if cs.len() == 0 {
        0
    } else {
        cs[0] + sum_costs(cs.drop_first())
    }
}

/// A total of edge costs is non-negative.
proof fn lemma_sum_nonneg(cs: Seq<u64>)
    ensures
        sum_costs(cs) >= 0,
    decreases cs.len(),
{
    if cs.len() > 0 {
        lemma_sum_nonneg(cs.drop_first());
    }
}

/// A total of edge costs splits at any point.
proof fn lemma_sum_split(cs: Seq<u64>, j: int)
    requires
        0 <= j <= cs.len(),
    ensures
        sum_costs(cs) == sum_costs(cs.take(j)) + sum_costs(cs.skip(j)),
    decreases j,
{
    if j == 0 {
        assert(cs.take(0) =~= Seq::<u64>::empty());
        assert(cs.skip(0) =~= cs);
    } else {
        lemma_sum_split(cs.drop_first(), j - 1);
        assert(cs.take(j).drop_first() =~= cs.drop_first().take(j - 1));
        assert(cs.skip(j) =~= cs.drop_first().skip(j - 1));
        assert(cs.take(j)[0] == cs[0]);
        assert(cs.take(j).len() == j);
    }
}

/// The index of the first vertex of the path that lies outside the set.
proof fn find_first_out(q: Seq<LocationView>, x: Set<LocationView>) -> (j: int)
    requires
        q.len() >= 1,
        !x.contains(q.last()),
    ensures
        0 <= j < q.len(),
        !x.contains(q[j]),
        forall|k: int| 0 <= k < j ==> x.contains(#[trigger] q[k]),
    decreases q.len(),
{
    if !x.contains(q[0]) {
        0
    } else {
        let q2 = q.drop_first();
        assert(q2.last() == q.last());
        let j2 = find_first_out(q2, x);
        assert(q2[j2] == q[j2 + 1]);
        assert forall|k: int| 0 <= k < j2 + 1 implies x.contains(#[trigger] q[k]) by {
            if k > 0 {
                assert(q2[k - 1] == q[k]);
            }
        }
        j2 + 1
    }
}

/// Whether the heuristic never increases by more than the cost along any
/// edge of the graph, measured towards the goal `gv`.
pub open spec fn consistent(g: GraphView, gv: LocationView) -> bool {
    forall|u: LocationView, i: int|
        g.dom().contains(u) && 0 <= i < g[u].len() ==> hdist(gv, u) <= (#[trigger] g[u][i]).1
            + hdist(gv, g[u][i].0)
}

/// Under a consistent heuristic, the heuristic at any vertex of a costed
/// path is at most the remaining cost plus the heuristic at the path's end.
proof fn lemma_consistent_suffix(
    g: GraphView,
    gv: LocationView,
    p: Seq<LocationView>,
    cs: Seq<u64>,
    s: LocationView,
    t: LocationView,
    j: int,
)
    requires
        consistent(g, gv),
        is_costed_path(g, p, cs, s, t),
        0 <= j < p.len(),
    ensures
        hdist(gv, p[j]) <= sum_costs(cs.skip(j)) + hdist(gv, t),
    decreases p.len() - j,
{
    if j == p.len() - 1 {
        assert(cs.skip(j) =~= Seq::<u64>::empty());
    } else {
        lemma_consistent_suffix(g, gv, p, cs, s, t, j + 1);
        assert(edge_with(g, p[j], p[j + 1], cs[j]));
        let i = choose|i: int| 0 <= i < g[p[j]].len() && #[trigger] g[p[j]][i] == (p[j + 1], cs[j]);
        assert(hdist(gv, p[j]) <= cs[j] + hdist(gv, p[j + 1]));
        assert(cs.skip(j).drop_first() =~= cs.skip(j + 1));
        assert(cs.skip(j)[0] == cs[j]);
        assert(sum_costs(cs.skip(j)) == cs[j] + sum_costs(cs.skip(j + 1)));
    }
}

/// The cost margin below which the saturating cost arithmetic of the search
/// is exact: the largest `u64`, less the largest possible heuristic value.
pub open spec fn cost_cap() -> int {
    u64::MAX - 0x2_0000_0000
}

/// The priority a vertex of known cost `c` is queued at: the cost plus the
/// heuristic `h`, saturating at the largest `u64`.
pub open spec fn fplus(c: u64, h: int) -> int {
    if c + h > u64::MAX {
        u64::MAX as int
    } else {
        c + h
    }
}

/// A set strictly inside a finite set is strictly smaller.
proof fn lemma_proper_subset_len(sub: Set<LocationView>, sup: Set<LocationView>, x: LocationView)
    requires
        sup.finite(),
        sub.subset_of(sup),
        sup.contains(x),
        !sub.contains(x),
    ensures
        sub.len() < sup.len(),
{
    vstd::set_lib::lemma_len_subset(sub, sup.remove(x));
}

/// Appending an edge to a costed path extends it by the edge's cost.
proof fn lemma_path_push(
    g: GraphView,
    q: Seq<LocationView>,
    cs: Seq<u64>,
    s: LocationView,
    t: LocationView,
    w: LocationView,
    ec: u64,
)
    requires
        is_costed_path(g, q, cs, s, t),
        edge_with(g, t, w, ec),
    ensures
        is_costed_path(g, q.push(w), cs.push(ec), s, w),
        sum_costs(cs.push(ec)) == sum_costs(cs) + ec,
{
    let q2 = q.push(w);
    let cs2 = cs.push(ec);
    assert forall|i: int| 0 <= i < cs2.len() implies edge_with(g, q2[i], q2[i + 1], #[trigger] cs2[i]) by {
        if i < cs.len() {
            assert(edge_with(g, q[i], q[i + 1], cs[i]));
            assert(q2[i] == q[i] && q2[i + 1] == q[i + 1] && cs2[i] == cs[i]);
        } else {
            assert(q2[i] == t && q2[i + 1] == w && cs2[i] == ec);
        }
    }
    lemma_sum_split(cs2, cs.len() as int);
    assert(cs2.take(cs.len() as int) =~= cs);
    assert(cs2.skip(cs.len() as int) =~= seq![ec]);
    assert(seq![ec].drop_first() =~= Seq::<u64>::empty());
    assert(sum_costs(seq![ec]) == ec + sum_costs(seq![ec].drop_first()));
    assert(sum_costs(Seq::<u64>::empty()) == 0);
}

/// Every path of the graph carries some assignment of edge costs.
proof fn lemma_path_costs_exist(g: GraphView, p: Seq<LocationView>, s: LocationView, t: LocationView)
    requires
        is_path(g, p, s, t),
    ensures
        exists|cs: Seq<u64>| is_costed_path(g, p, cs, s, t),
    decreases p.len(),
{
    if p.len() == 1 {
        let cs = Seq::<u64>::empty();
        assert(is_costed_path(g, p, cs, s, t));
    } else {
        let q = p.drop_last();
        let u = p[p.len() - 2];
        assert(q.last() == u);
        assert(forall|i: int| 0 <= i < q.len() ==> q[i] == p[i]);
        assert(is_path(g, q, s, u));
        lemma_path_costs_exist(g, q, s, u);
        let cs0 = choose|cs0: Seq<u64>| is_costed_path(g, q, cs0, s, u);
        assert(has_edge(g, p[p.len() - 2], p[p.len() - 1]));
        let i = choose|i: int| 0 <= i < g[u].len() && (#[trigger] g[u][i]).0 == t;
        assert(edge_with(g, u, t, g[u][i].1));
        lemma_path_push(g, q, cs0, s, u, t, g[u][i].1);
        assert(q.push(t) =~= p);
        assert(is_costed_path(g, p, cs0.push(g[u][i].1), s, t));
    }
}

/// Every frontier entry's priority is at least its vertex's recorded cost
/// plus the heuristic.
spec fn frontier_lb(
    c: Map<LocationView, u64>,
    f: Multiset<PriorityLocation>,
    gv: LocationView,
) -> bool {
    forall|nd: PriorityLocation| #[trigger]
        f.count(nd) > 0 ==> c.dom().contains(nd.location@) && nd.priority as int >= fplus(
            c[nd.location@],
            hdist(gv, nd.location@),
        )
}

/// Every costed unexpanded vertex outside `except` keeps an entry queued at
/// exactly its recorded cost plus the heuristic.
spec fn frontier_exact(
    c: Map<LocationView, u64>,
    x: Set<LocationView>,
    f: Multiset<PriorityLocation>,
    gv: LocationView,
    except: Set<LocationView>,
) -> bool {
    forall|v: LocationView| #[trigger]
        c.dom().contains(v) && !x.contains(v) && !except.contains(v) ==> exists|
            e: PriorityLocation,
        | f.count(e) > 0 && e.location@ == v && e.priority as int == fplus(c[v], hdist(gv, v))
}

/// Every recorded cost below the largest `u64` is matched by a real path of
/// at most that cost.
spec fn costs_achievable(g: GraphView, c: Map<LocationView, u64>, sv: LocationView) -> bool {
    forall|v: LocationView| #[trigger]
        c.dom().contains(v) && c[v] < u64::MAX ==> exists|q: Seq<LocationView>, cs: Seq<u64>|
            is_costed_path(g, q, cs, sv, v) && sum_costs(cs) <= c[v]
}

/// Every recorded predecessor is expanded, apart from `except`.
spec fn parents_expanded(
    p: Map<LocationView, Location>,
    x: Set<LocationView>,
    except: Set<LocationView>,
) -> bool {
    forall|v: LocationView| #[trigger]
        p.dom().contains(v) ==> x.contains(p[v]@) || except.contains(p[v]@)
}

/// The recorded cost of every expanded vertex bounds every in-margin path to
/// it from below.
spec fn expanded_lower(
    g: GraphView,
    c: Map<LocationView, u64>,
    x: Set<LocationView>,
    sv: LocationView,
) -> bool {
    forall|u: LocationView, q: Seq<LocationView>, cs: Seq<u64>|
        x.contains(u) && #[trigger] is_costed_path(g, q, cs, sv, u) && sum_costs(cs) <= cost_cap()
            ==> sum_costs(cs) >= c[u]
}

/// Every edge of an in-margin expanded vertex is relaxed.
spec fn expanded_relaxed(g: GraphView, c: Map<LocationView, u64>, x: Set<LocationView>) -> bool {
    forall|u: LocationView, i: int|
        x.contains(u) && 0 <= i < g[u].len() && c[u] <= cost_cap() ==> c[(
        #[trigger] g[u][i]).0] <= c[u] + g[u][i].1
}

/// Every in-margin predecessor link carries an edge whose cost is exactly
/// the difference of the recorded costs.
spec fn links_exact(g: GraphView, c: Map<LocationView, u64>, p: Map<LocationView, Location>) -> bool {
    forall|v: LocationView| #[trigger]
        p.dom().contains(v) && c.dom().contains(v) && c[v] <= cost_cap() ==> exists|ec: u64|
            edge_with(g, p[v]@, v, ec) && c.dom().contains(p[v]@) && c[v] == c[(p[v])@] + ec
}

/// Whether the route `p` carries a cost assignment that, whenever the
/// heuristic is consistent towards `t`, no path within the cost margin can
/// beat.
pub open spec fn optimal_route(
    g: GraphView,
    p: Seq<Location>,
    s: LocationView,
    t: LocationView,
) -> bool {
    exists|cs: Seq<u64>|
        is_costed_path(g, loc_views(p), cs, s, t) && (consistent(g, t) ==> least_cost(
            g,
            s,
            t,
            sum_costs(cs),
        ))
}

/// Whether `b` is at most the cost of every in-margin path from `s` to `t`.
pub open spec fn least_cost(g: GraphView, s: LocationView, t: LocationView, b: int) -> bool {
    forall|q: Seq<LocationView>, cs2: Seq<u64>| #[trigger]
        is_costed_path(g, q, cs2, s, t) && sum_costs(cs2) <= cost_cap() ==> b <= sum_costs(cs2)
}

/// Walking a chain of exact predecessor links yields a costed path whose
/// total is the difference of the end costs.
proof fn lemma_chain_costs(
    g: GraphView,
    c: Map<LocationView, u64>,
    pm: Map<LocationView, Location>,
    pv: Seq<LocationView>,
)
    requires
        links_exact(g, c, pm),
        forall|v: LocationView| #[trigger] pm.dom().contains(v) ==> c.dom().contains(v),
        pv.len() >= 1,
        c.dom().contains(pv[0]),
        forall|i: int|
            0 <= i < pv.len() - 1 ==> pm.dom().contains(#[trigger] pv[i + 1]) && (pm[pv[i + 1]])@
                == pv[i],
        c[pv.last()] <= cost_cap(),
    ensures
        exists|cs: Seq<u64>|
            is_costed_path(g, pv, cs, pv[0], pv.last()) && sum_costs(cs) == c[pv.last()] - c[pv[0]],
    decreases pv.len(),
{
    if pv.len() == 1 {
        let cs = Seq::<u64>::empty();
        assert(is_costed_path(g, pv, cs, pv[0], pv.last()));
        assert(sum_costs(cs) == c[pv.last()] - c[pv[0]]);
    } else {
        let n = pv.len();
        let t = pv[n - 1];
        let u = pv[n - 2];
        assert(pm.dom().contains(t) && (pm[t])@ == u) by {
            let i = n - 2;
            assert(pm.dom().contains(pv[i + 1]) && (pm[pv[i + 1]])@ == pv[i]);
        }
        let ec = choose|ec: u64|
            edge_with(g, (pm[t])@, t, ec) && c.dom().contains((pm[t])@) && c[t] == c[(pm[t])@] + ec;
        assert(c[u] <= c[t] <= cost_cap());
        let q = pv.drop_last();
        assert(q.last() == u);
        assert(forall|i: int| 0 <= i < q.len() ==> q[i] == pv[i]);
        assert forall|i: int| 0 <= i < q.len() - 1 implies pm.dom().contains(#[trigger] q[i + 1])
            && (pm[q[i + 1]])@ == q[i] by {
            assert(pm.dom().contains(pv[i + 1]) && (pm[pv[i + 1]])@ == pv[i]);
        }
        lemma_chain_costs(g, c, pm, q);
        let cs0 = choose|cs0: Seq<u64>|
            is_costed_path(g, q, cs0, q[0], q.last()) && sum_costs(cs0) == c[q.last()] - c[q[0]];
        lemma_path_push(g, q, cs0, q[0], u, t, ec);
        assert(q.push(t) =~= pv);
        assert(is_costed_path(g, pv, cs0.push(ec), pv[0], pv.last()));
        assert(sum_costs(cs0.push(ec)) == c[pv.last()] - c[pv[0]]);
    }
}

/// At the moment a vertex leaves the frontier with the least priority, its
/// recorded cost is a lower bound on the cost of every start-to-vertex path
/// within the cost margin: a cheaper path would have to leave the expanded
/// set at some vertex whose exact-priority frontier entry would undercut the
/// popped priority, which the heuristic's consistency rules out.
proof fn lemma_expand_lower(
    g: GraphView,
    c: Map<LocationView, u64>,
    x: Set<LocationView>,
    f_rem: Multiset<PriorityLocation>,
    nd: PriorityLocation,
    sv: LocationView,
    gv: LocationView,
    q: Seq<LocationView>,
    cs: Seq<u64>,
)
    requires
        consistent(g, gv),
        c.dom().contains(sv),
        c[sv] == 0,
        forall|u: LocationView| #[trigger] x.contains(u) ==> c.dom().contains(u),
        forall|u: LocationView, i: int|
            x.contains(u) && 0 <= i < g[u].len() ==> c.dom().contains((#[trigger] g[u][i]).0),
        // recorded costs of expanded vertices bound every in-margin path
        forall|u: LocationView, q2: Seq<LocationView>, cs2: Seq<u64>|
            x.contains(u) && #[trigger] is_costed_path(g, q2, cs2, sv, u) && sum_costs(cs2)
                <= cost_cap() ==> sum_costs(cs2) >= c[u],
        // expanded vertices' edges are relaxed
        forall|u: LocationView, i: int|
            x.contains(u) && 0 <= i < g[u].len() && c[u] <= cost_cap() ==> c[(
            #[trigger] g[u][i]).0] <= c[u] + g[u][i].1,
        // the popped entry had the least priority
        forall|nd2: PriorityLocation| #[trigger]
            f_rem.count(nd2) > 0 ==> nd.priority as int <= nd2.priority as int,
        // its priority is at least its vertex's cost plus heuristic
        nd.priority as int >= fplus(c[nd.location@], hdist(gv, nd.location@)),
        // every other unexpanded costed vertex keeps an exact-priority entry
        forall|w: LocationView| #[trigger]
            c.dom().contains(w) && !x.contains(w) && w != nd.location@ ==> exists|
                e: PriorityLocation,
            | f_rem.count(e) > 0 && e.location@ == w && e.priority as int == fplus(
                c[w],
                hdist(gv, w),
            ),
        is_costed_path(g, q, cs, sv, nd.location@),
        sum_costs(cs) <= cost_cap(),
        !x.contains(nd.location@),
        c.dom().contains(nd.location@),
    ensures
        sum_costs(cs) >= c[nd.location@],
{
    let v = nd.location@;
    let j = find_first_out(q, x);
    let w = q[j];
    let pc = sum_costs(cs.take(j));
    let sc = sum_costs(cs.skip(j));
    lemma_sum_split(cs, j);
    lemma_sum_nonneg(cs.take(j));
    lemma_sum_nonneg(cs.skip(j));
    // the first vertex outside the expanded set has cost at most the prefix
    if j == 0 {
        assert(w == sv);
        assert(c[w] <= pc);
    } else {
        let u = q[j - 1];
        assert(x.contains(u));
        let qp = q.take(j);
        let csp = cs.take(j - 1);
        assert(qp.len() == j);
        assert(qp[0] == q[0]);
        assert(qp.last() == u);
        assert forall|i: int| 0 <= i < csp.len() implies edge_with(g, qp[i], qp[i + 1], #[trigger] csp[i]) by {
            assert(csp[i] == cs[i]);
            assert(qp[i] == q[i] && qp[i + 1] == q[i + 1]);
            assert(edge_with(g, q[i], q[i + 1], cs[i]));
        }
        assert(is_costed_path(g, qp, csp, sv, u));
        // the prefix's total splits off its last edge
        lemma_sum_split(cs.take(j), j - 1);
        assert(cs.take(j).take(j - 1) =~= cs.take(j - 1));
        assert(cs.take(j).skip(j - 1) =~= seq![cs[j - 1]]);
        assert(sum_costs(seq![cs[j - 1]]) == cs[j - 1] + sum_costs(seq![cs[j - 1]].drop_first()));
        assert(seq![cs[j - 1]].drop_first() =~= Seq::<u64>::empty());
        assert(pc == sum_costs(cs.take(j - 1)) + cs[j - 1]);
        lemma_sum_nonneg(csp);
        assert(sum_costs(csp) <= sum_costs(cs)) by {
            lemma_sum_split(cs, j - 1);
            lemma_sum_nonneg(cs.skip(j - 1));
            assert(cs.take(j - 1) =~= csp);
        }
        assert(sum_costs(csp) >= c[u]);
        // the relaxed edge from u bounds w's cost
        assert(edge_with(g, q[j - 1], q[j], cs[j - 1]));
        let ei = choose|i: int| 0 <= i < g[u].len() && #[trigger] g[u][i] == (w, cs[j - 1]);
        assert(c[u] <= cost_cap());
        assert(c[(g[u][ei]).0] <= c[u] + g[u][ei].1);
        assert(c[w] <= c[u] + cs[j - 1]);
        assert(c[w] <= pc);
    }
    if w == v {
        assert(c[v] <= pc);
        assert(pc <= sum_costs(cs));
    } else {
        // w's exact entry cannot undercut the popped least priority
        assert(c.dom().contains(w)) by {
            if j > 0 {
                let u = q[j - 1];
                let ei = choose|i: int|
                    0 <= i < g[u].len() && #[trigger] g[u][i] == (w, cs[j - 1]);
                assert(c.dom().contains((g[u][ei]).0));
            }
        }
        lemma_consistent_suffix(g, gv, q, cs, sv, v, j);
        lemma_hdist_props(gv, w);
        lemma_hdist_props(gv, v);
        assert(c[w] + hdist(gv, w) < u64::MAX);
        assert(fplus(c[w], hdist(gv, w)) == c[w] + hdist(gv, w));
        let e = choose|e: PriorityLocation|
            f_rem.count(e) > 0 && e.location@ == w && e.priority as int == fplus(
                c[w],
                hdist(gv, w),
            );
        assert(nd.priority as int <= e.priority as int);
        assert(fplus(c[v], hdist(gv, v)) <= c[w] + hdist(gv, w));
        assert(c[w] + hdist(gv, w) <= pc + sc + hdist(gv, v));
        assert(fplus(c[v], hdist(gv, v)) < u64::MAX);
        assert(fplus(c[v], hdist(gv, v)) == c[v] + hdist(gv, v));
        assert(c[v] <= sum_costs(cs));
    }
}

/// A single relaxation preserves the consistency-dependent invariants: the
/// certified lower bounds of expanded vertices, their relaxed edges, and the
/// exactness of the predecessor links.
proof fn lemma_relax_conditional(
    g: GraphView,
    c0: Map<LocationView, u64>,
    c1: Map<LocationView, u64>,
    p0: Map<LocationView, Location>,
    p1: Map<LocationView, Location>,
    x: Set<LocationView>,
    sv: LocationView,
    gv: LocationView,
    cv: LocationView,
    nv: LocationView,
    current_cost: u64,
    edge_cost: u64,
    new_cost: u64,
    parent: Location,
)
    requires
        consistent(g, gv),
        expanded_lower(g, c0, x, sv),
        expanded_relaxed(g, c0, x),
        links_exact(g, c0, p0),
        costs_achievable(g, c0, sv),
        forall|u: LocationView| #[trigger] x.contains(u) ==> c0.dom().contains(u),
        forall|u: LocationView, i: int|
            x.contains(u) && 0 <= i < g[u].len() ==> c0.dom().contains((#[trigger] g[u][i]).0),
        forall|v: LocationView| #[trigger]
            p0.dom().contains(v) ==> x.contains(p0[v]@) || p0[v]@ == cv,
        forall|v: LocationView| #[trigger] p0.dom().contains(v) ==> c0.dom().contains(v),
        c0.dom().contains(cv),
        c0[cv] == current_cost,
        !x.contains(cv),
        edge_with(g, cv, nv, edge_cost),
        current_cost + edge_cost > u64::MAX ==> new_cost == u64::MAX,
        current_cost + edge_cost <= u64::MAX ==> new_cost == current_cost + edge_cost,
        !c0.dom().contains(nv) || new_cost < c0[nv],
        c1 == c0.insert(nv, new_cost),
        p1 == p0.insert(nv, parent),
        parent@ == cv,
    ensures
        expanded_lower(g, c1, x, sv),
        expanded_relaxed(g, c1, x),
        links_exact(g, c1, p1),
{
    assert(nv != cv);
    // an expanded vertex can only be improved past the cost margin:
    // otherwise a real path through the expanding vertex would undercut its
    // certified lower bound
    assert(x.contains(nv) ==> new_cost > cost_cap() && c0[nv] > cost_cap()) by {
        if x.contains(nv) && new_cost <= cost_cap() {
            assert(new_cost < u64::MAX);
            assert(new_cost == current_cost + edge_cost);
            assert(c0[cv] < u64::MAX);
            let (qa, csa) = choose|qa: Seq<LocationView>, csa: Seq<u64>|
                is_costed_path(g, qa, csa, sv, cv) && sum_costs(csa) <= c0[cv];
            lemma_path_push(g, qa, csa, sv, cv, nv, edge_cost);
            assert(sum_costs(csa.push(edge_cost)) <= cost_cap());
            assert(sum_costs(csa.push(edge_cost)) >= c0[nv]);
            assert(false);
        }
    }
    assert forall|u: LocationView, q2: Seq<LocationView>, cs2: Seq<u64>|
        x.contains(u) && #[trigger] is_costed_path(g, q2, cs2, sv, u) && sum_costs(cs2)
            <= cost_cap() implies sum_costs(cs2) >= c1[u] by {
        assert(sum_costs(cs2) >= c0[u]);
        if u != nv {
            assert(c1[u] == c0[u]);
        }
    }
    assert forall|u: LocationView, i2: int|
        x.contains(u) && 0 <= i2 < g[u].len() && c1[u] <= cost_cap() implies c1[(
    #[trigger] g[u][i2]).0] <= c1[u] + g[u][i2].1 by {
        assert(u != nv);
        assert(c1[u] == c0[u]);
        assert(c0[(g[u][i2]).0] <= c0[u] + g[u][i2].1);
        if (g[u][i2]).0 == nv {
            assert(c0.dom().contains(nv));
            assert(new_cost < c0[nv]);
            assert(c1[nv] <= c0[nv]);
        } else {
            assert(c1[(g[u][i2]).0] == c0[(g[u][i2]).0]);
        }
    }
    assert forall|v: LocationView| #[trigger]
        p1.dom().contains(v) && c1.dom().contains(v) && c1[v] <= cost_cap() implies exists|
        ec: u64,
    | edge_with(g, (p1[v])@, v, ec) && c1.dom().contains((p1[v])@) && c1[v] == c1[(p1[v])@]
        + ec by {
        if v == nv {
            assert(c1[nv] == new_cost);
            assert(new_cost < u64::MAX);
            assert(new_cost == current_cost + edge_cost);
            assert((p1[nv])@ == cv);
            assert(c1[cv] == c0[cv] && c0[cv] == current_cost);
            assert(edge_with(g, (p1[nv])@, nv, edge_cost) && c1.dom().contains((p1[nv])@) && c1[nv]
                == c1[(p1[nv])@] + edge_cost);
        } else {
            assert(p0.dom().contains(v) && p1[v] == p0[v]);
            assert(c1[v] == c0[v]);
            let ec0 = choose|ec: u64|
                edge_with(g, (p0[v])@, v, ec) && c0.dom().contains((p0[v])@) && c0[v] == c0[(
                p0[v])@] + ec;
            if (p0[v])@ == nv {
                assert(x.contains(nv) || nv == cv);
                assert(c0[nv] > cost_cap());
                assert(c0[v] == c0[nv] + ec0);
                assert(false);
            } else {
                assert(c1[(p0[v])@] == c0[(p0[v])@]);
                assert(edge_with(g, (p1[v])@, v, ec0) && c1.dom().contains((p1[v])@) && c1[v]
                    == c1[(p1[v])@] + ec0);
            }
        }
    }
}

/// The returned route of a finished search carries costs that no in-margin
/// path can beat: walking the exact predecessor links totals exactly the
/// goal's recorded cost, which the expansion-time lower bound certifies as
/// least; a recorded cost beyond the margin means no in-margin path exists
/// at all.
proof fn lemma_goal_witness(
    g: GraphView,
    c: Map<LocationView, u64>,
    pm: Map<LocationView, Location>,
    pv: Seq<LocationView>,
    sv: LocationView,
    gv: LocationView,
)
    requires
        consistent(g, gv),
        links_exact(g, c, pm),
        forall|v: LocationView| #[trigger] pm.dom().contains(v) ==> c.dom().contains(v),
        pv.len() >= 1,
        pv[0] == sv,
        pv.last() == gv,
        c.dom().contains(sv),
        c[sv] == 0,
        c.dom().contains(gv),
        forall|i2: int|
            0 <= i2 < pv.len() - 1 ==> pm.dom().contains(#[trigger] pv[i2 + 1]) && (pm[pv[i2
                + 1]])@ == pv[i2],
        is_path(g, pv, sv, gv),
        forall|q2: Seq<LocationView>, cs2: Seq<u64>|
            #[trigger] is_costed_path(g, q2, cs2, sv, gv) && sum_costs(cs2) <= cost_cap()
                ==> sum_costs(cs2) >= c[gv],
    ensures
        exists|cs: Seq<u64>|
            is_costed_path(g, pv, cs, sv, gv) && least_cost(g, sv, gv, sum_costs(cs)),
{
    if c[gv] <= cost_cap() {
        lemma_chain_costs(g, c, pm, pv);
        let cs = choose|cs: Seq<u64>|
            is_costed_path(g, pv, cs, pv[0], pv.last()) && sum_costs(cs) == c[pv.last()] - c[pv[0]];
        assert(sum_costs(cs) == c[gv]);
        assert(is_costed_path(g, pv, cs, sv, gv));
        assert(least_cost(g, sv, gv, sum_costs(cs)));
    } else {
        lemma_path_costs_exist(g, pv, sv, gv);
        let csp = choose|csp: Seq<u64>| is_costed_path(g, pv, csp, sv, gv);
        assert forall|q2: Seq<LocationView>, cs2: Seq<u64>|
            #[trigger] is_costed_path(g, q2, cs2, sv, gv) && sum_costs(cs2)
                <= cost_cap() implies sum_costs(csp) <= sum_costs(cs2) by {
            assert(sum_costs(cs2) >= c[gv]);
        }
        assert(least_cost(g, sv, gv, sum_costs(csp)));
    }
}

/// The route walked out of the predecessor map is a genuine path of the
/// graph, and it carries a cost assignment that, under a consistent
/// heuristic, no in-margin path can beat.
proof fn lemma_return_ok(
    g: GraphView,
    c: Map<LocationView, u64>,
    pm: Map<LocationView, Location>,
    pathv: Seq<Location>,
    sv: LocationView,
    gv: LocationView,
)
    requires
        pathv.len() >= 1,
        pathv[0]@ == sv,
        pathv.last()@ == gv,
        forall|i: int|
            0 <= i < pathv.len() - 1 ==> pm.dom().contains((#[trigger] pathv[i + 1])@) && (pm[
                pathv[i + 1]@])@ == pathv[i]@,
        forall|v: LocationView| #[trigger] pm.dom().contains(v) ==> c.dom().contains(v),
        forall|v: LocationView| #[trigger]
            pm.dom().contains(v) ==> c.dom().contains(pm[v]@) && c[(pm[v])@] <= c[v] && has_edge(
                g,
                pm[v]@,
                v,
            ),
        forall|v: LocationView| #[trigger] c.dom().contains(v) ==> g.dom().contains(v),
        c.dom().contains(sv),
        c[sv] == 0,
        c.dom().contains(gv),
        consistent(g, gv) ==> links_exact(g, c, pm),
        consistent(g, gv) ==> forall|q2: Seq<LocationView>, cs2: Seq<u64>|
            #[trigger] is_costed_path(g, q2, cs2, sv, gv) && sum_costs(cs2) <= cost_cap()
                ==> sum_costs(cs2) >= c[gv],
    ensures
        is_path(g, loc_views(pathv), sv, gv),
        reachable(g, sv, gv),
        exists|cs: Seq<u64>|
            is_costed_path(g, loc_views(pathv), cs, sv, gv) && (consistent(g, gv) ==> least_cost(
                g,
                sv,
                gv,
                sum_costs(cs),
            )),
{
    let pv = loc_views(pathv);
    assert(pv.len() == pathv.len());
    assert(pv[0] == sv);
    assert(pv.last() == gv);
    assert forall|i: int| 0 <= i < pv.len() - 1 implies has_edge(g, #[trigger] pv[i], pv[i + 1]) by {
        assert(pm.dom().contains(pathv[i + 1]@));
        assert((pm[pathv[i + 1]@])@ == pathv[i]@);
    }
    assert forall|i: int| 0 <= i < pv.len() implies g.dom().contains(#[trigger] pv[i]) by {
        if i < pv.len() - 1 {
            assert(pm.dom().contains(pathv[i + 1]@));
            assert((pm[pathv[i + 1]@])@ == pathv[i]@);
        }
    }
    assert(is_path(g, pv, sv, gv));
    assert forall|i2: int| 0 <= i2 < pv.len() - 1 implies pm.dom().contains(
        #[trigger] pv[i2 + 1],
    ) && (pm[pv[i2 + 1]])@ == pv[i2] by {
        assert(pm.dom().contains(pathv[i2 + 1]@));
        assert((pm[pathv[i2 + 1]@])@ == pathv[i2]@);
    }
    if consistent(g, gv) {
        lemma_goal_witness(g, c, pm, pv, sv, gv);
        let cs = choose|cs: Seq<u64>|
            is_costed_path(g, pv, cs, sv, gv) && least_cost(g, sv, gv, sum_costs(cs));
        assert(is_costed_path(g, pv, cs, sv, gv) && (consistent(g, gv) ==> least_cost(
            g,
            sv,
            gv,
            sum_costs(cs),
        )));
    } else {
        lemma_path_costs_exist(g, pv, sv, gv);
        let cs = choose|cs: Seq<u64>| is_costed_path(g, pv, cs, sv, gv);
        assert(is_costed_path(g, pv, cs, sv, gv) && (consistent(g, gv) ==> least_cost(
            g,
            sv,
            gv,
            sum_costs(cs),
        )));
    }
}

/// The bookkeeping invariant of a search: every costed vertex is a graph
/// vertex reachable from the start along the predecessor map, the start has
/// cost zero, expanded vertices have all their edge targets costed, the goal
/// is never expanded, and predecessor edges exist in the graph with
/// non-increasing costs towards the start.
spec fn search_inv(
    g: GraphView,
    c: Map<LocationView, u64>,
    p: Map<LocationView, Location>,
    x: Set<LocationView>,
    sv: LocationView,
    gv: LocationView,
) -> bool {
    &&& forall|v: LocationView| #[trigger] c.dom().contains(v) ==> g.dom().contains(v)
    &&& c.dom().contains(sv)
    &&& c[sv] == 0
    &&& forall|v: LocationView| #[trigger] x.contains(v) ==> c.dom().contains(v)
    &&& !x.contains(gv)
    &&& forall|v: LocationView, i: int|
        x.contains(v) && 0 <= i < g[v].len() ==> c.dom().contains((#[trigger] g[v][i]).0)
    &&& forall|v: LocationView| #[trigger] p.dom().contains(v) ==> v != sv && c.dom().contains(v)
    &&& forall|v: LocationView|
        #[trigger] c.dom().contains(v) && v != sv ==> p.dom().contains(v)
    &&& forall|v: LocationView| #[trigger]
        p.dom().contains(v) ==> c.dom().contains(p[v]@) && c[(p[v])@] <= c[v] && has_edge(
            g,
            p[v]@,
            v,
        )
    &&& forall|v: LocationView| #[trigger] c.dom().contains(v) ==> exists|n: nat|
            chain_reaches(p, sv, v, n)
}

/// Every costed vertex outside `except` is expanded or has a frontier entry.
spec fn frontier_covers(
    c: Map<LocationView, u64>,
    x: Set<LocationView>,
    f: Multiset<PriorityLocation>,
    except: Set<LocationView>,
) -> bool {
    forall|v: LocationView| #[trigger]
        c.dom().contains(v) ==> except.contains(v) || x.contains(v) || exists|nd: PriorityLocation|
            f.count(nd) > 0 && nd.location@ == v
}

/// Every frontier entry is a costed vertex.
spec fn frontier_costed(c: Map<LocationView, u64>, f: Multiset<PriorityLocation>) -> bool {
    forall|nd: PriorityLocation| #[trigger] f.count(nd) > 0 ==> c.dom().contains(nd.location@)
}

/// Computes a least-cost route from `start` to `goal`: the frontier is
/// expanded in order of known cost plus straight-line estimate, each
/// improvement of a vertex's cost records its predecessor, and reaching the
/// goal rebuilds the route from the predecessors.
///
/// Returns the path when the goal is reached, `InvalidStartOrGoal` when an
/// endpoint is not a vertex of the graph, and `NoPathFound` exactly when no
/// directed path connects the endpoints.
#[verifier::loop_isolation(false)]
#[verifier::rlimit(100)]
#[verifier::spinoff_prover]
pub fn a_star(graph: &WeightedDirectedGraph<Location>, start: Location, goal: Location) -> (r:
    Result<Vec<Location>, AStarError>)
    requires
        graph.wf(),
    ensures
        r == Result::<Vec<Location>, AStarError>::Err(AStarError::InvalidStartOrGoal) <==> !(graph@.dom().contains(start@)
            && graph@.dom().contains(goal@)),
        r matches Ok(p) ==> is_path(graph@, loc_views(p@), start@, goal@),
        r == Result::<Vec<Location>, AStarError>::Err(AStarError::NoPathFound) <==> graph@.dom().contains(start@)
            && graph@.dom().contains(goal@) && !reachable(graph@, start@, goal@),
        r is Ok <==> graph@.dom().contains(start@) && graph@.dom().contains(goal@) && reachable(
            graph@,
            start@,
            goal@,
        ),
        start@ == goal@ ==> (r matches Ok(p) ==> p@.len() == 1),
        r matches Ok(p) ==> optimal_route(graph@, p@, start@, goal@),
{
    broadcast use vstd::multiset::axiom_count_le_len;
    broadcast use vstd::multiset::lemma_insert_increases_count_by_1;

    let ghost g = graph@;
    let ghost sv = start@;
    let ghost gv = goal@;
    if !graph.contains_vertex(&start) || !graph.contains_vertex(&goal) {
        return Err(AStarError::InvalidStartOrGoal);
    }
    let vc = graph.vertex_count();
    proof {
        graph.lemma_edges_closed();
        if g.dom().len() == 0 {
            vstd::set_lib::lemma_len_subset(g.dom(), Set::empty());
            assert(g.dom() =~= Set::<LocationView>::empty());
        }
    }
    let mut frontier: PriorityQueue<PriorityLocation> = PriorityQueue::new();
    let mut cost_so_far: HashTable<Location, u64> = HashTable::with_capacity(vc);
    let mut came_from: HashTable<Location, Location> = HashTable::with_capacity(vc);
    let mut expanded: HashTable<Location, bool> = HashTable::with_capacity(vc);
    let h0 = heuristic(&goal, &start);
    match cost_so_far.insert(start.clone(), 0) {
        Ok(()) => {},
        Err(_) => {
            proof {
                assert(false);
            }
            unreached()
        },
    }
    let start_node = PriorityLocation { location: start.clone(), priority: h0 };
    let ghost sn = start_node;
    frontier.push(start_node);
    proof {
        assert(chain_reaches(came_from@, sv, sv, 0));
        assert forall|v: LocationView| #[trigger] cost_so_far@.dom().contains(v) implies exists|
            n: nat,
        | chain_reaches(came_from@, sv, v, n) by {
            assert(chain_reaches(came_from@, sv, sv, 0));
        }
        assert(search_inv(g, cost_so_far@, came_from@, expanded@.dom(), sv, gv));
        assert(frontier@.count(sn) > 0);
        assert(expanded@.dom() =~= Set::<LocationView>::empty());
        assert(cost_so_far@.dom() =~= Set::<LocationView>::empty().insert(sv));
        assert forall|v: LocationView| #[trigger] cost_so_far@.dom().contains(v)
            implies Set::<LocationView>::empty().contains(v) || expanded@.dom().contains(v)
            || exists|nd: PriorityLocation| frontier@.count(nd) > 0 && nd.location@ == v by {
            assert(frontier@.count(sn) > 0 && sn.location@ == sv);
        }
        lemma_hdist_props(gv, sv);
        assert(sn.priority as int == fplus(cost_so_far@[sv], hdist(gv, sv)));
        assert forall|nd: PriorityLocation| #[trigger] frontier@.count(nd) > 0 implies nd
            == sn by {}
        assert(frontier_lb(cost_so_far@, frontier@, gv));
        assert forall|v: LocationView| #[trigger]
            cost_so_far@.dom().contains(v) && !expanded@.dom().contains(v) && !Set::<
            LocationView,
        >::empty().contains(v) implies exists|e: PriorityLocation|
            frontier@.count(e) > 0 && e.location@ == v && e.priority as int == fplus(
                cost_so_far@[v],
                hdist(gv, v),
            ) by {
            assert(frontier@.count(sn) > 0 && sn.location@ == sv);
        }
        assert forall|v: LocationView| #[trigger]
            cost_so_far@.dom().contains(v) && cost_so_far@[v] < u64::MAX implies exists|
            q: Seq<LocationView>,
            cs: Seq<u64>,
        | is_costed_path(g, q, cs, sv, v) && sum_costs(cs) <= cost_so_far@[v] by {
            let q0 = seq![sv];
            let cs0 = Seq::<u64>::empty();
            assert(is_costed_path(g, q0, cs0, sv, sv));
            assert(sum_costs(cs0) == 0);
        }
        assert(costs_achievable(g, cost_so_far@, sv));
        assert(parents_expanded(came_from@, expanded@.dom(), Set::empty()));
    }
    while !frontier.is_empty()
        invariant
            graph.wf(),
            cost_so_far.wf(),
            came_from.wf(),
            expanded.wf(),
            frontier.wf(),
            g == graph@,
            sv == start@,
            gv == goal@,
            g.dom().contains(sv),
            g.dom().contains(gv),
            g.dom().finite(),
            vc as int == g.dom().len(),
            cost_so_far.capacity() == vc as int,
            came_from.capacity() == vc as int,
            expanded.capacity() == vc as int,
            cost_so_far@.dom().finite(),
            came_from@.dom().finite(),
            expanded@.dom().finite(),
            search_inv(g, cost_so_far@, came_from@, expanded@.dom(), sv, gv),
            frontier_covers(cost_so_far@, expanded@.dom(), frontier@, Set::empty()),
            frontier_costed(cost_so_far@, frontier@),
            frontier_lb(cost_so_far@, frontier@, gv),
            frontier_exact(cost_so_far@, expanded@.dom(), frontier@, gv, Set::empty()),
            costs_achievable(g, cost_so_far@, sv),
            parents_expanded(came_from@, expanded@.dom(), Set::empty()),
            consistent(g, gv) ==> expanded_lower(g, cost_so_far@, expanded@.dom(), sv),
            consistent(g, gv) ==> expanded_relaxed(g, cost_so_far@, expanded@.dom()),
            consistent(g, gv) ==> links_exact(g, cost_so_far@, came_from@),
        decreases g.dom().len() - expanded@.dom().len(), frontier@.len(),
    {
        proof {
            lemma_proper_subset_len(expanded@.dom(), g.dom(), gv);
        }
        let ghost f_pre = frontier@;
        let nd = match frontier.pop() {
            Some(nd) => nd,
            None => unreached(),
        };
        let current = nd.location;
        let ghost cv = current@;
        proof {
            assert(cost_so_far@.dom().contains(cv));
            // removing the popped entry leaves every other vertex's exact
            // entry in place
            assert forall|v: LocationView| #[trigger]
                cost_so_far@.dom().contains(v) && !expanded@.dom().contains(v) && v
                != cv implies exists|e: PriorityLocation|
                frontier@.count(e) > 0 && e.location@ == v && e.priority as int == fplus(
                    cost_so_far@[v],
                    hdist(gv, v),
                ) by {
                let e = choose|e: PriorityLocation|
                    f_pre.count(e) > 0 && e.location@ == v && e.priority as int == fplus(
                        cost_so_far@[v],
                        hdist(gv, v),
                    );
                assert(e != nd);
                assert(frontier@.count(e) > 0);
            }
        }
        if current.eq(&goal) {
            proof {
                assert(cv == gv);
                // the popped priority was minimal, so the goal's recorded
                // cost bounds every in-margin path to it from below
                if consistent(g, gv) {
                    assert forall|q2: Seq<LocationView>, cs2: Seq<u64>|
                        #[trigger] is_costed_path(g, q2, cs2, sv, gv) && sum_costs(cs2)
                            <= cost_cap() implies sum_costs(cs2) >= cost_so_far@[gv] by {
                        assert(f_pre.count(nd) > 0);
                        assert forall|nd2: PriorityLocation| #[trigger]
                            frontier@.count(nd2) > 0 implies nd.priority as int
                            <= nd2.priority as int by {
                            assert(nd.pkey() <= nd2.pkey());
                        }
                        lemma_expand_lower(
                            g,
                            cost_so_far@,
                            expanded@.dom(),
                            frontier@,
                            nd,
                            sv,
                            gv,
                            q2,
                            cs2,
                        );
                    }
                }
            }
            // the goal has a predecessor chain back to the start
            let path = reconstruct_path(&came_from, &start, current);
            proof {
                lemma_return_ok(g, cost_so_far@, came_from@, path@, sv, gv);
                assert(is_path(g, loc_views(path@), sv, gv));
                assert(reachable(g, sv, gv));
                assert(optimal_route(graph@, path@, start@, goal@)) by {
                    let cs = choose|cs: Seq<u64>|
                        is_costed_path(g, loc_views(path@), cs, sv, gv) && (consistent(g, gv)
                            ==> least_cost(g, sv, gv, sum_costs(cs)));
                    assert(is_costed_path(graph@, loc_views(path@), cs, start@, goal@));
                    assert(consistent(graph@, goal@) ==> least_cost(
                        graph@,
                        start@,
                        goal@,
                        sum_costs(cs),
                    ));
                }
            }
            return Ok(path);
        }
        if !expanded.contains(&current) {
            let neighbors = graph.get_neighbors(current.clone());
            let ghost nlen = neighbors@.len() as int;
            proof {
                assert(crate::graph::edges_view(neighbors@) == g[cv]);
                assert(nlen == g[cv].len());
            }
            let current_cost = match cost_so_far.get(&current) {
                Ok(c) => *c,
                Err(_) => unreached(),
            };
            proof {
                // the popped priority was minimal, so the cost recorded for
                // this vertex bounds every in-margin path to it from below
                if consistent(g, gv) {
                    assert forall|q2: Seq<LocationView>, cs2: Seq<u64>|
                        #[trigger] is_costed_path(g, q2, cs2, sv, cv) && sum_costs(cs2)
                            <= cost_cap() implies sum_costs(cs2) >= current_cost by {
                        assert(f_pre.count(nd) > 0);
                        assert forall|nd2: PriorityLocation| #[trigger]
                            frontier@.count(nd2) > 0 implies nd.priority as int <= nd2.priority as int by {
                            assert(nd.pkey() <= nd2.pkey());
                        }
                        lemma_expand_lower(
                            g,
                            cost_so_far@,
                            expanded@.dom(),
                            frontier@,
                            nd,
                            sv,
                            gv,
                            q2,
                            cs2,
                        );
                    }
                }
            }
            let mut i: usize = 0;
            while i < neighbors.len()
                invariant
                    cost_so_far.wf(),
                    came_from.wf(),
                    frontier.wf(),
                    cost_so_far.capacity() == vc as int,
                    came_from.capacity() == vc as int,
                    cost_so_far@.dom().finite(),
                    came_from@.dom().finite(),
                    search_inv(g, cost_so_far@, came_from@, expanded@.dom(), sv, gv),
                    frontier_covers(
                        cost_so_far@,
                        expanded@.dom(),
                        frontier@,
                        Set::empty().insert(cv),
                    ),
                    frontier_costed(cost_so_far@, frontier@),
                    frontier_lb(cost_so_far@, frontier@, gv),
                    frontier_exact(
                        cost_so_far@,
                        expanded@.dom(),
                        frontier@,
                        gv,
                        Set::empty().insert(cv),
                    ),
                    costs_achievable(g, cost_so_far@, sv),
                    parents_expanded(came_from@, expanded@.dom(), Set::empty().insert(cv)),
                    consistent(g, gv) ==> expanded_lower(g, cost_so_far@, expanded@.dom(), sv),
                    consistent(g, gv) ==> expanded_relaxed(g, cost_so_far@, expanded@.dom()),
                    consistent(g, gv) ==> links_exact(g, cost_so_far@, came_from@),
                    consistent(g, gv) ==> forall|q2: Seq<LocationView>, cs2: Seq<u64>|
                        #[trigger] is_costed_path(g, q2, cs2, sv, cv) && sum_costs(cs2)
                            <= cost_cap() ==> sum_costs(cs2) >= current_cost,
                    forall|j: int|
                        0 <= j < i ==> cost_so_far@[(#[trigger] g[cv][j]).0] as int <= current_cost
                            + g[cv][j].1,
                    crate::graph::edges_view(neighbors@) == g[cv],
                    nlen == neighbors@.len(),
                    nlen == g[cv].len(),
                    0 <= i <= nlen,
                    cv == current@,
                    gv == goal@,
                    cost_so_far@.dom().contains(cv),
                    current_cost == cost_so_far@[cv],
                    forall|j: int|
                        0 <= j < i ==> cost_so_far@.dom().contains((#[trigger] g[cv][j]).0),
                decreases nlen - i,
            {
                let edge_target = &neighbors[i].0;
                let edge_cost = neighbors[i].1;
                let ghost nv = edge_target@;
                proof {
                    assert(g[cv][i as int] == (nv, edge_cost));
                    assert(has_edge(g, cv, nv));
                    assert(g.dom().contains(nv));
                }
                let new_cost = current_cost.saturating_add(edge_cost);
                let improved = match cost_so_far.get(edge_target) {
                    Ok(c) => new_cost < *c,
                    Err(_) => true,
                };
                if improved {
                    let ghost c0 = cost_so_far@;
                    let ghost p0 = came_from@;
                    let ghost f0 = frontier@;
                    proof {
                        // the tables have room for every graph vertex
                        if !c0.dom().contains(nv) {
                            lemma_proper_subset_len(c0.dom(), g.dom(), nv);
                        }
                        assert(nv != sv);
                        if !p0.dom().contains(nv) {
                            lemma_proper_subset_len(p0.dom(), g.dom(), sv);
                        }
                    }
                    match cost_so_far.insert(edge_target.dup(), new_cost) {
                        Ok(()) => {},
                        Err(_) => {
                            proof {
                                assert(false);
                            }
                            unreached()
                        },
                    }
                    match came_from.insert(edge_target.dup(), current.clone()) {
                        Ok(()) => {},
                        Err(_) => {
                            proof {
                                assert(false);
                            }
                            unreached()
                        },
                    }
                    let hn = heuristic(&goal, edge_target);
                    let next_node = PriorityLocation {
                        location: edge_target.dup(),
                        priority: new_cost.saturating_add(hn),
                    };
                    let ghost nn = next_node;
                    frontier.push(next_node);
                    proof {
                        assert(frontier@.count(nn) > 0);
                        assert(nn.location@ == nv);
                        let ghost f1 = frontier@;
                        let c1 = cost_so_far@;
                        let p1 = came_from@;
                        assert(c1 == c0.insert(nv, new_cost));
                        assert(current_cost <= new_cost);
                        lemma_hdist_props(gv, nv);
                        assert(hn == hdist(gv, nv));
                        assert(nn.priority as int == fplus(new_cost, hdist(gv, nv)));
                        // the new entry is queued at exactly the improved
                        // cost plus heuristic; older entries only gained
                        // slack, since costs never increase
                        assert forall|nd2: PriorityLocation| #[trigger]
                            f1.count(nd2) > 0 implies c1.dom().contains(nd2.location@)
                            && nd2.priority as int >= fplus(
                            c1[nd2.location@],
                            hdist(gv, nd2.location@),
                        ) by {
                            if nd2 == nn {
                            } else {
                                assert(f0.count(nd2) > 0);
                                if nd2.location@ == nv {
                                    assert(c0.dom().contains(nv));
                                    assert(c1[nv] <= c0[nv]);
                                } else {
                                    assert(c1[nd2.location@] == c0[nd2.location@]);
                                }
                            }
                        }
                        assert(frontier_lb(c1, f1, gv));
                        assert forall|v: LocationView| #[trigger]
                            c1.dom().contains(v) && !expanded@.dom().contains(v) && !Set::<
                            LocationView,
                        >::empty().insert(cv).contains(v) implies exists|e: PriorityLocation|
                            f1.count(e) > 0 && e.location@ == v && e.priority as int == fplus(
                                c1[v],
                                hdist(gv, v),
                            ) by {
                            if v == nv {
                                assert(f1.count(nn) > 0 && nn.location@ == nv);
                            } else {
                                assert(c0.dom().contains(v));
                                let e = choose|e: PriorityLocation|
                                    f0.count(e) > 0 && e.location@ == v && e.priority as int
                                        == fplus(c0[v], hdist(gv, v));
                                assert(f1.count(e) > 0);
                                assert(c1[v] == c0[v]);
                            }
                        }
                        assert(frontier_exact(
                            c1,
                            expanded@.dom(),
                            f1,
                            gv,
                            Set::empty().insert(cv),
                        ));
                        // the improved cost is achieved by extending a real
                        // path to the expanded vertex by this edge
                        assert forall|v: LocationView| #[trigger]
                            c1.dom().contains(v) && c1[v] < u64::MAX implies exists|
                            q2: Seq<LocationView>,
                            cs2: Seq<u64>,
                        | is_costed_path(g, q2, cs2, sv, v) && sum_costs(cs2) <= c1[v] by {
                            if v == nv {
                                assert(new_cost < u64::MAX);
                                assert(current_cost < u64::MAX);
                                assert(new_cost == current_cost + edge_cost);
                                assert(c0[cv] == current_cost && c0[cv] < u64::MAX);
                                let (qa, csa) = choose|qa: Seq<LocationView>, csa: Seq<u64>|
                                    is_costed_path(g, qa, csa, sv, cv) && sum_costs(csa) <= c0[cv];
                                assert(edge_with(g, cv, nv, edge_cost)) by {
                                    assert(g[cv][i as int] == (nv, edge_cost));
                                }
                                lemma_path_push(g, qa, csa, sv, cv, nv, edge_cost);
                                assert(sum_costs(csa.push(edge_cost)) <= c1[nv]);
                            } else {
                                assert(c0.dom().contains(v) && c0[v] == c1[v]);
                            }
                        }
                        assert(costs_achievable(g, c1, sv));
                        assert(p1[nv]@ == cv);
                        if consistent(g, gv) {
                            assert(edge_with(g, cv, nv, edge_cost)) by {
                                assert(g[cv][i as int] == (nv, edge_cost));
                            }
                            assert(p1 == p0.insert(nv, p1[nv]));
                            lemma_relax_conditional(
                                g,
                                c0,
                                c1,
                                p0,
                                p1,
                                expanded@.dom(),
                                sv,
                                gv,
                                cv,
                                nv,
                                current_cost,
                                edge_cost,
                                new_cost,
                                p1[nv],
                            );
                        }
                        // a chain for the re-parented vertex, through the
                        // expanded one
                        let n_cur = choose|n: nat| chain_reaches(p0, sv, cv, n);
                        if !c0.dom().contains(nv) {
                            assert forall|w: LocationView| p0.dom().contains(w) implies (
                            #[trigger] p0[w])@ != nv by {
                                assert(c0.dom().contains(p0[w]@));
                            }
                            lemma_chain_insert_fresh(p0, sv, cv, n_cur, nv, current);
                        } else {
                            lemma_chain_insert_above(p0, c0, sv, cv, n_cur, nv, current);
                        }
                        assert(p1[nv]@ == cv);
                        assert(chain_reaches(p1, sv, nv, n_cur + 1));
                        // all previously costed vertices keep a chain
                        assert forall|v: LocationView| #[trigger] c1.dom().contains(v) implies exists|
                            n: nat,
                        | chain_reaches(p1, sv, v, n) by {
                            if v == nv {
                                assert(chain_reaches(p1, sv, nv, n_cur + 1));
                            } else {
                                assert(c0.dom().contains(v));
                                let n_v = choose|n: nat| chain_reaches(p0, sv, v, n);
                                lemma_chain_insert_route(p0, sv, v, n_v, nv, current, n_cur + 1);
                            }
                        }
                        // predecessor costs stay non-increasing
                        assert forall|v: LocationView| #[trigger] p1.dom().contains(v) implies c1
                            .dom().contains(p1[v]@) && c1[(p1[v])@] <= c1[v] && has_edge(
                            g,
                            p1[v]@,
                            v,
                        ) by {
                            if v == nv {
                                assert(p1[v]@ == cv);
                                assert(cv != nv);
                                assert(c1[cv] == c0[cv]);
                            } else {
                                assert(p0.dom().contains(v));
                                assert(p1[v] == p0[v]);
                                if p0[v]@ == nv {
                                    assert(c1[nv] == new_cost);
                                    assert(c0.dom().contains(nv));
                                    assert(new_cost < c0[nv]);
                                } else {
                                }
                            }
                        }
                        // the pushed entry covers the re-parented vertex
                        assert forall|v: LocationView| #[trigger] c1.dom().contains(v)
                            implies Set::empty().insert(cv).contains(v) || expanded@.dom().contains(
                            v,
                        ) || exists|nd2: PriorityLocation|
                            frontier@.count(nd2) > 0 && nd2.location@ == v by {
                            if v == nv {
                                assert(frontier@.count(nn) > 0 && nn.location@ == v);
                            } else {
                                assert(c0.dom().contains(v));
                            }
                        }
                    }
                }
                proof {
                    assert(cost_so_far@.dom().contains(g[cv][i as int].0));
                    assert(cost_so_far@[(g[cv][i as int]).0] as int <= current_cost + g[cv][
                    i as int].1);
                }
                i = i + 1;
            }
            // every edge target of the vertex is now costed, so it joins the
            // expanded set
            proof {
                lemma_proper_subset_len(expanded@.dom(), g.dom(), cv);
            }
            let ghost x0 = expanded@.dom();
            match expanded.insert(current, true) {
                Ok(()) => {},
                Err(_) => {
                    proof {
                        assert(false);
                    }
                    unreached()
                },
            }
            proof {
                assert(expanded@.dom() =~= x0.insert(cv));
                assert(expanded@.dom().len() == x0.len() + 1);
                assert forall|v: LocationView| #[trigger] expanded@.dom().contains(v)
                    implies g.dom().contains(v) by {}
                vstd::set_lib::lemma_len_subset(expanded@.dom(), g.dom());
                if consistent(g, gv) {
                    let x1 = expanded@.dom();
                    assert forall|u: LocationView, q2: Seq<LocationView>, cs2: Seq<u64>|
                        x1.contains(u) && #[trigger] is_costed_path(g, q2, cs2, sv, u)
                            && sum_costs(cs2) <= cost_cap() implies sum_costs(cs2)
                        >= cost_so_far@[u] by {
                        if u == cv {
                            assert(sum_costs(cs2) >= current_cost);
                            assert(cost_so_far@[cv] == current_cost);
                        } else {
                            assert(x0.contains(u));
                        }
                    }
                    assert(expanded_lower(g, cost_so_far@, x1, sv));
                    assert forall|u: LocationView, i2: int|
                        x1.contains(u) && 0 <= i2 < g[u].len() && cost_so_far@[u] <= cost_cap()
                        implies cost_so_far@[(#[trigger] g[u][i2]).0] <= cost_so_far@[u] + g[u][
                    i2].1 by {
                        if u == cv {
                            assert(cost_so_far@[cv] == current_cost);
                        } else {
                            assert(x0.contains(u));
                        }
                    }
                    assert(expanded_relaxed(g, cost_so_far@, x1));
                }
            }
        }
    }
    // the frontier is exhausted: the costed set is closed under edges and
    // omits the goal, so no path reaches the goal
    proof {
        let d = cost_so_far@.dom();
        assert forall|v: LocationView| #[trigger] d.contains(v) implies expanded@.dom().contains(
            v,
        ) by {
            if !expanded@.dom().contains(v) {
                let nd = choose|nd: PriorityLocation|
                    frontier@.count(nd) > 0 && nd.location@ == v;
                assert(frontier@.count(nd) <= frontier@.len());
            }
        }
        assert(edge_closed(g, d));
        if reachable(g, sv, gv) {
            let pth = choose|p: Seq<LocationView>| is_path(g, p, sv, gv);
            lemma_closed_no_escape(g, d, pth, sv, gv);
            assert(expanded@.dom().contains(gv));
            assert(false);
        }
    }
    Err(AStarError::NoPathFound)
}

/// Rebuilds the start-to-goal path by walking the predecessor map backwards
/// from the goal until the start is met, then reversing the walk.
fn reconstruct_path(
    came_from: &HashTable<Location, Location>,
    start: &Location,
    goal: Location,
) -> (r: Vec<Location>)
    requires
        came_from.wf(),
        exists|n: nat| chain_reaches(came_from@, start@, goal@, n),
    ensures
        r@.len() >= 1,
        r@[0]@ == start@,
        r@.last()@ == goal@,
        start@ == goal@ ==> r@ == seq![goal],
        forall|i: int|
            0 <= i < r@.len() - 1 ==> came_from@.dom().contains((#[trigger] r@[i + 1])@)
                && came_from@[r@[i + 1]@]@ == r@[i]@,
{
    let ghost pmap = came_from@;
    let ghost sv = start@;
    let ghost goal_at_entry = goal;
    let mut rev: Vec<Location> = Vec::new();
    let mut cur = goal;
    rev.push(cur.clone());
    let ghost mut fuel: nat = choose|n: nat| chain_reaches(pmap, sv, cur@, n);
    while !cur.eq(start)
        invariant
            came_from.wf(),
            pmap == came_from@,
            sv == start@,
            rev@.len() >= 1,
            rev@.last() == cur,
            rev@[0] == goal_at_entry,
            sv == goal_at_entry@ ==> rev@.len() == 1,
            chain_reaches(pmap, sv, cur@, fuel),
            forall|i: int|
                0 <= i < rev@.len() - 1 ==> pmap.dom().contains((#[trigger] rev@[i])@)
                    && pmap[rev@[i]@]@ == rev@[i + 1]@,
        decreases fuel,
    {
        // the chain is not yet at the start, so a predecessor exists
        proof {
            assert(cur@ != sv);
            assert(pmap.dom().contains(cur@));
        }
        let prev = match came_from.get(&cur) {
            Ok(p) => p.clone(),
            Err(_) => unreached(),
        };
        proof {
            assert(prev@ == pmap[cur@]@);
            fuel = (fuel - 1) as nat;
        }
        cur = prev;
        rev.push(cur.clone());
    }
    proof {
        assert(cur@ == sv);
    }
    let n = rev.len();
    let mut out: Vec<Location> = Vec::new();
    let mut i: usize = n;
    while i > 0
        invariant
            n == rev@.len(),
            0 <= i <= n,
            out@.len() == n - i,
            forall|j: int| 0 <= j < out@.len() ==> (#[trigger] out@[j]) == rev@[n - 1 - j],
        decreases i,
    {
        i = i - 1;
        out.push(rev[i].clone());
    }
    proof {
        assert(out@[0] == rev@[n - 1]);
        assert(out@.last() == rev@[0]);
        if sv == goal_at_entry@ {
            assert(out@ =~= seq![goal_at_entry]);
        }
        assert forall|i2: int| 0 <= i2 < out@.len() - 1 implies came_from@.dom().contains(
            (#[trigger] out@[i2 + 1])@,
        ) && came_from@[out@[i2 + 1]@]@ == out@[i2]@ by {
            assert(out@[i2 + 1] == rev@[n - 2 - i2]);
            assert(out@[i2] == rev@[n - 1 - i2]);
        }
    }
    out
}

} // verus!

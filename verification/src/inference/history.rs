//! The history of observations and the value inferred from it.

use vstd::prelude::*;
use petgraph::graph::Graph;
use petgraph::Directed;
use crate::observations::{
    DefinitionPredicate, Observation, ObservationView, clash, precedes, unordered, views,
};
use crate::value::{Value, wrap};
use crate::inference::definition::{
    advance, all_mutations, composite, definition, delta_sum, has_conflicting_assignments,
    has_transition,
};
use crate::inference::laws::{transitive, lemma_execution_ordered, lemma_execution_partition};
use crate::inference::graph::{
    add_edge, add_node, complement_of, edge_list, empty_graph, has_cycle, is_listed, is_listing,
    is_partition, is_placed, is_walk, node_count, reaches, strong_components, topological_order,
};
use crate::inference::levels::{
    fold_plan, inferred, is_chain, is_execution, is_planned, level_at, level_start, linked,
    orderable, plan_start, starts_at, well_formed, lemma_empty_history, lemma_execution_infers,
    lemma_level_at_members, lemma_level_start_unique, lemma_linked_members, lemma_linked_symmetric,
    lemma_same_start_linked, lemma_unordered_linked,
};

verus! {

/// Every observation received so far, in the order of arrival. Nothing is
/// dropped or merged: levels are derived from the whole list on demand.
pub struct NewHistory {
    observations: Vec<Observation>,
}

impl View for NewHistory {
    type V = Seq<ObservationView>;

    closed spec fn view(&self) -> Seq<ObservationView> {
        views(self.observations@)
    }
}

/// A pushed element is found, and nothing else is found that was not before.
proof fn lemma_push_contains<A>(s: Seq<A>, x: A, y: A)
    ensures
        s.push(x).contains(y) <==> (s.contains(y) || x == y),
{
    if s.contains(y) {
        let i = choose|i: int| 0 <= i < s.len() && s[i] == y;
        assert(s.push(x)[i] == y);
    }
    if x == y {
        assert(s.push(x)[s.len() as int] == y);
    }
    if s.push(x).contains(y) {
        let i = choose|i: int| 0 <= i < s.push(x).len() && s.push(x)[i] == y;
        if i < s.len() {
            assert(s[i] == y);
        }
    }
}

/// The pair `(a, b)` comes before the pair `(i, j)` when pairs with a smaller
/// first number are visited row by row.
spec fn pair_done(a: int, b: int, i: int, j: int) -> bool {
    let lo = if a <= b { a } else { b };
    let hi = if a <= b { b } else { a };
    lo < i || (lo == i && hi < j)
}

/// Whether a list of observations meets what is asked of producers: every
/// interval is well formed, and no two polls of one poller overlap and start
/// together.
pub fn is_orderable(list: &Vec<Observation>) -> (r: bool)
    ensures
        r == orderable(views(list@)),
{
    let ghost s = views(list@);
    let n = list.len();
    let mut i: usize = 0;
    while i < n
        invariant
            0 <= i <= n,
            n == list.len(),
            s == views(list@),
            forall|a: int| 0 <= a < i ==> (#[trigger] s[a]).wf(),
            forall|a: int, b: int| 0 <= a < i && a < b < n ==> !clash(#[trigger] s[a], #[trigger] s[b]),
        decreases n - i,
    {
        assert(s[i as int] == list@[i as int]@);
        if list[i].interval.0.0 > list[i].interval.1.0 {
            assert(!s[i as int].wf());
            return false;
        }
        let mut j: usize = i + 1;
        while j < n
            invariant
                i < j <= n,
                n == list.len(),
                s == views(list@),
                forall|b: int| i < b < j ==> !clash(s[i as int], #[trigger] s[b]),
            decreases n - j,
        {
            assert(s[j as int] == list@[j as int]@);
            if list[i].clashes(&list[j]) {
                assert(clash(s[i as int], s[j as int]));
                return false;
            }
            j += 1;
        }
        i += 1;
    }
    assert forall|a: int, b: int| 0 <= a < s.len() && 0 <= b < s.len() && a != b implies !clash(
        #[trigger] s[a],
        #[trigger] s[b],
    ) by {
        if a < b {
        } else {
            assert(!clash(s[b], s[a]));
        }
    }
    true
}

/// The graph with one node for each observation and an edge, both ways,
/// between any two observations of which one happened before the other.
fn ordered_pairs(list: &Vec<Observation>) -> (g: Graph<(), (), Directed, usize>)
    requires
        orderable(views(list@)),
    ensures
        node_count(g) == list.len(),
        forall|a: int, b: int| #[trigger]
            edge_list(g).contains((a, b)) <==> (0 <= a < list.len() && 0 <= b < list.len() && a
                != b && !unordered(views(list@)[a], views(list@)[b])),
{
    let ghost s = views(list@);
    let n = list.len();
    let mut g = empty_graph();
    let mut i: usize = 0;
    while i < n
        invariant
            0 <= i <= n,
            node_count(g) == i,
            edge_list(g) == Seq::<(int, int)>::empty(),
        decreases n - i,
    {
        add_node(&mut g);
        i += 1;
    }
    i = 0;
    while i < n
        invariant
            0 <= i <= n,
            n == list.len(),
            s == views(list@),
            orderable(s),
            node_count(g) == n,
            forall|a: int, b: int| #[trigger]
                edge_list(g).contains((a, b)) <==> (0 <= a < n && 0 <= b < n && a != b
                    && !unordered(s[a], s[b]) && pair_done(a, b, i as int, 0)),
        decreases n - i,
    {
        let mut j: usize = i + 1;
        assert forall|a: int, b: int| 0 <= a < n && 0 <= b < n && a != b implies (pair_done(
            a,
            b,
            i as int,
            0,
        ) <==> pair_done(a, b, i as int, i + 1)) by {}
        while j < n
            invariant
                i < j <= n,
                n == list.len(),
                s == views(list@),
                orderable(s),
                node_count(g) == n,
                forall|a: int, b: int| #[trigger]
                    edge_list(g).contains((a, b)) <==> (0 <= a < n && 0 <= b < n && a != b
                        && !unordered(s[a], s[b]) && pair_done(a, b, i as int, j as int)),
            decreases n - j,
        {
            assert(s[i as int] == list@[i as int]@);
            assert(s[j as int] == list@[j as int]@);
            assert(!clash(s[i as int], s[j as int]));
            assert(!clash(s[j as int], s[i as int]));
            if list[i].happened_before(&list[j]) || list[j].happened_before(&list[i]) {
                let ghost e0 = edge_list(g);
                add_edge(&mut g, i, j);
                let ghost e1 = edge_list(g);
                add_edge(&mut g, j, i);
                proof {
                    assert forall|a: int, b: int| #[trigger]
                        edge_list(g).contains((a, b)) <==> (0 <= a < n && 0 <= b < n && a != b
                            && !unordered(s[a], s[b]) && pair_done(a, b, i as int, j + 1)) by {
                        lemma_push_contains(e0, (i as int, j as int), (a, b));
                        lemma_push_contains(e1, (j as int, i as int), (a, b));
                    }
                }
            } else {
                assert(unordered(s[i as int], s[j as int]));
                assert(unordered(s[j as int], s[i as int]));
            }
            j += 1;
        }
        i += 1;
        assert forall|a: int, b: int| 0 <= a < n && 0 <= b < n && a != b implies (pair_done(
            a,
            b,
            i - 1,
            n as int,
        ) <==> pair_done(a, b, i as int, 0)) by {}
    }
    g
}

/// The part `c` holds the node `v`.
spec fn in_part(parts: Seq<Vec<usize>>, c: int, v: int) -> bool {
    exists|k: int| 0 <= k < parts[c]@.len() && (#[trigger] parts[c]@[k]) == v
}

/// `part_of` tells for each node below `n` the part that holds it.
spec fn locates(part_of: Seq<usize>, parts: Seq<Vec<usize>>, n: nat) -> bool {
    &&& part_of.len() == n
    &&& forall|v: int|
        0 <= v < n ==> (#[trigger] part_of[v]) < parts.len() && in_part(parts, part_of[v] as int, v)
}

/// The place `(c1, k1)` comes before the place `(c, k)` when the parts are read
/// one after the other.
spec fn place_done(c1: int, k1: int, c: int, k: int) -> bool {
    c1 < c || (c1 == c && k1 < k)
}

/// For each node, the number of the part that holds it.
fn component_index(parts: &Vec<Vec<usize>>, n: usize) -> (part_of: Vec<usize>)
    requires
        is_partition(parts@, n as nat),
    ensures
        locates(part_of@, parts@, n as nat),
{
    let mut part_of: Vec<usize> = Vec::new();
    let mut i: usize = 0;
    while i < n
        invariant
            0 <= i <= n,
            part_of.len() == i,
        decreases n - i,
    {
        part_of.push(0);
        i += 1;
    }
    let mut c: usize = 0;
    while c < parts.len()
        invariant
            0 <= c <= parts.len(),
            part_of.len() == n,
            is_partition(parts@, n as nat),
            forall|c1: int, k1: int|
                0 <= c1 < parts@.len() && 0 <= k1 < parts@[c1]@.len() && place_done(
                    c1,
                    k1,
                    c as int,
                    0,
                ) ==> part_of@[(#[trigger] parts@[c1]@[k1]) as int] == c1,
        decreases parts.len() - c,
    {
        let mut k: usize = 0;
        while k < parts[c].len()
            invariant
                0 <= c < parts.len(),
                0 <= k <= parts@[c as int]@.len(),
                part_of.len() == n,
                is_partition(parts@, n as nat),
                forall|c1: int, k1: int|
                    0 <= c1 < parts@.len() && 0 <= k1 < parts@[c1]@.len() && place_done(
                        c1,
                        k1,
                        c as int,
                        k as int,
                    ) ==> part_of@[(#[trigger] parts@[c1]@[k1]) as int] == c1,
            decreases parts@[c as int]@.len() - k,
        {
            let v = parts[c][k];
            assert(v == parts@[c as int]@[k as int]);
            assert(v < n);
            part_of.set(v, c);
            k += 1;
        }
        c += 1;
    }
    proof {
        assert forall|v: int| 0 <= v < n implies (#[trigger] part_of@[v]) < parts@.len()
            && in_part(parts@, part_of@[v] as int, v) by {
            assert(is_placed(parts@, v));
            let (c1, k1) = choose|c1: int, k1: int|
                0 <= c1 < parts@.len() && 0 <= k1 < parts@[c1]@.len() && (
                #[trigger] parts@[c1]@[k1]) == v;
            assert(part_of@[parts@[c1]@[k1] as int] == c1);
        }
    }
    part_of
}

/// The edges join exactly the unordered pairs of different observations.
spec fn joins_unordered(edges: Seq<(int, int)>, s: Seq<ObservationView>) -> bool {
    forall|a: int, b: int| #[trigger]
        edges.contains((a, b)) <==> (0 <= a < s.len() && 0 <= b < s.len() && a != b && unordered(
            s[a],
            s[b],
        ))
}

/// A walk that is followed by one more edge is a walk.
proof fn lemma_reach_extend(edges: Seq<(int, int)>, a: int, b: int, c: int)
    requires
        reaches(edges, a, b),
        edges.contains((b, c)),
    ensures
        reaches(edges, a, c),
{
    let p = choose|p: Seq<int>| #[trigger] is_walk(edges, p) && p.first() == a && p.last() == b;
    let q = p.push(c);
    assert forall|k: int| 0 <= k < q.len() - 1 implies edges.contains((#[trigger] q[k], q[k + 1])) by {
        if k < p.len() - 1 {
            assert(edges.contains((p[k], p[k + 1])));
        }
    }
    assert(is_walk(edges, q));
}

/// Along a walk over unordered pairs, the observations form a chain.
proof fn lemma_walk_is_chain(s: Seq<ObservationView>, edges: Seq<(int, int)>, p: Seq<int>)
    requires
        joins_unordered(edges, s),
        is_walk(edges, p),
        0 <= p.first() < s.len(),
    ensures
        0 <= p.last() < s.len(),
        linked(s, s[p.first()], s[p.last()]),
{
    assert forall|k: int| 0 <= k < p.len() implies 0 <= #[trigger] p[k] < s.len() by {
        if k > 0 {
            assert(edges.contains((p[k - 1], p[k - 1 + 1])));
        }
    }
    let q = Seq::new(p.len(), |k: int| s[p[k]]);
    assert forall|k: int| 0 <= k < q.len() implies s.contains(#[trigger] q[k]) by {
        assert(s[p[k]] == q[k]);
    }
    assert forall|k: int| 0 <= k < q.len() - 1 implies unordered(#[trigger] q[k], q[k + 1]) by {
        assert(edges.contains((p[k], p[k + 1])));
    }
    assert(is_chain(s, q));
    assert(q.first() == s[p.first()] && q.last() == s[p.last()]);
}

/// Along a chain that begins at the observation `i`, every place of every
/// observation of the chain is reached from `i`.
proof fn lemma_chain_is_walk(
    s: Seq<ObservationView>,
    edges: Seq<(int, int)>,
    p: Seq<ObservationView>,
    i: int,
    k: int,
    m: int,
)
    requires
        well_formed(s),
        joins_unordered(edges, s),
        is_chain(s, p),
        0 <= i < s.len(),
        p[0] == s[i],
        0 <= k < p.len(),
        0 <= m < s.len(),
        s[m] == p[k],
    ensures
        reaches(edges, i, m),
    decreases k,
{
    if k == 0 {
        let w = seq![i];
        assert(is_walk(edges, w));
        if m != i {
            assert(s[i].wf());
            assert(unordered(s[i], s[m]));
            assert(edges.contains((i, m)));
            lemma_reach_extend(edges, i, i, m);
        }
    } else {
        assert(s.contains(p[k - 1]));
        let m0 = choose|m0: int| 0 <= m0 < s.len() && s[m0] == p[k - 1];
        lemma_chain_is_walk(s, edges, p, i, k - 1, m0);
        assert(unordered(p[k - 1], p[k - 1 + 1]));
        if m0 != m {
            assert(edges.contains((m0, m)));
            lemma_reach_extend(edges, i, m0, m);
        }
    }
}

/// Linked observations are reached from each other over unordered pairs.
proof fn lemma_linked_reaches(s: Seq<ObservationView>, edges: Seq<(int, int)>, i: int, j: int)
    requires
        well_formed(s),
        joins_unordered(edges, s),
        0 <= i < s.len(),
        0 <= j < s.len(),
        linked(s, s[i], s[j]),
    ensures
        reaches(edges, i, j),
{
    let p = choose|p: Seq<ObservationView>| #[trigger]
        is_chain(s, p) && p.first() == s[i] && p.last() == s[j];
    lemma_chain_is_walk(s, edges, p, i, p.len() - 1, j);
}

/// `part_of` sorts the observations of `s` into its levels: two observations
/// have the same number exactly when they are linked.
spec fn sorts_into_levels(part_of: Seq<usize>, s: Seq<ObservationView>) -> bool {
    &&& part_of.len() == s.len()
    &&& forall|i: int, j: int|
        0 <= i < s.len() && 0 <= j < s.len() ==> ((#[trigger] part_of[i]) == (
        #[trigger] part_of[j]) <==> linked(s, s[i], s[j]))
}

/// The strongly connected components of the graph of unordered pairs are the
/// levels.
proof fn lemma_components_are_levels(
    s: Seq<ObservationView>,
    edges: Seq<(int, int)>,
    parts: Seq<Vec<usize>>,
    part_of: Seq<usize>,
)
    requires
        well_formed(s),
        joins_unordered(edges, s),
        is_partition(parts, s.len()),
        locates(part_of, parts, s.len()),
        forall|c1: int, k1: int, c2: int, k2: int|
            0 <= c1 < parts.len() && 0 <= k1 < parts[c1]@.len() && 0 <= c2 < parts.len() && 0
                <= k2 < parts[c2]@.len() ==> (c1 == c2 <==> reaches(
                edges,
                (#[trigger] parts[c1]@[k1]) as int,
                (#[trigger] parts[c2]@[k2]) as int,
            ) && reaches(edges, parts[c2]@[k2] as int, parts[c1]@[k1] as int)),
    ensures
        sorts_into_levels(part_of, s),
{
    assert forall|i: int, j: int| 0 <= i < s.len() && 0 <= j < s.len() implies ((
    #[trigger] part_of[i]) == (#[trigger] part_of[j]) <==> linked(s, s[i], s[j])) by {
        let c1 = part_of[i] as int;
        let c2 = part_of[j] as int;
        assert(in_part(parts, c1, i));
        assert(in_part(parts, c2, j));
        let k1 = choose|k: int| 0 <= k < parts[c1]@.len() && (#[trigger] parts[c1]@[k]) == i;
        let k2 = choose|k: int| 0 <= k < parts[c2]@.len() && (#[trigger] parts[c2]@[k]) == j;
        assert(parts[c1]@[k1] == i && parts[c2]@[k2] == j);
        if c1 == c2 {
            assert(reaches(edges, i, j));
            let p = choose|p: Seq<int>| #[trigger]
                is_walk(edges, p) && p.first() == i && p.last() == j;
            lemma_walk_is_chain(s, edges, p);
        }
        if linked(s, s[i], s[j]) {
            lemma_linked_reaches(s, edges, i, j);
            lemma_linked_symmetric(s, s[i], s[j]);
            lemma_linked_reaches(s, edges, j, i);
        }
    }
}

/// Some observation has the number `c`.
spec fn is_used(part_of: Seq<usize>, c: int) -> bool {
    exists|v: int| 0 <= v < part_of.len() && (#[trigger] part_of[v]) == c
}

/// `rep` names for each level one of its members that starts earliest.
spec fn represents(rep: Seq<usize>, part_of: Seq<usize>, s: Seq<ObservationView>) -> bool {
    forall|c: int|
        0 <= c < rep.len() ==> {
            &&& (#[trigger] rep[c]) < s.len()
            &&& part_of[rep[c] as int] == c
            &&& forall|v: int|
                0 <= v < s.len() && (#[trigger] part_of[v]) == c ==> s[rep[c] as int].lo()
                    <= s[v].lo()
        }
}

/// For each of the `m` levels, a member that starts earliest.
fn level_representatives(list: &Vec<Observation>, part_of: &Vec<usize>, m: usize) -> (rep: Vec<
    usize,
>)
    requires
        part_of.len() == list.len(),
        forall|v: int| 0 <= v < part_of.len() ==> (#[trigger] part_of@[v]) < m,
        forall|c: int| 0 <= c < m ==> #[trigger] is_used(part_of@, c),
    ensures
        rep.len() == m,
        represents(rep@, part_of@, views(list@)),
{
    let ghost s = views(list@);
    let n = list.len();
    let mut rep: Vec<usize> = Vec::new();
    let mut c: usize = 0;
    while c < m
        invariant
            0 <= c <= m,
            rep.len() == c,
            forall|d: int| 0 <= d < c ==> (#[trigger] rep@[d]) == n,
        decreases m - c,
    {
        rep.push(n);
        c += 1;
    }
    let mut i: usize = 0;
    while i < n
        invariant
            0 <= i <= n,
            n == list.len(),
            s == views(list@),
            part_of.len() == n,
            rep.len() == m,
            forall|v: int| 0 <= v < part_of.len() ==> (#[trigger] part_of@[v]) < m,
            forall|d: int|
                0 <= d < m && (#[trigger] rep@[d]) == n ==> forall|v: int|
                    0 <= v < i ==> (#[trigger] part_of@[v]) != d,
            forall|d: int|
                0 <= d < m && (#[trigger] rep@[d]) != n ==> {
                    &&& rep@[d] < i
                    &&& part_of@[rep@[d] as int] == d
                    &&& forall|v: int|
                        0 <= v < i && (#[trigger] part_of@[v]) == d ==> s[rep@[d] as int].lo()
                            <= s[v].lo()
                },
        decreases n - i,
    {
        let d = part_of[i];
        assert(s[i as int] == list@[i as int]@);
        let current = rep[d];
        if current == n {
            rep.set(d, i);
        } else {
            assert(s[current as int] == list@[current as int]@);
            if list[i].interval.0.0 < list[current].interval.0.0 {
                rep.set(d, i);
            }
        }
        i += 1;
    }
    proof {
        assert forall|d: int| 0 <= d < rep@.len() implies {
            &&& (#[trigger] rep@[d]) < s.len()
            &&& part_of@[rep@[d] as int] == d
            &&& forall|v: int|
                0 <= v < s.len() && (#[trigger] part_of@[v]) == d ==> s[rep@[d] as int].lo()
                    <= s[v].lo()
        } by {
            assert(is_used(part_of@, d));
            let v = choose|v: int| 0 <= v < part_of.len() && (#[trigger] part_of@[v]) == d;
            assert(part_of@[v] == d);
        }
    }
    rep
}

/// Each level starts at the first tick of its representative.
proof fn lemma_representative_start(
    s: Seq<ObservationView>,
    part_of: Seq<usize>,
    rep: Seq<usize>,
    v: int,
)
    requires
        sorts_into_levels(part_of, s),
        represents(rep, part_of, s),
        0 <= v < s.len(),
        part_of[v] < rep.len(),
    ensures
        level_start(s, s[v]) == s[rep[part_of[v] as int] as int].lo(),
{
    let c = part_of[v] as int;
    let r = rep[c] as int;
    let k = s[r].lo();
    assert(part_of[r] == c);
    assert(linked(s, s[v], s[r]));
    assert forall|x: ObservationView| #[trigger] linked(s, s[v], x) implies k <= x.lo() by {
        lemma_linked_members(s, s[v], x);
        let w = choose|w: int| 0 <= w < s.len() && s[w] == x;
        assert(linked(s, s[v], s[w]));
        assert(part_of[w] == c);
    }
    assert(s.contains(s[v]));
    lemma_level_start_unique(s, s[v], k);
}

/// The edges lead from each level to the levels whose representative happened
/// after its own.
spec fn orders_levels(edges: Seq<(int, int)>, rep: Seq<usize>, s: Seq<ObservationView>) -> bool {
    forall|a: int, b: int| #[trigger]
        edges.contains((a, b)) <==> (0 <= a < rep.len() && 0 <= b < rep.len() && a != b
            && precedes(s[rep[a] as int], s[rep[b] as int]))
}

/// The graph with one node for each level and an edge from one level to
/// another where the representative of the first happened before that of the
/// second.
fn level_graph(list: &Vec<Observation>, rep: &Vec<usize>, Ghost(part_of): Ghost<Seq<usize>>) -> (g:
    Graph<(), (), Directed, usize>)
    requires
        orderable(views(list@)),
        represents(rep@, part_of, views(list@)),
    ensures
        node_count(g) == rep.len(),
        orders_levels(edge_list(g), rep@, views(list@)),
{
    let ghost s = views(list@);
    let m = rep.len();
    let mut g = empty_graph();
    let mut a: usize = 0;
    while a < m
        invariant
            0 <= a <= m,
            node_count(g) == a,
            edge_list(g) == Seq::<(int, int)>::empty(),
        decreases m - a,
    {
        add_node(&mut g);
        a += 1;
    }
    a = 0;
    while a < m
        invariant
            0 <= a <= m,
            m == rep.len(),
            s == views(list@),
            orderable(s),
            represents(rep@, part_of, s),
            node_count(g) == m,
            forall|x: int, y: int| #[trigger]
                edge_list(g).contains((x, y)) <==> (0 <= x < m && 0 <= y < m && x != y && precedes(
                    s[rep@[x] as int],
                    s[rep@[y] as int],
                ) && pair_done(x, y, a as int, 0)),
        decreases m - a,
    {
        let mut b: usize = a + 1;
        assert forall|x: int, y: int| 0 <= x < m && 0 <= y < m && x != y implies (pair_done(
            x,
            y,
            a as int,
            0,
        ) <==> pair_done(x, y, a as int, a + 1)) by {}
        while b < m
            invariant
                a < b <= m,
                m == rep.len(),
                s == views(list@),
                orderable(s),
                represents(rep@, part_of, s),
                node_count(g) == m,
                forall|x: int, y: int| #[trigger]
                    edge_list(g).contains((x, y)) <==> (0 <= x < m && 0 <= y < m && x != y
                        && precedes(s[rep@[x] as int], s[rep@[y] as int]) && pair_done(
                        x,
                        y,
                        a as int,
                        b as int,
                    )),
            decreases m - b,
        {
            let i = rep[a];
            let j = rep[b];
            assert(rep@[a as int] == i && rep@[b as int] == j);
            assert(i != j);
            assert(s[i as int] == list@[i as int]@);
            assert(s[j as int] == list@[j as int]@);
            assert(!clash(s[i as int], s[j as int]));
            assert(!clash(s[j as int], s[i as int]));
            let ghost e0 = edge_list(g);
            if list[i].happened_before(&list[j]) {
                add_edge(&mut g, a, b);
                proof {
                    crate::observations::lemma_follows_is_preceded(s[i as int], s[j as int]);
                    assert forall|x: int, y: int| #[trigger]
                        edge_list(g).contains((x, y)) <==> (0 <= x < m && 0 <= y < m && x != y
                            && precedes(s[rep@[x] as int], s[rep@[y] as int]) && pair_done(
                            x,
                            y,
                            a as int,
                            b + 1,
                        )) by {
                        lemma_push_contains(e0, (a as int, b as int), (x, y));
                    }
                }
            } else if list[j].happened_before(&list[i]) {
                add_edge(&mut g, b, a);
                proof {
                    assert forall|x: int, y: int| #[trigger]
                        edge_list(g).contains((x, y)) <==> (0 <= x < m && 0 <= y < m && x != y
                            && precedes(s[rep@[x] as int], s[rep@[y] as int]) && pair_done(
                            x,
                            y,
                            a as int,
                            b + 1,
                        )) by {
                        lemma_push_contains(e0, (b as int, a as int), (x, y));
                    }
                }
            }
            b += 1;
        }
        a += 1;
        assert forall|x: int, y: int| 0 <= x < m && 0 <= y < m && x != y implies (pair_done(
            x,
            y,
            a - 1,
            m as int,
        ) <==> pair_done(x, y, a as int, 0)) by {}
    }
    g
}

/// Along a walk whose every edge leads to a later start, the start grows.
proof fn lemma_walk_climbs(
    s: Seq<ObservationView>,
    edges: Seq<(int, int)>,
    rep: Seq<usize>,
    p: Seq<int>,
    k: int,
)
    requires
        well_formed(s),
        orders_levels(edges, rep, s),
        forall|c: int| 0 <= c < rep.len() ==> (#[trigger] rep[c]) < s.len(),
        is_walk(edges, p),
        1 <= k < p.len(),
    ensures
        0 <= p[0] < rep.len(),
        0 <= p[k] < rep.len(),
        s[rep[p[0]] as int].lo() < s[rep[p[k]] as int].lo(),
    decreases k,
{
    assert(edges.contains((p[k - 1], p[k - 1 + 1])));
    let a = rep[p[k - 1]] as int;
    let b = rep[p[k]] as int;
    assert(s[a].wf());
    crate::observations::lemma_precedes_starts_earlier(s[a], s[b]);
    if k > 1 {
        lemma_walk_climbs(s, edges, rep, p, k - 1);
    }
}

/// A graph that orders levels by their representatives has no cycle.
proof fn lemma_levels_acyclic(s: Seq<ObservationView>, edges: Seq<(int, int)>, rep: Seq<usize>)
    requires
        well_formed(s),
        orders_levels(edges, rep, s),
        forall|c: int| 0 <= c < rep.len() ==> (#[trigger] rep[c]) < s.len(),
    ensures
        !has_cycle(edges),
{
    if has_cycle(edges) {
        let p = choose|p: Seq<int>| #[trigger]
            is_walk(edges, p) && p.len() >= 2 && p.first() == p.last();
        lemma_walk_climbs(s, edges, rep, p, p.len() - 1);
    }
}

/// The contents of a list of levels.
pub open spec fn plan_views(plan: Seq<Vec<Observation>>) -> Seq<Seq<ObservationView>> {
    plan.map_values(|level: Vec<Observation>| views(level@))
}

/// The observations with the number `c`, in the order of the list.
fn collect_level(
    list: &Vec<Observation>,
    part_of: &Vec<usize>,
    c: usize,
    Ghost(t): Ghost<int>,
) -> (level: Vec<Observation>)
    requires
        part_of.len() == list.len(),
        forall|v: int|
            0 <= v < list.len() ==> ((#[trigger] part_of@[v]) == c <==> level_start(
                views(list@),
                views(list@)[v],
            ) == t),
    ensures
        views(level@) == level_at(views(list@), t),
{
    let ghost s = views(list@);
    let ghost pred = starts_at(s, t);
    let n = list.len();
    let mut level: Vec<Observation> = Vec::new();
    let mut i: usize = 0;
    proof {
        reveal(Seq::filter);
        assert(s.take(0).filter(pred) =~= Seq::<ObservationView>::empty());
        assert(views(level@) =~= Seq::<ObservationView>::empty());
    }
    while i < n
        invariant
            0 <= i <= n,
            n == list.len(),
            part_of.len() == n,
            s == views(list@),
            pred == starts_at(s, t),
            forall|v: int|
                0 <= v < n ==> ((#[trigger] part_of@[v]) == c <==> level_start(s, s[v]) == t),
            views(level@) == s.take(i as int).filter(pred),
        decreases n - i,
    {
        proof {
            assert(s.take(i + 1) =~= s.take(i as int).push(s[i as int]));
            s.take(i as int).lemma_filter_push(s[i as int], pred);
            assert(pred(s[i as int]) == (part_of@[i as int] == c));
        }
        if part_of[i] == c {
            let ghost before = level@;
            let o = list[i].clone();
            level.push(o);
            assert(views(level@) =~= views(before).push(s[i as int]));
        }
        i += 1;
    }
    assert(s.take(n as int) =~= s);
    level
}

/// The levels of a list of observations, each with its members in the order of
/// the list, and the levels in the order of their starts.
fn execution_of(list: &Vec<Observation>) -> (plan: Vec<Vec<Observation>>)
    requires
        orderable(views(list@)),
    ensures
        is_execution(views(list@), plan_views(plan@)),
{
    let ghost s = views(list@);
    let n = list.len();
    let pairs = ordered_pairs(list);
    let unordered_pairs = complement_of(&pairs);
    let parts = strong_components(&unordered_pairs);
    let part_of = component_index(&parts, n);
    let m = parts.len();
    proof {
        lemma_components_are_levels(s, edge_list(unordered_pairs), parts@, part_of@);
        assert forall|c: int| 0 <= c < m implies #[trigger] is_used(part_of@, c) by {
            let v = parts@[c]@[0];
            assert(in_part(parts@, part_of@[v as int] as int, v as int));
        }
    }
    let rep = level_representatives(list, &part_of, m);
    let levels = level_graph(list, &rep, Ghost(part_of@));
    proof {
        lemma_levels_acyclic(s, edge_list(levels), rep@);
    }
    let mut plan: Vec<Vec<Observation>> = Vec::new();
    let order = match topological_order(&levels) {
        Some(order) => order,
        None => {
            // Never taken: every edge leads to a level that starts later.
            return plan;
        },
    };
    let ghost starts = Seq::new(m as nat, |k: int| s[rep@[order@[k] as int] as int].lo());
    let mut k: usize = 0;
    while k < m
        invariant
            0 <= k <= m,
            m == rep.len(),
            m == order.len(),
            n == list.len(),
            part_of.len() == n,
            s == views(list@),
            well_formed(s),
            sorts_into_levels(part_of@, s),
            represents(rep@, part_of@, s),
            is_listing(order@, m as nat),
            forall|v: int| 0 <= v < n ==> (#[trigger] part_of@[v]) < m,
            starts == Seq::new(m as nat, |k: int| s[rep@[order@[k] as int] as int].lo()),
            plan.len() == k,
            forall|j: int|
                0 <= j < k ==> views((#[trigger] plan@[j])@) == level_at(s, starts[j]),
        decreases m - k,
    {
        let c = order[k];
        assert(c == order@[k as int] && c < m);
        proof {
            let r = rep@[c as int] as int;
            lemma_representative_start(s, part_of@, rep@, r);
            assert forall|v: int| 0 <= v < n implies ((#[trigger] part_of@[v]) == c
                <==> level_start(s, s[v]) == starts[k as int]) by {
                lemma_representative_start(s, part_of@, rep@, v);
                if level_start(s, s[v]) == starts[k as int] {
                    assert(s.contains(s[v]) && s.contains(s[r]));
                    lemma_same_start_linked(s, s[v], s[r]);
                }
            }
        }
        let level = collect_level(list, &part_of, c, Ghost(starts[k as int]));
        plan.push(level);
        k += 1;
    }
    proof {
        let pv = plan_views(plan@);
        assert forall|k: int| 0 <= k < pv.len() implies {
            &&& (#[trigger] pv[k]).len() > 0
            &&& s.contains(pv[k][0])
            &&& plan_start(s, pv, k) == starts[k]
            &&& pv[k] == level_at(s, plan_start(s, pv, k))
        } by {
            assert(pv[k] == views(plan@[k]@));
            let r = rep@[order@[k] as int] as int;
            lemma_representative_start(s, part_of@, rep@, r);
            lemma_level_at_members(s, starts[k]);
            assert(s.contains(s[r]));
            assert(level_at(s, starts[k]).contains(s[r]));
            assert(level_at(s, starts[k]).contains(pv[k][0]));
        }
        assert forall|j: int, k: int| 0 <= j < k < pv.len() implies #[trigger] plan_start(
            s,
            pv,
            j,
        ) < #[trigger] plan_start(s, pv, k) by {
            let a = order@[j] as int;
            let b = order@[k] as int;
            let ra = rep@[a] as int;
            let rb = rep@[b] as int;
            assert(a != b);
            assert(part_of@[ra] != part_of@[rb]);
            assert(s.contains(s[ra]) && s.contains(s[rb]));
            if unordered(s[ra], s[rb]) {
                lemma_unordered_linked(s, s[ra], s[rb]);
            }
            assert(s[ra].wf() && s[rb].wf());
            if precedes(s[rb], s[ra]) {
                assert(edge_list(levels).contains((b, a)));
            } else {
                crate::observations::lemma_precedes_starts_earlier(s[ra], s[rb]);
            }
        }
        assert forall|i: int| 0 <= i < s.len() implies is_planned(
            s,
            pv,
            level_start(s, #[trigger] s[i]),
        ) by {
            let c = part_of@[i] as int;
            assert(is_listed(order@, c));
            let k = choose|k: int| 0 <= k < order@.len() && (#[trigger] order@[k]) == c;
            lemma_representative_start(s, part_of@, rep@, i);
            assert(plan_start(s, pv, k) == starts[k]);
        }
    }
    plan
}

/// The value inferred from a list of observations, starting from `value`: the
/// levels are composed in the order of their starts. `None` is a conflict.
/// An empty list infers `value` itself.
pub fn infer(list: &Vec<Observation>, value: Option<Value>) -> (r: Option<Value>)
    requires
        orderable(views(list@)),
    ensures
        r == inferred(views(list@), value),
        list.len() == 0 ==> r == value,
{
    let ghost s = views(list@);
    let execution = execution_of(list);
    let ghost pv = plan_views(execution@);
    let mut cumulative = value;
    let mut k: usize = 0;
    assert(pv.take(0) =~= Seq::<Seq<ObservationView>>::empty());
    while k < execution.len()
        invariant
            0 <= k <= execution.len(),
            pv == plan_views(execution@),
            is_execution(s, pv),
            cumulative == fold_plan(pv.take(k as int), value),
        decreases execution.len() - k,
    {
        let level = &execution[k];
        assert(pv[k as int] == views(level@));
        assert(pv[k as int].len() > 0);
        cumulative = advance(cumulative, definition(level));
        proof {
            assert(pv.take(k + 1).drop_last() =~= pv.take(k as int));
            assert(pv.take(k + 1).last() == pv[k as int]);
        }
        k += 1;
    }
    proof {
        assert(pv.take(pv.len() as int) =~= pv);
        lemma_execution_infers(s, pv, value);
        if s.len() == 0 {
            assert(s =~= Seq::<ObservationView>::empty());
            lemma_empty_history(value);
        }
    }
    cumulative
}

impl NewHistory {
    /// A history without observations.
    pub fn new() -> (r: Self)
        ensures
            r@ == Seq::<ObservationView>::empty(),
    {
        let r = NewHistory { observations: Vec::new() };
        assert(r@ =~= Seq::<ObservationView>::empty());
        r
    }

    /// Appends one observation. Nothing that the history holds is changed.
    pub fn add_new(&mut self, observation: Observation)
        ensures
            final(self)@ == old(self)@.push(observation@),
    {
        self.observations.push(observation);
        assert(self@ =~= old(self)@.push(observation@));
    }

    /// The observations of the history, in the order in which they arrived.
    pub fn observations(&self) -> (r: &Vec<Observation>)
        ensures
            views(r@) == self@,
    {
        &self.observations
    }

    /// Whether the history meets what is asked of producers: every interval is
    /// well formed, and no two polls of one poller overlap and start together.
    pub fn is_orderable(&self) -> (r: bool)
        ensures
            r == orderable(self@),
    {
        is_orderable(&self.observations)
    }

    /// The levels of the history, each with its members in the order in which
    /// they arrived, and the levels in the order of their starts.
    ///
    /// The levels part the history: members of one level are linked by a chain
    /// of unordered observations, and members of different levels are ordered.
    /// Where the order of the history is transitive, every member of an
    /// earlier level happened before every member of a later one.
    pub fn get_execution(&self) -> (plan: Vec<Vec<Observation>>)
        requires
            orderable(self@),
        ensures
            is_execution(self@, plan_views(plan@)),
            forall|j: int, k: int, x: int, y: int|
                0 <= j < plan@.len() && 0 <= k < plan@.len() && 0 <= x < plan@[j]@.len() && 0 <= y
                    < plan@[k]@.len() ==> {
                    let a = (#[trigger] plan@[j]@[x])@;
                    let b = (#[trigger] plan@[k]@[y])@;
                    &&& j == k ==> linked(self@, a, b)
                    &&& j != k ==> precedes(a, b) || precedes(b, a)
                    &&& j < k && transitive(self@) ==> precedes(a, b)
                },
    {
        let plan = execution_of(&self.observations);
        proof {
            let s = self@;
            let pv = plan_views(plan@);
            assert forall|j: int, k: int, x: int, y: int|
                0 <= j < plan@.len() && 0 <= k < plan@.len() && 0 <= x < plan@[j]@.len() && 0 <= y
                    < plan@[k]@.len() implies {
                let a = (#[trigger] plan@[j]@[x])@;
                let b = (#[trigger] plan@[k]@[y])@;
                &&& j == k ==> linked(s, a, b)
                &&& j != k ==> precedes(a, b) || precedes(b, a)
                &&& j < k && transitive(s) ==> precedes(a, b)
            } by {
                assert(pv[j] == views(plan@[j]@) && pv[k] == views(plan@[k]@));
                assert(pv[j][x] == plan@[j]@[x]@ && pv[k][y] == plan@[k]@[y]@);
                lemma_execution_partition(s, pv, j, k, x, y);
                if j < k && transitive(s) {
                    lemma_execution_ordered(s, pv, j, k, x, y);
                }
            }
        }
        plan
    }

    /// The value inferred from the history, starting from `value`: the levels
    /// are composed in the order of their starts. `None` is a conflict.
    /// An empty history infers `value` itself.
    pub fn apply(&self, value: Option<Value>) -> (r: Option<Value>)
        requires
            orderable(self@),
        ensures
            r == inferred(self@, value),
            self@.len() == 0 ==> r == value,
    {
        infer(&self.observations, value)
    }

    /// Infers the single predicate of a level, if its members commute to one.
    /// Mutations alone amount to one mutation by the sum of their deltas. Two
    /// assignments of different values, or a transition beside anything else,
    /// leave the level without a predicate.
    pub fn definition(level: &Vec<Observation>) -> (r: Option<DefinitionPredicate>)
        requires
            level.len() > 0,
        ensures
            r == composite(views(level@)),
            all_mutations(views(level@)) ==> r == Some(
                DefinitionPredicate::Mutation { delta: wrap(delta_sum(views(level@))) },
            ),
            has_conflicting_assignments(views(level@)) ==> r is None,
            level.len() >= 2 && has_transition(views(level@)) ==> r is None,
    {
        definition(level)
    }
}

} // verus!

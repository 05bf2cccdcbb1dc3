//! Dependency ordering for sequential launches.
//!
//! Each edge is `(dependent, depends_on)`: `dependent` must start after `depends_on`.
//! The order is computed by a stable variant of Kahn's algorithm: the node list is swept
//! front to back again and again, and a node is emitted as soon as everything it depends on
//! has been emitted, so ties keep the order in which the nodes were given.

use vstd::prelude::*;
use vstd::seq_lib::*;
use vstd::set_lib::*;
use crate::commands::{cycle_message, cycle_names, ExecuteResult};
use crate::error::AppError;
use crate::launch_config::{
    command_line,
    law_launch_line_without_override,
    non_empty,
    toolchain_default,
    toolchain_default_text,
};
use crate::persistence::Repository;

verus! {

/// An edge only constrains the order when it is not a self-edge and both of its
/// endpoints are among the nodes being ordered.
pub open spec fn is_constraint(nodes: Seq<i64>, edge: (i64, i64)) -> bool {
    edge.0 != edge.1 && nodes.contains(edge.0) && nodes.contains(edge.1)
}

/// Node `n` may start once every node it is constrained to follow is in `done`.
pub open spec fn ready(nodes: Seq<i64>, edges: Seq<(i64, i64)>, n: i64, done: Set<i64>) -> bool {
    forall|j: int|
        #![trigger edges[j]]
        0 <= j < edges.len() && edges[j].0 == n && is_constraint(nodes, edges[j]) ==> done.contains(
            edges[j].1,
        )
}

/// One front-to-back sweep over `nodes` from position `i`, starting with the nodes in
/// `done` already emitted: the nodes emitted by the sweep, in order.
pub open spec fn sweep(nodes: Seq<i64>, edges: Seq<(i64, i64)>, done: Set<i64>, i: nat) -> Seq<
    i64,
>
    decreases nodes.len() - i,
{
    if i >= nodes.len() {
        Seq::empty()
    } else {
        let n = nodes[i as int];
        if !done.contains(n) && ready(nodes, edges, n, done) {
            seq![n] + sweep(nodes, edges, done.insert(n), i + 1)
        } else {
            sweep(nodes, edges, done, i + 1)
        }
    }
}

/// Repeated sweeps until one emits nothing (at most `fuel` of them).
pub open spec fn passes(nodes: Seq<i64>, edges: Seq<(i64, i64)>, done: Set<i64>, fuel: nat) -> Seq<
    i64,
>
    decreases fuel,
{
    if fuel == 0 {
        Seq::empty()
    } else {
        let s = sweep(nodes, edges, done, 0);
        if s.len() == 0 {
            Seq::empty()
        } else {
            s + passes(nodes, edges, done + s.to_set(), (fuel - 1) as nat)
        }
    }
}

/// Every node the stable sweeps manage to emit, in emission order.
pub open spec fn launch_order(nodes: Seq<i64>, edges: Seq<(i64, i64)>) -> Seq<i64> {
    passes(nodes, edges, Set::empty(), nodes.len())
}

/// Selects the nodes that are not in `order`.
pub open spec fn not_in(order: Seq<i64>) -> spec_fn(i64) -> bool {
    |n: i64| !order.contains(n)
}

/// The outcome of ordering: the full order when every node could be emitted, otherwise
/// the nodes left over (in their given order), which wait on one another.
pub open spec fn topo_spec(nodes: Seq<i64>, edges: Seq<(i64, i64)>) -> Result<Seq<i64>, Seq<i64>> {
    let order = launch_order(nodes, edges);
    if order.len() == nodes.len() {
        Ok(order)
    } else {
        Err(nodes.filter(not_in(order)))
    }
}


/// `order` is a correct launch order for `nodes`: every node exactly once, and for every
/// constraining edge the node depended on comes first.
pub open spec fn valid_launch_order(order: Seq<i64>, nodes: Seq<i64>, edges: Seq<(i64, i64)>) -> bool {
    &&& order.len() == nodes.len()
    &&& order.no_duplicates()
    &&& forall|x: i64| nodes.contains(x) ==> order.contains(x)
    &&& forall|k: int| 0 <= k < order.len() ==> nodes.contains(#[trigger] order[k])
    &&& forall|j: int, pa: int, pb: int|
        #![trigger edges[j], order[pa], order[pb]]
        0 <= j < edges.len() && is_constraint(nodes, edges[j]) && 0 <= pa < order.len() && 0 <= pb
            < order.len() && order[pa] == edges[j].0 && order[pb] == edges[j].1 ==> pb < pa
}

/// Every element of `seq` is a node that was not emitted before it and whose
/// dependencies were all emitted before it (counting `done` as emitted up front).
pub open spec fn emits_in_order(
    nodes: Seq<i64>,
    edges: Seq<(i64, i64)>,
    done: Set<i64>,
    seq: Seq<i64>,
) -> bool {
    forall|k: int|
        #![trigger seq[k]]
        0 <= k < seq.len() ==> {
            &&& nodes.contains(seq[k])
            &&& !(done + seq.take(k).to_set()).contains(seq[k])
            &&& ready(nodes, edges, seq[k], done + seq.take(k).to_set())
        }
}

proof fn lemma_concat_to_set(a: Seq<i64>, b: Seq<i64>)
    ensures
        (a + b).to_set() =~= a.to_set() + b.to_set(),
{
    let ab = a + b;
    assert forall|x: i64| ab.contains(x) implies (a.to_set() + b.to_set()).contains(x) by {
        let q = choose|q: int| 0 <= q < ab.len() && ab[q] == x;
        if q < a.len() {
            assert(a[q] == x);
            assert(a.contains(x));
        } else {
            assert(b[q - a.len()] == x);
            assert(b.contains(x));
        }
    }
    assert forall|x: i64| (a.to_set() + b.to_set()).contains(x) implies ab.contains(x) by {
        if a.contains(x) {
            let q = choose|q: int| 0 <= q < a.len() && a[q] == x;
            assert(ab[q] == x);
        } else {
            assert(b.contains(x));
            let q = choose|q: int| 0 <= q < b.len() && b[q] == x;
            assert(ab[a.len() + q] == x);
        }
    }
}

proof fn lemma_emits_concat(
    nodes: Seq<i64>,
    edges: Seq<(i64, i64)>,
    done: Set<i64>,
    s: Seq<i64>,
    t: Seq<i64>,
)
    requires
        emits_in_order(nodes, edges, done, s),
        emits_in_order(nodes, edges, done + s.to_set(), t),
    ensures
        emits_in_order(nodes, edges, done, s + t),
{
    let st = s + t;
    assert forall|k: int| 0 <= k < st.len() implies {
        &&& nodes.contains(#[trigger] st[k])
        &&& !(done + st.take(k).to_set()).contains(st[k])
        &&& ready(nodes, edges, st[k], done + st.take(k).to_set())
    } by {
        if k < s.len() {
            assert(st[k] == s[k]);
            assert(st.take(k) =~= s.take(k));
        } else {
            let k2 = k - s.len();
            assert(st[k] == t[k2]);
            assert(st.take(k) =~= s + t.take(k2));
            lemma_concat_to_set(s, t.take(k2));
            assert(done + st.take(k).to_set() =~= done + s.to_set() + t.take(k2).to_set());
        }
    }
}

proof fn lemma_sweep_emits(nodes: Seq<i64>, edges: Seq<(i64, i64)>, done: Set<i64>, i: nat)
    ensures
        emits_in_order(nodes, edges, done, sweep(nodes, edges, done, i)),
    decreases nodes.len() - i,
{
    if i < nodes.len() {
        let n = nodes[i as int];
        if !done.contains(n) && ready(nodes, edges, n, done) {
            let t = sweep(nodes, edges, done.insert(n), i + 1);
            lemma_sweep_emits(nodes, edges, done.insert(n), i + 1);
            let one = seq![n];
            assert(one.take(0) =~= Seq::<i64>::empty());
            assert(done + one.take(0).to_set() =~= done);
            assert(emits_in_order(nodes, edges, done, one));
            assert(done + one.to_set() =~= done.insert(n)) by {
                assert(one.to_set().contains(n)) by {
                    assert(one[0] == n);
                }
            }
            lemma_emits_concat(nodes, edges, done, one, t);
        } else {
            lemma_sweep_emits(nodes, edges, done, i + 1);
        }
    } else {
        assert(sweep(nodes, edges, done, i) =~= Seq::<i64>::empty());
    }
}

proof fn lemma_passes_emits(nodes: Seq<i64>, edges: Seq<(i64, i64)>, done: Set<i64>, fuel: nat)
    ensures
        emits_in_order(nodes, edges, done, passes(nodes, edges, done, fuel)),
    decreases fuel,
{
    if fuel > 0 {
        let s = sweep(nodes, edges, done, 0);
        if s.len() > 0 {
            lemma_sweep_emits(nodes, edges, done, 0);
            lemma_passes_emits(nodes, edges, done + s.to_set(), (fuel - 1) as nat);
            lemma_emits_concat(
                nodes,
                edges,
                done,
                s,
                passes(nodes, edges, done + s.to_set(), (fuel - 1) as nat),
            );
        }
    }
}

proof fn lemma_emitted_distinct(nodes: Seq<i64>, edges: Seq<(i64, i64)>, seq: Seq<i64>)
    requires
        emits_in_order(nodes, edges, Set::empty(), seq),
    ensures
        seq.no_duplicates(),
        forall|k: int| 0 <= k < seq.len() ==> nodes.contains(#[trigger] seq[k]),
        seq.len() <= nodes.len(),
{
    assert forall|a: int, b: int| 0 <= a < seq.len() && 0 <= b < seq.len() && a != b implies seq[a]
        != seq[b] by {
        if a < b {
            assert(seq.take(b)[a] == seq[a]);
            assert((Set::<i64>::empty() + seq.take(b).to_set()).contains(seq[a]));
        } else {
            assert(seq.take(a)[b] == seq[b]);
            assert((Set::<i64>::empty() + seq.take(a).to_set()).contains(seq[b]));
        }
    }
    lemma_distinct_subset_len(seq, nodes);
}

/// A successful result is a valid launch order: each node exactly once, and every
/// constraining edge's `depends_on` starts before its `dependent`.
pub proof fn law_order_respects_dependencies(nodes: Seq<i64>, edges: Seq<(i64, i64)>)
    requires
        topo_spec(nodes, edges) is Ok,
    ensures
        valid_launch_order(topo_spec(nodes, edges)->Ok_0, nodes, edges),
{
    let order = launch_order(nodes, edges);
    lemma_passes_emits(nodes, edges, Set::empty(), nodes.len());
    lemma_emitted_distinct(nodes, edges, order);
    // every node is emitted: the emitted set fills the node set
    order.unique_seq_to_set();
    nodes.lemma_cardinality_of_set();
    assert(order.to_set().subset_of(nodes.to_set()));
    assert forall|x: i64| nodes.contains(x) implies order.contains(x) by {
        if !order.contains(x) {
            assert(order.to_set().subset_of(nodes.to_set().remove(x)));
            lemma_len_subset(order.to_set(), nodes.to_set().remove(x));
        }
    }
    assert forall|j: int, pa: int, pb: int|
        #![trigger edges[j], order[pa], order[pb]]
        0 <= j < edges.len() && is_constraint(nodes, edges[j]) && 0 <= pa < order.len() && 0 <= pb
            < order.len() && order[pa] == edges[j].0 && order[pb] == edges[j].1 implies pb < pa by {
        assert(ready(nodes, edges, order[pa], Set::empty() + order.take(pa).to_set()));
        assert((Set::<i64>::empty() + order.take(pa).to_set()).contains(edges[j].1));
        let q = choose|q: int| 0 <= q < order.take(pa).len() && order.take(pa)[q] == edges[j].1;
        assert(order[q] == order[pb]);
    }
}

proof fn lemma_sweep_all_free(nodes: Seq<i64>, edges: Seq<(i64, i64)>, done: Set<i64>, i: nat)
    requires
        i <= nodes.len(),
        nodes.no_duplicates(),
        forall|j: int| 0 <= j < edges.len() ==> !is_constraint(nodes, #[trigger] edges[j]),
        forall|k: int| i <= k < nodes.len() ==> !done.contains(#[trigger] nodes[k]),
    ensures
        sweep(nodes, edges, done, i) == nodes.subrange(i as int, nodes.len() as int),
    decreases nodes.len() - i,
{
    if i < nodes.len() {
        let n = nodes[i as int];
        assert forall|k: int| i + 1 <= k < nodes.len() implies !done.insert(n).contains(
            #[trigger] nodes[k],
        ) by {
            assert(nodes[k] != nodes[i as int]);
        }
        lemma_sweep_all_free(nodes, edges, done.insert(n), i + 1);
        assert(seq![n] + nodes.subrange(i as int + 1, nodes.len() as int) =~= nodes.subrange(
            i as int,
            nodes.len() as int,
        ));
    } else {
        assert(nodes.subrange(i as int, nodes.len() as int) =~= Seq::<i64>::empty());
    }
}

proof fn lemma_sweep_all_done(nodes: Seq<i64>, edges: Seq<(i64, i64)>, done: Set<i64>, i: nat)
    requires
        forall|k: int| 0 <= k < nodes.len() ==> done.contains(#[trigger] nodes[k]),
    ensures
        sweep(nodes, edges, done, i) == Seq::<i64>::empty(),
    decreases nodes.len() - i,
{
    if i < nodes.len() {
        lemma_sweep_all_done(nodes, edges, done, i + 1);
    }
}

/// With no constraining edges, distinct nodes keep exactly their given order.
pub proof fn law_no_constraints_keeps_order(nodes: Seq<i64>, edges: Seq<(i64, i64)>)
    requires
        nodes.no_duplicates(),
        forall|j: int| 0 <= j < edges.len() ==> !is_constraint(nodes, #[trigger] edges[j]),
    ensures
        topo_spec(nodes, edges) == Ok::<Seq<i64>, Seq<i64>>(nodes),
{
    let e = Set::<i64>::empty();
    lemma_sweep_all_free(nodes, edges, e, 0);
    assert(nodes.subrange(0, nodes.len() as int) =~= nodes);
    if nodes.len() > 0 {
        let f = (nodes.len() - 1) as nat;
        assert forall|k: int| 0 <= k < nodes.len() implies (e + nodes.to_set()).contains(
            #[trigger] nodes[k],
        ) by {}
        lemma_sweep_all_done(nodes, edges, e + nodes.to_set(), 0);
        assert(passes(nodes, edges, e + nodes.to_set(), f) =~= Seq::<i64>::empty());
        assert(launch_order(nodes, edges) =~= nodes);
    } else {
        assert(launch_order(nodes, edges) =~= nodes);
    }
}

proof fn lemma_passes_reach_fixpoint(
    nodes: Seq<i64>,
    edges: Seq<(i64, i64)>,
    done: Set<i64>,
    fuel: nat,
)
    ensures
        ({
            let r = passes(nodes, edges, done, fuel);
            sweep(nodes, edges, done + r.to_set(), 0).len() == 0 || r.len() >= fuel
        }),
    decreases fuel,
{
    if fuel > 0 {
        let s = sweep(nodes, edges, done, 0);
        if s.len() == 0 {
            assert(done + Seq::<i64>::empty().to_set() =~= done);
        } else {
            let d2 = done + s.to_set();
            let r2 = passes(nodes, edges, d2, (fuel - 1) as nat);
            lemma_passes_reach_fixpoint(nodes, edges, d2, (fuel - 1) as nat);
            let r = s + r2;
            lemma_concat_to_set(s, r2);
            assert(done + r.to_set() =~= d2 + r2.to_set());
        }
    }
}

proof fn lemma_sweep_empty_blocked(nodes: Seq<i64>, edges: Seq<(i64, i64)>, done: Set<i64>, i: nat)
    requires
        sweep(nodes, edges, done, i).len() == 0,
    ensures
        forall|k: int|
            i <= k < nodes.len() ==> done.contains(#[trigger] nodes[k]) || !ready(
                nodes,
                edges,
                nodes[k],
                done,
            ),
    decreases nodes.len() - i,
{
    if i < nodes.len() {
        lemma_sweep_empty_blocked(nodes, edges, done, i + 1);
    }
}

/// When ordering fails, the emitted nodes are a fixpoint: every node left over still
/// waits on a node that was never emitted.
proof fn lemma_failure_fixpoint(nodes: Seq<i64>, edges: Seq<(i64, i64)>)
    requires
        topo_spec(nodes, edges) is Err,
    ensures
        ({
            let done = launch_order(nodes, edges).to_set();
            forall|k: int|
                0 <= k < nodes.len() ==> done.contains(#[trigger] nodes[k]) || !ready(
                    nodes,
                    edges,
                    nodes[k],
                    done,
                )
        }),
{
    let order = launch_order(nodes, edges);
    lemma_passes_emits(nodes, edges, Set::empty(), nodes.len());
    lemma_emitted_distinct(nodes, edges, order);
    lemma_passes_reach_fixpoint(nodes, edges, Set::empty(), nodes.len());
    assert(Set::<i64>::empty() + order.to_set() =~= order.to_set());
    lemma_sweep_empty_blocked(nodes, edges, order.to_set(), 0);
}

/// Every node reported in a failure waits, through a constraining edge, on another
/// reported node: the reported nodes are blocked by one another.
pub proof fn law_reported_nodes_block_each_other(nodes: Seq<i64>, edges: Seq<(i64, i64)>)
    requires
        topo_spec(nodes, edges) is Err,
    ensures
        ({
            let cyclic = topo_spec(nodes, edges)->Err_0;
            forall|x: i64|
                #![trigger cyclic.contains(x)]
                cyclic.contains(x) ==> exists|j: int|
                    #![trigger edges[j]]
                    0 <= j < edges.len() && is_constraint(nodes, edges[j]) && edges[j].0 == x
                        && cyclic.contains(edges[j].1)
        }),
{
    broadcast use group_filter_ensures;

    let order = launch_order(nodes, edges);
    let done = order.to_set();
    let cyclic = nodes.filter(not_in(order));
    lemma_failure_fixpoint(nodes, edges);
    assert forall|x: i64| #![trigger cyclic.contains(x)] cyclic.contains(x) implies exists|j: int|
        #![trigger edges[j]]
        0 <= j < edges.len() && is_constraint(nodes, edges[j]) && edges[j].0 == x
            && cyclic.contains(edges[j].1) by {
        let q = choose|q: int| 0 <= q < cyclic.len() && cyclic[q] == x;
        assert(not_in(order)(cyclic[q]));
        nodes.lemma_filter_contains_rev(not_in(order), x);
        assert(nodes.contains(x));
        let k = choose|k: int| 0 <= k < nodes.len() && nodes[k] == x;
        assert(!done.contains(nodes[k]));
        assert(!ready(nodes, edges, nodes[k], done));
        let j = choose|j: int|
            #![trigger edges[j]]
            0 <= j < edges.len() && edges[j].0 == x && is_constraint(nodes, edges[j])
                && !done.contains(edges[j].1);
        let b = edges[j].1;
        let kb = choose|kb: int| 0 <= kb < nodes.len() && nodes[kb] == b;
        assert(not_in(order)(nodes[kb]));
        nodes.lemma_filter_contains(not_in(order), kb);
    }
}

proof fn lemma_first_outside(o: Seq<i64>, done: Set<i64>, k: int) -> (p: int)
    requires
        0 <= k < o.len(),
        !done.contains(o[k]),
    ensures
        0 <= p <= k,
        !done.contains(o[p]),
        forall|q: int| 0 <= q < p ==> done.contains(#[trigger] o[q]),
    decreases k,
{
    if exists|q: int| 0 <= q < k && !done.contains(o[q]) {
        let q = choose|q: int| 0 <= q < k && !done.contains(o[q]);
        lemma_first_outside(o, done, q)
    } else {
        k
    }
}

/// For distinct nodes, a failure means that no valid launch order exists at all.
pub proof fn law_failure_means_no_valid_order(
    nodes: Seq<i64>,
    edges: Seq<(i64, i64)>,
    candidate: Seq<i64>,
)
    requires
        nodes.no_duplicates(),
        topo_spec(nodes, edges) is Err,
    ensures
        !valid_launch_order(candidate, nodes, edges),
{
    let order = launch_order(nodes, edges);
    let done = order.to_set();
    lemma_passes_emits(nodes, edges, Set::empty(), nodes.len());
    lemma_emitted_distinct(nodes, edges, order);
    lemma_failure_fixpoint(nodes, edges);
    if valid_launch_order(candidate, nodes, edges) {
        // some node was never emitted
        order.unique_seq_to_set();
        nodes.unique_seq_to_set();
        let y = if nodes.to_set().subset_of(done) {
            lemma_len_subset(nodes.to_set(), done);
            arbitrary()
        } else {
            choose|y: i64| nodes.to_set().contains(y) && !done.contains(y)
        };
        assert(candidate.contains(y));
        let ky = choose|ky: int| 0 <= ky < candidate.len() && candidate[ky] == y;
        let p = lemma_first_outside(candidate, done, ky);
        let x = candidate[p];
        assert(nodes.contains(x));
        let k = choose|k: int| 0 <= k < nodes.len() && nodes[k] == x;
        assert(!ready(nodes, edges, nodes[k], done));
        let j = choose|j: int|
            #![trigger edges[j]]
            0 <= j < edges.len() && edges[j].0 == x && is_constraint(nodes, edges[j])
                && !done.contains(edges[j].1);
        let b = edges[j].1;
        assert(candidate.contains(b));
        let q = choose|q: int| 0 <= q < candidate.len() && candidate[q] == b;
        assert(q < p);
        assert(done.contains(candidate[q]));
    }
}

/// Each node of `s` is one of `nodes` and is constrained to follow another node of `s`, so no
/// node of `s` can ever start first. Such a set of nodes always holds a dependency cycle,
/// and each of its nodes lies on a cycle or depends, directly or through others, on a node
/// that does.
pub open spec fn waits_within(nodes: Seq<i64>, edges: Seq<(i64, i64)>, s: Set<i64>) -> bool {
    forall|x: i64|
        #![trigger s.contains(x)]
        s.contains(x) ==> nodes.contains(x) && exists|j: int|
            #![trigger edges[j]]
            0 <= j < edges.len() && is_constraint(nodes, edges[j]) && edges[j].0 == x
                && s.contains(edges[j].1)
}

/// Node `x` lies on a dependency cycle among `nodes`, or depends, directly or through
/// others, on a node that does.
pub open spec fn held_by_cycle(nodes: Seq<i64>, edges: Seq<(i64, i64)>, x: i64) -> bool {
    exists|s: Set<i64>| #![trigger waits_within(nodes, edges, s)] waits_within(nodes, edges, s) && s.contains(x)
}

/// Selects the nodes held by a dependency cycle.
pub open spec fn held_by_cycle_pred(nodes: Seq<i64>, edges: Seq<(i64, i64)>) -> spec_fn(i64) -> bool {
    |x: i64| held_by_cycle(nodes, edges, x)
}

/// No node of a set that waits within itself is ever emitted.
proof fn lemma_waiting_set_never_emitted(
    nodes: Seq<i64>,
    edges: Seq<(i64, i64)>,
    s: Set<i64>,
    order: Seq<i64>,
)
    requires
        waits_within(nodes, edges, s),
        emits_in_order(nodes, edges, Set::empty(), order),
    ensures
        forall|k: int| 0 <= k < order.len() ==> !s.contains(#[trigger] order[k]),
{
    assert forall|k: int| 0 <= k < order.len() implies !s.contains(#[trigger] order[k]) by {
        if s.contains(order[k]) {
            let outside = s.complement();
            let p = lemma_first_outside(order, outside, k);
            let x = order[p];
            assert(s.contains(x));
            let j = choose|j: int|
                #![trigger edges[j]]
                0 <= j < edges.len() && is_constraint(nodes, edges[j]) && edges[j].0 == x
                    && s.contains(edges[j].1);
            assert(ready(nodes, edges, order[p], Set::empty() + order.take(p).to_set()));
            assert((Set::<i64>::empty() + order.take(p).to_set()).contains(edges[j].1));
            let q = choose|q: int| 0 <= q < order.take(p).len() && order.take(p)[q] == edges[j].1;
            assert(order[q] == edges[j].1);
            assert(outside.contains(order[q]));
        }
    }
}

proof fn lemma_filter_agree(s: Seq<i64>, f: spec_fn(i64) -> bool, g: spec_fn(i64) -> bool)
    requires
        forall|k: int| 0 <= k < s.len() ==> f(#[trigger] s[k]) == g(s[k]),
    ensures
        s.filter(f) == s.filter(g),
    decreases s.len(),
{
    reveal(Seq::filter);
    if s.len() > 0 {
        let d = s.drop_last();
        assert forall|k: int| 0 <= k < d.len() implies f(#[trigger] d[k]) == g(d[k]) by {
            assert(d[k] == s[k]);
        }
        lemma_filter_agree(d, f, g);
        assert(f(s[s.len() - 1]) == g(s[s.len() - 1]));
    }
}

proof fn lemma_held_never_emitted(nodes: Seq<i64>, edges: Seq<(i64, i64)>)
    ensures
        forall|x: i64|
            #[trigger] held_by_cycle(nodes, edges, x) ==> nodes.contains(x) && !launch_order(
                nodes,
                edges,
            ).contains(x),
{
    let order = launch_order(nodes, edges);
    lemma_passes_emits(nodes, edges, Set::empty(), nodes.len());
    assert forall|x: i64| held_by_cycle(nodes, edges, x) implies nodes.contains(x) && !order.contains(
        x,
    ) by {
        let s = choose|s: Set<i64>|
            #![trigger waits_within(nodes, edges, s)]
            waits_within(nodes, edges, s) && s.contains(x);
        lemma_waiting_set_never_emitted(nodes, edges, s, order);
        if order.contains(x) {
            let k = choose|k: int| 0 <= k < order.len() && order[k] == x;
            assert(!s.contains(order[k]));
        }
    }
}

proof fn lemma_reported_set_waits_within(nodes: Seq<i64>, edges: Seq<(i64, i64)>)
    requires
        topo_spec(nodes, edges) is Err,
    ensures
        waits_within(nodes, edges, topo_spec(nodes, edges)->Err_0.to_set()),
{
    let order = launch_order(nodes, edges);
    let c = nodes.filter(not_in(order));
    law_reported_nodes_block_each_other(nodes, edges);
    assert(topo_spec(nodes, edges)->Err_0 == c);
    let cs = c.to_set();
    assert forall|x: i64| #![trigger cs.contains(x)] cs.contains(x) implies nodes.contains(x)
        && exists|j: int|
        #![trigger edges[j]]
        0 <= j < edges.len() && is_constraint(nodes, edges[j]) && edges[j].0 == x && cs.contains(
            edges[j].1,
        ) by {
        assert(c.contains(x));
        nodes.lemma_filter_contains_rev(not_in(order), x);
        let j = choose|j: int|
            #![trigger edges[j]]
            0 <= j < edges.len() && is_constraint(nodes, edges[j]) && edges[j].0 == x
                && c.contains(edges[j].1);
        assert(cs.contains(edges[j].1));
    }
}

proof fn lemma_failure_leaves_a_node(nodes: Seq<i64>, edges: Seq<(i64, i64)>) -> (y: i64)
    requires
        nodes.no_duplicates(),
        topo_spec(nodes, edges) is Err,
    ensures
        topo_spec(nodes, edges)->Err_0.contains(y),
{
    let order = launch_order(nodes, edges);
    lemma_passes_emits(nodes, edges, Set::empty(), nodes.len());
    lemma_emitted_distinct(nodes, edges, order);
    order.unique_seq_to_set();
    nodes.unique_seq_to_set();
    let y = if nodes.to_set().subset_of(order.to_set()) {
        lemma_len_subset(nodes.to_set(), order.to_set());
        arbitrary()
    } else {
        choose|y: i64| nodes.to_set().contains(y) && !order.to_set().contains(y)
    };
    let ky = choose|ky: int| 0 <= ky < nodes.len() && nodes[ky] == y;
    nodes.lemma_filter_contains(not_in(order), ky);
    y
}

proof fn lemma_failure_reports_held(nodes: Seq<i64>, edges: Seq<(i64, i64)>)
    requires
        nodes.no_duplicates(),
        topo_spec(nodes, edges) is Err,
    ensures
        topo_spec(nodes, edges)->Err_0.len() > 0,
        topo_spec(nodes, edges)->Err_0 == nodes.filter(held_by_cycle_pred(nodes, edges)),
        exists|x: i64| #[trigger] held_by_cycle(nodes, edges, x),
{
    let order = launch_order(nodes, edges);
    let c = topo_spec(nodes, edges)->Err_0;
    assert(c == nodes.filter(not_in(order)));
    lemma_held_never_emitted(nodes, edges);
    lemma_reported_set_waits_within(nodes, edges);
    let cs = c.to_set();
    assert forall|k: int| 0 <= k < nodes.len() implies not_in(order)(#[trigger] nodes[k])
        == held_by_cycle_pred(nodes, edges)(nodes[k]) by {
        let y = nodes[k];
        if not_in(order)(y) {
            nodes.lemma_filter_contains(not_in(order), k);
            assert(cs.contains(y));
            assert(waits_within(nodes, edges, cs) && cs.contains(y));
        }
    }
    lemma_filter_agree(nodes, not_in(order), held_by_cycle_pred(nodes, edges));
    let y = lemma_failure_leaves_a_node(nodes, edges);
    assert(cs.contains(y));
    assert(waits_within(nodes, edges, cs) && cs.contains(y));
    assert(held_by_cycle(nodes, edges, y));
}

proof fn lemma_success_holds_no_cycle(nodes: Seq<i64>, edges: Seq<(i64, i64)>)
    requires
        topo_spec(nodes, edges) is Ok,
    ensures
        forall|x: i64| !#[trigger] held_by_cycle(nodes, edges, x),
{
    let order = launch_order(nodes, edges);
    lemma_held_never_emitted(nodes, edges);
    law_order_respects_dependencies(nodes, edges);
    assert(order == topo_spec(nodes, edges)->Ok_0);
    assert forall|x: i64| !#[trigger] held_by_cycle(nodes, edges, x) by {
        if held_by_cycle(nodes, edges, x) {
            assert(nodes.contains(x));
            assert(order.contains(x));
        }
    }
}

/// For distinct nodes, ordering fails exactly when some node is held by a dependency cycle
/// (lies on a cycle of constraining edges, or depends on a node that does); the nodes a
/// failure reports are exactly those, in their given order, and there is always at least
/// one.
pub proof fn law_failure_reports_the_nodes_held_by_cycles(nodes: Seq<i64>, edges: Seq<(i64, i64)>)
    requires
        nodes.no_duplicates(),
    ensures
        topo_spec(nodes, edges) is Err <==> exists|x: i64| #[trigger] held_by_cycle(nodes, edges, x),
        topo_spec(nodes, edges) matches Err(c) ==> c.len() > 0 && c == nodes.filter(
            held_by_cycle_pred(nodes, edges),
        ),
{
    if topo_spec(nodes, edges) is Err {
        lemma_failure_reports_held(nodes, edges);
    } else {
        lemma_success_holds_no_cycle(nodes, edges);
    }
}

/// Some edge of `edges` constrains `a` to start after `b`.
pub open spec fn constrains(nodes: Seq<i64>, edges: Seq<(i64, i64)>, a: i64, b: i64) -> bool {
    exists|j: int| 0 <= j < edges.len() && is_constraint(nodes, #[trigger] edges[j]) && edges[j] == (a, b)
}

/// Two edge lists that impose the same constraints on `nodes`.
pub open spec fn same_constraints(nodes: Seq<i64>, e1: Seq<(i64, i64)>, e2: Seq<(i64, i64)>) -> bool {
    forall|a: i64, b: i64|
        #![trigger constrains(nodes, e1, a, b)]
        #![trigger constrains(nodes, e2, a, b)]
        constrains(nodes, e1, a, b) <==> constrains(nodes, e2, a, b)
}

proof fn lemma_same_sweep(
    nodes: Seq<i64>,
    e1: Seq<(i64, i64)>,
    e2: Seq<(i64, i64)>,
    done: Set<i64>,
    i: nat,
)
    requires
        same_constraints(nodes, e1, e2),
    ensures
        sweep(nodes, e1, done, i) == sweep(nodes, e2, done, i),
    decreases nodes.len() - i,
{
    if i < nodes.len() {
        let n = nodes[i as int];
        assert(ready(nodes, e1, n, done) == ready(nodes, e2, n, done)) by {
            if ready(nodes, e1, n, done) {
                assert forall|j: int|
                    #![trigger e2[j]]
                    0 <= j < e2.len() && e2[j].0 == n && is_constraint(nodes, e2[j]) implies done.contains(
                    e2[j].1,
                ) by {
                    let (a, b) = e2[j];
                    assert(constrains(nodes, e2, a, b));
                    assert(constrains(nodes, e1, a, b));
                    let j1 = choose|j1: int|
                        0 <= j1 < e1.len() && is_constraint(nodes, #[trigger] e1[j1]) && e1[j1] == (
                        a,
                        b,
                    );
                }
            } else {
                let j = choose|j: int|
                    #![trigger e1[j]]
                    0 <= j < e1.len() && e1[j].0 == n && is_constraint(nodes, e1[j]) && !done.contains(
                        e1[j].1,
                    );
                let (a, b) = e1[j];
                assert(constrains(nodes, e1, a, b));
                assert(constrains(nodes, e2, a, b));
                let j2 = choose|j2: int|
                    0 <= j2 < e2.len() && is_constraint(nodes, #[trigger] e2[j2]) && e2[j2] == (a, b);
                assert(e2[j2].0 == n);
            }
        }
        lemma_same_sweep(nodes, e1, e2, done, i + 1);
        lemma_same_sweep(nodes, e1, e2, done.insert(n), i + 1);
    }
}

proof fn lemma_same_passes(
    nodes: Seq<i64>,
    e1: Seq<(i64, i64)>,
    e2: Seq<(i64, i64)>,
    done: Set<i64>,
    fuel: nat,
)
    requires
        same_constraints(nodes, e1, e2),
    ensures
        passes(nodes, e1, done, fuel) == passes(nodes, e2, done, fuel),
    decreases fuel,
{
    if fuel > 0 {
        lemma_same_sweep(nodes, e1, e2, done, 0);
        let s = sweep(nodes, e1, done, 0);
        lemma_same_passes(nodes, e1, e2, done + s.to_set(), (fuel - 1) as nat);
    }
}

/// Only the constraints matter: self-edges, duplicate edges and edges that leave the
/// node set can be added or dropped without changing the result.
pub proof fn law_only_constraints_matter(
    nodes: Seq<i64>,
    e1: Seq<(i64, i64)>,
    e2: Seq<(i64, i64)>,
)
    requires
        same_constraints(nodes, e1, e2),
    ensures
        topo_spec(nodes, e1) == topo_spec(nodes, e2),
{
    lemma_same_passes(nodes, e1, e2, Set::empty(), nodes.len());
}

// ── Planning an "Execute All" run ─────────────────────────────────────────────

/// A repository takes part in "Execute All" when it is enabled and has something to run:
/// a command override, a detected start script, or the fixed default command of its
/// toolchain.
pub open spec fn launchable(r: Repository) -> bool {
    r.enabled == 1 && (r.command is Some || r.detected_script is Some || toolchain_default(r) is Some)
}

/// Ids of the launchable repositories.
pub open spec fn launchable_ids(repos: Seq<Repository>) -> Set<i64> {
    Set::new(
        |id: i64|
            exists|k: int| #![trigger repos[k]] 0 <= k < repos.len() && repos[k].id == id && launchable(repos[k]),
    )
}

/// Ids of the enabled repositories, in repository order.
pub open spec fn enabled_id_list(repos: Seq<Repository>) -> Seq<i64> {
    repos.filter(|r: Repository| r.enabled == 1).map_values(|r: Repository| r.id)
}

/// A set of repository ids closed under dependencies: whatever a member depends on (by
/// any stored edge) is a member too.
pub open spec fn dependency_closed(s: Set<i64>, edges: Seq<(i64, i64)>) -> bool {
    forall|j: int|
        #![trigger edges[j]]
        0 <= j < edges.len() && s.contains(edges[j].0) ==> s.contains(edges[j].1)
}

/// The repositories that can run: the largest set of launchable repositories that is closed
/// under dependencies. A repository whose dependency (directly or through others) cannot run
/// is left out.
pub open spec fn runnable_set(repos: Seq<Repository>, edges: Seq<(i64, i64)>) -> Set<i64> {
    Set::new(
        |id: i64|
            exists|s: Set<i64>|
                #![trigger s.contains(id)]
                s.subset_of(launchable_ids(repos)) && dependency_closed(s, edges) && s.contains(id),
    )
}

/// Keeps the ids that are in `r`.
pub open spec fn in_set(r: Set<i64>) -> spec_fn(i64) -> bool {
    |id: i64| r.contains(id)
}

/// Keeps the edges with both ends in `r`.
pub open spec fn edge_in_set(r: Set<i64>) -> spec_fn((i64, i64)) -> bool {
    |e: (i64, i64)| r.contains(e.0) && r.contains(e.1)
}

/// Repository ids in repository order.
pub open spec fn repo_ids(repos: Seq<Repository>) -> Seq<i64> {
    repos.map_values(|r: Repository| r.id)
}

/// The nodes to order: the runnable repositories, in repository order.
pub open spec fn plan_nodes(repos: Seq<Repository>, edges: Seq<(i64, i64)>) -> Seq<i64> {
    repo_ids(repos).filter(in_set(runnable_set(repos, edges)))
}

/// The edges to order by: those between runnable repositories.
pub open spec fn plan_edges(repos: Seq<Repository>, edges: Seq<(i64, i64)>) -> Seq<(i64, i64)> {
    edges.filter(edge_in_set(runnable_set(repos, edges)))
}

/// What an "Execute All" run will do.
pub struct LaunchPlan {
    /// The repositories to start, in order.
    pub order: Vec<i64>,
    /// The enabled repositories, in repository order (those not started are reported as
    /// skipped).
    pub enabled_ids: Vec<i64>,
}

fn vec_contains(v: &Vec<i64>, x: i64) -> (r: bool)
    ensures
        r == v@.contains(x),
{
    slice_contains(v.as_slice(), x)
}

/// True if some edge from `x` points at something outside `run`.
fn has_unmet_dependency(x: i64, run: &Vec<i64>, edges: &[(i64, i64)]) -> (r: bool)
    ensures
        r == exists|j: int|
            #![trigger edges@[j]]
            0 <= j < edges@.len() && edges@[j].0 == x && !run@.contains(edges@[j].1),
{
    let mut j: usize = 0;
    while j < edges.len()
        invariant
            0 <= j <= edges@.len(),
            forall|k: int|
                #![trigger edges@[k]]
                0 <= k < j && edges@[k].0 == x ==> run@.contains(edges@[k].1),
        decreases edges.len() - j,
    {
        let (a, b) = edges[j];
        if a == x && !vec_contains(run, b) {
            assert(edges@[j as int].0 == x && !run@.contains(edges@[j as int].1));
            return true;
        }
        j += 1;
    }
    false
}

/// The runnable repositories: start from the launchable ones and drop every repository
/// with a dependency outside the set, until nothing changes.
fn runnable_ids(repos: &[Repository], edges: &[(i64, i64)]) -> (run: Vec<i64>)
    ensures
        run@.no_duplicates(),
        run@.to_set() == runnable_set(repos@, edges@),
{
    let mut run: Vec<i64> = Vec::new();
    let mut k: usize = 0;
    while k < repos.len()
        invariant
            0 <= k <= repos@.len(),
            run@.no_duplicates(),
            forall|x: i64|
                run@.contains(x) <==> exists|q: int|
                    #![trigger repos@[q]]
                    0 <= q < k && repos@[q].id == x && launchable(repos@[q]),
        decreases repos.len() - k,
    {
        let r = &repos[k];
        let ghost old_run = run@;
        let l = r.enabled == 1 && (r.command.is_some() || r.detected_script.is_some()
            || toolchain_default_text(r).is_some());
        assert(l == launchable(repos@[k as int]));
        if l {
            if !vec_contains(&run, r.id) {
                run.push(r.id);
            }
        }
        proof {
            assert forall|x: i64|
                run@.contains(x) <==> exists|q: int|
                    #![trigger repos@[q]]
                    0 <= q < k + 1 && repos@[q].id == x && launchable(repos@[q]) by {
                if run@.contains(x) {
                    if !old_run.contains(x) {
                        let p = choose|p: int| 0 <= p < run@.len() && run@[p] == x;
                        if p < old_run.len() {
                            assert(old_run[p] == x);
                        }
                        assert(repos@[k as int].id == x && launchable(repos@[k as int]));
                    } else {
                        let q = choose|q: int|
                            #![trigger repos@[q]]
                            0 <= q < k && repos@[q].id == x && launchable(repos@[q]);
                        assert(repos@[q].id == x);
                    }
                }
                if exists|q: int|
                    #![trigger repos@[q]]
                    0 <= q < k + 1 && repos@[q].id == x && launchable(repos@[q]) {
                    let q = choose|q: int|
                        #![trigger repos@[q]]
                        0 <= q < k + 1 && repos@[q].id == x && launchable(repos@[q]);
                    if q < k {
                        assert(old_run.contains(x));
                        let p = choose|p: int| 0 <= p < old_run.len() && old_run[p] == x;
                        assert(run@[p] == x);
                    } else {
                        if old_run.contains(x) {
                            let p = choose|p: int| 0 <= p < old_run.len() && old_run[p] == x;
                            assert(run@[p] == x);
                        } else {
                            assert(run@[run@.len() - 1] == x);
                        }
                    }
                }
            }
        }
        k += 1;
    }
    proof {
        assert forall|x: i64| run@.to_set().contains(x) implies launchable_ids(repos@).contains(x) by {
            let q = choose|q: int|
                #![trigger repos@[q]]
                0 <= q < repos@.len() && repos@[q].id == x && launchable(repos@[q]);
        }
    }
    loop
        invariant
            run@.no_duplicates(),
            run@.to_set().subset_of(launchable_ids(repos@)),
            forall|s: Set<i64>|
                #![trigger s.subset_of(run@.to_set())]
                s.subset_of(launchable_ids(repos@)) && dependency_closed(s, edges@) ==> s.subset_of(
                    run@.to_set(),
                ),
        ensures
            run@.no_duplicates(),
            run@.to_set().subset_of(launchable_ids(repos@)),
            dependency_closed(run@.to_set(), edges@),
            forall|s: Set<i64>|
                #![trigger s.subset_of(run@.to_set())]
                s.subset_of(launchable_ids(repos@)) && dependency_closed(s, edges@) ==> s.subset_of(
                    run@.to_set(),
                ),
        decreases run.len(),
    {
        let mut keep: Vec<i64> = Vec::new();
        let mut removed_any = false;
        let mut i: usize = 0;
        while i < run.len()
            invariant
                0 <= i <= run@.len(),
                run@.no_duplicates(),
                keep@.no_duplicates(),
                keep.len() + (if removed_any { 1int } else { 0int }) <= i,
                forall|p: int| #![trigger keep@[p]] 0 <= p < keep@.len() ==> run@.take(i as int).contains(keep@[p]),
                forall|p: int|
                    #![trigger run@[p]]
                    0 <= p < i ==> (keep@.contains(run@[p]) <==> !exists|j: int|
                        #![trigger edges@[j]]
                        0 <= j < edges@.len() && edges@[j].0 == run@[p] && !run@.contains(
                            edges@[j].1,
                        )),
                !removed_any ==> forall|p: int|
                    #![trigger run@[p]]
                    0 <= p < i ==> keep@.contains(run@[p]),
            decreases run.len() - i,
        {
            let x = run[i];
            let ghost old_keep = keep@;
            if has_unmet_dependency(x, &run, edges) {
                removed_any = true;
            } else {
                proof {
                    assert(!run@.take(i as int).contains(x)) by {
                        if run@.take(i as int).contains(x) {
                            let p = choose|p: int| 0 <= p < i && run@.take(i as int)[p] == x;
                            assert(run@[p] == run@[i as int]);
                        }
                    }
                }
                keep.push(x);
            }
            proof {
                assert forall|p: int| #![trigger keep@[p]] 0 <= p < keep@.len() implies run@.take(
                    i as int + 1,
                ).contains(keep@[p]) by {
                    if p < old_keep.len() {
                        assert(keep@[p] == old_keep[p]);
                        let q = choose|q: int| 0 <= q < i && run@.take(i as int)[q] == old_keep[p];
                        assert(run@.take(i as int + 1)[q] == keep@[p]);
                    } else {
                        assert(run@.take(i as int + 1)[i as int] == keep@[p]);
                    }
                }
                assert forall|p: int|
                    #![trigger run@[p]]
                    0 <= p < i + 1 implies (keep@.contains(run@[p]) <==> !exists|j: int|
                        #![trigger edges@[j]]
                        0 <= j < edges@.len() && edges@[j].0 == run@[p] && !run@.contains(
                            edges@[j].1,
                        )) by {
                    if p < i {
                        assert(run@[p] != x);
                        if keep@.contains(run@[p]) {
                            let q = choose|q: int| 0 <= q < keep@.len() && keep@[q] == run@[p];
                            if q < old_keep.len() {
                                assert(old_keep[q] == run@[p]);
                            }
                        }
                        if old_keep.contains(run@[p]) {
                            let q = choose|q: int| 0 <= q < old_keep.len() && old_keep[q] == run@[p];
                            assert(keep@[q] == run@[p]);
                        }
                    } else {
                        if keep@.contains(x) {
                            let q = choose|q: int| 0 <= q < keep@.len() && keep@[q] == x;
                            if q < old_keep.len() {
                                assert(old_keep[q] == x);
                                let q2 = choose|q2: int| 0 <= q2 < i && run@.take(i as int)[q2] == x;
                                assert(run@[q2] == run@[i as int]);
                            }
                        } else {
                            if !exists|j: int|
                                #![trigger edges@[j]]
                                0 <= j < edges@.len() && edges@[j].0 == x && !run@.contains(
                                    edges@[j].1,
                                ) {
                                assert(keep@[keep@.len() - 1] == x);
                            }
                        }
                    }
                }
                if !removed_any {
                    assert forall|p: int| #![trigger run@[p]] 0 <= p < i + 1 implies keep@.contains(
                        run@[p],
                    ) by {
                        if p < i {
                            let q = choose|q: int| 0 <= q < old_keep.len() && old_keep[q] == run@[p];
                            assert(keep@[q] == run@[p]);
                        } else {
                            assert(keep@[keep@.len() - 1] == x);
                        }
                    }
                }
            }
            i += 1;
        }
        if !removed_any {
            proof {
                assert forall|j: int|
                    #![trigger edges@[j]]
                    0 <= j < edges@.len() && run@.to_set().contains(edges@[j].0) implies run@.to_set().contains(
                    edges@[j].1,
                ) by {
                    let p = choose|p: int| 0 <= p < run@.len() && run@[p] == edges@[j].0;
                    assert(keep@.contains(run@[p]));
                }
            }
            break ;
        }
        proof {
            let ghost old_run = run@;
            assert forall|s: Set<i64>|
                #![trigger s.subset_of(keep@.to_set())]
                s.subset_of(launchable_ids(repos@)) && dependency_closed(s, edges@) implies s.subset_of(
                keep@.to_set(),
            ) by {
                assert(s.subset_of(old_run.to_set()));
                assert forall|x: i64| s.contains(x) implies keep@.to_set().contains(x) by {
                    let p = choose|p: int| 0 <= p < old_run.len() && old_run[p] == x;
                    if exists|j: int|
                        #![trigger edges@[j]]
                        0 <= j < edges@.len() && edges@[j].0 == old_run[p] && !old_run.contains(
                            edges@[j].1,
                        ) {
                        let j = choose|j: int|
                            #![trigger edges@[j]]
                            0 <= j < edges@.len() && edges@[j].0 == old_run[p] && !old_run.contains(
                                edges@[j].1,
                            );
                        assert(s.contains(edges@[j].1));
                        assert(old_run.to_set().contains(edges@[j].1));
                    }
                }
            }
            assert forall|x: i64| keep@.to_set().contains(x) implies launchable_ids(repos@).contains(x) by {
                let p = choose|p: int| 0 <= p < keep@.len() && keep@[p] == x;
                assert(run@.take(run@.len() as int).contains(keep@[p]));
                assert(run@.take(run@.len() as int) =~= run@);
                assert(run@.to_set().contains(x));
            }
        }
        run = keep;
    }
    proof {
        let r = run@.to_set();
        assert forall|x: i64| r.contains(x) implies runnable_set(repos@, edges@).contains(x) by {
            assert(r.subset_of(launchable_ids(repos@)) && dependency_closed(r, edges@) && r.contains(x));
        }
        assert forall|x: i64| runnable_set(repos@, edges@).contains(x) implies r.contains(x) by {
            let s = choose|s: Set<i64>|
                #![trigger s.contains(x)]
                s.subset_of(launchable_ids(repos@)) && dependency_closed(s, edges@) && s.contains(x);
            assert(s.subset_of(r));
        }
        assert(r =~= runnable_set(repos@, edges@));
    }
    run
}

/// Plans an "Execute All" run: drops repositories that are disabled, have nothing to run,
/// or depend (directly or transitively) on such a repository, then orders the rest by
/// their dependencies. A dependency cycle among them fails the whole run before anything
/// starts.
pub fn plan_launch(repos: &[Repository], edges: &[(i64, i64)]) -> (r: Result<LaunchPlan, AppError>)
    ensures
        match r {
            Ok(plan) => topo_spec(plan_nodes(repos@, edges@), plan_edges(repos@, edges@)) == Ok::<
                Seq<i64>,
                Seq<i64>,
            >(plan.order@) && plan.enabled_ids@ == enabled_id_list(repos@),
            Err(e) => topo_spec(plan_nodes(repos@, edges@), plan_edges(repos@, edges@)) is Err && (e matches AppError::Cycle(m) && m@ == cycle_message(
                repos@,
                topo_spec(plan_nodes(repos@, edges@), plan_edges(repos@, edges@))->Err_0,
            )),
        },
{
    let ghost rs = runnable_set(repos@, edges@);
    let run = runnable_ids(repos, edges);
    let mut nodes: Vec<i64> = Vec::new();
    let mut enabled: Vec<i64> = Vec::new();
    let mut k: usize = 0;
    proof {
        reveal(Seq::filter);
        assert(repo_ids(repos@).take(0) =~= Seq::<i64>::empty());
        assert(repos@.take(0) =~= Seq::<Repository>::empty());
    }
    while k < repos.len()
        invariant
            0 <= k <= repos@.len(),
            run@.to_set() == rs,
            rs == runnable_set(repos@, edges@),
            nodes@ == repo_ids(repos@).take(k as int).filter(in_set(rs)),
            enabled@ == repos@.take(k as int).filter(|r: Repository| r.enabled == 1).map_values(
                |r: Repository| r.id,
            ),
        decreases repos.len() - k,
    {
        let id = repos[k].id;
        proof {
            assert(repo_ids(repos@).take(k as int + 1) =~= repo_ids(repos@).take(k as int).push(id));
            repo_ids(repos@).take(k as int).lemma_filter_push(id, in_set(rs));
            assert(repos@.take(k as int + 1) =~= repos@.take(k as int).push(repos@[k as int]));
            repos@.take(k as int).lemma_filter_push(repos@[k as int], |r: Repository| r.enabled == 1);
        }
        if vec_contains(&run, id) {
            nodes.push(id);
        }
        if repos[k].enabled == 1 {
            enabled.push(id);
            proof {
                assert(enabled@ =~= repos@.take(k as int + 1).filter(|r: Repository| r.enabled == 1).map_values(
                    |r: Repository| r.id,
                ));
            }
        }
        k += 1;
    }
    proof {
        assert(repo_ids(repos@).take(repos@.len() as int) =~= repo_ids(repos@));
        assert(repos@.take(repos@.len() as int) =~= repos@);
    }
    let mut redges: Vec<(i64, i64)> = Vec::new();
    let mut j: usize = 0;
    proof {
        assert(edges@.take(0) =~= Seq::<(i64, i64)>::empty());
    }
    while j < edges.len()
        invariant
            0 <= j <= edges@.len(),
            run@.to_set() == rs,
            redges@ == edges@.take(j as int).filter(edge_in_set(rs)),
        decreases edges.len() - j,
    {
        let e = edges[j];
        proof {
            assert(edges@.take(j as int + 1) =~= edges@.take(j as int).push(e));
            edges@.take(j as int).lemma_filter_push(e, edge_in_set(rs));
        }
        if vec_contains(&run, e.0) && vec_contains(&run, e.1) {
            redges.push(e);
        }
        j += 1;
    }
    proof {
        assert(edges@.take(edges@.len() as int) =~= edges@);
    }
    match topological_order(nodes.as_slice(), redges.as_slice()) {
        Ok(order) => Ok(LaunchPlan { order, enabled_ids: enabled }),
        Err(cyclic) => Err(AppError::Cycle(cycle_names(repos, cyclic.as_slice()))),
    }
}

/// Dependencies start first: every repository a planned run starts is launchable, and
/// for every stored edge from it to a different repository, that repository is started too,
/// earlier.
pub proof fn law_plan_starts_dependencies_first(repos: Seq<Repository>, edges: Seq<(i64, i64)>)
    requires
        topo_spec(plan_nodes(repos, edges), plan_edges(repos, edges)) is Ok,
    ensures
        ({
            let order = topo_spec(plan_nodes(repos, edges), plan_edges(repos, edges))->Ok_0;
            &&& forall|pa: int| 0 <= pa < order.len() ==> launchable_ids(repos).contains(#[trigger] order[pa])
            &&& forall|pa: int, j: int|
                #![trigger order[pa], edges[j]]
                0 <= pa < order.len() && 0 <= j < edges.len() && order[pa] == edges[j].0
                    && edges[j].0 != edges[j].1 ==> exists|pb: int|
                    0 <= pb < pa && #[trigger] order[pb] == edges[j].1
        }),
{
    broadcast use group_filter_ensures;

    let nodes = plan_nodes(repos, edges);
    let pedges = plan_edges(repos, edges);
    let rs = runnable_set(repos, edges);
    let order = topo_spec(nodes, pedges)->Ok_0;
    law_order_respects_dependencies(nodes, pedges);
    // members of the plan are runnable
    assert forall|x: i64| nodes.contains(x) implies rs.contains(x) by {
        repo_ids(repos).lemma_filter_contains_rev(in_set(rs), x);
        let q = choose|q: int| 0 <= q < nodes.len() && nodes[q] == x;
        assert(in_set(rs)(nodes[q]));
    }
    // runnable repositories are in the plan
    assert forall|x: i64| rs.contains(x) implies nodes.contains(x) by {
        let s = choose|s: Set<i64>|
            #![trigger s.contains(x)]
            s.subset_of(launchable_ids(repos)) && dependency_closed(s, edges) && s.contains(x);
        assert(launchable_ids(repos).contains(x));
        let q = choose|q: int| #![trigger repos[q]] 0 <= q < repos.len() && repos[q].id == x && launchable(repos[q]);
        assert(repo_ids(repos)[q] == x);
        repo_ids(repos).lemma_filter_contains(in_set(rs), q);
    }
    assert forall|pa: int| 0 <= pa < order.len() implies launchable_ids(repos).contains(#[trigger] order[pa]) by {
        let x = order[pa];
        assert(nodes.contains(x));
        let s = choose|s: Set<i64>|
            #![trigger s.contains(x)]
            s.subset_of(launchable_ids(repos)) && dependency_closed(s, edges) && s.contains(x);
    }
    assert forall|pa: int, j: int|
        #![trigger order[pa], edges[j]]
        0 <= pa < order.len() && 0 <= j < edges.len() && order[pa] == edges[j].0 && edges[j].0 != edges[j].1
            implies exists|pb: int| 0 <= pb < pa && #[trigger] order[pb] == edges[j].1 by {
        let a = edges[j].0;
        let b = edges[j].1;
        assert(nodes.contains(a));
        assert(rs.contains(a));
        let s = choose|s: Set<i64>|
            #![trigger s.contains(a)]
            s.subset_of(launchable_ids(repos)) && dependency_closed(s, edges) && s.contains(a);
        assert(s.contains(b));
        assert(rs.contains(b));
        assert(nodes.contains(b));
        assert(order.contains(b));
        let pb = choose|pb: int| 0 <= pb < order.len() && order[pb] == b;
        assert(edge_in_set(rs)(edges[j]));
        edges.lemma_filter_contains(edge_in_set(rs), j);
        let j2 = choose|j2: int| 0 <= j2 < pedges.len() && pedges[j2] == edges[j];
        assert(is_constraint(nodes, pedges[j2]));
        assert(pb < pa);
    }
}

// ── Editing dependencies ──────────────────────────────────────────────────────

/// Edges that do not start at `id`.
pub open spec fn not_from(id: i64) -> spec_fn((i64, i64)) -> bool {
    |e: (i64, i64)| e.0 != id
}

/// Dependencies other than `id` itself.
pub open spec fn other_than(id: i64) -> spec_fn(i64) -> bool {
    |d: i64| d != id
}

/// The edges after replacing `id`'s dependencies with `depends_on`: the stored edges that do
/// not start at `id`, then an edge from `id` to each listed dependency other than itself.
pub open spec fn proposed_edges(id: i64, depends_on: Seq<i64>, edges: Seq<(i64, i64)>) -> Seq<
    (i64, i64),
> {
    edges.filter(not_from(id)) + depends_on.filter(other_than(id)).map_values(|d: i64| (id, d))
}

/// Checks a new set of dependencies for `repository_id` against the project's repositories
/// and stored edges: the change is refused when the resulting edges would contain a cycle,
/// with the repositories involved named in the error.
pub fn check_dependencies(
    repository_id: i64,
    depends_on: &[i64],
    repos: &[Repository],
    edges: &[(i64, i64)],
) -> (r: Result<(), AppError>)
    ensures
        match topo_spec(repo_ids(repos@), proposed_edges(repository_id, depends_on@, edges@)) {
            Ok(_) => r is Ok,
            Err(cyclic) => r matches Err(AppError::Cycle(m)) && m@ == cycle_message(repos@, cyclic),
        },
{
    let mut nodes: Vec<i64> = Vec::new();
    let mut k: usize = 0;
    while k < repos.len()
        invariant
            0 <= k <= repos@.len(),
            nodes@ == repo_ids(repos@).take(k as int),
        decreases repos.len() - k,
    {
        nodes.push(repos[k].id);
        k += 1;
        proof {
            assert(nodes@ =~= repo_ids(repos@).take(k as int));
        }
    }
    proof {
        assert(repo_ids(repos@).take(repos@.len() as int) =~= repo_ids(repos@));
    }
    let mut kept: Vec<(i64, i64)> = Vec::new();
    let mut j: usize = 0;
    proof {
        reveal(Seq::filter);
        assert(edges@.take(0) =~= Seq::<(i64, i64)>::empty());
    }
    while j < edges.len()
        invariant
            0 <= j <= edges@.len(),
            kept@ == edges@.take(j as int).filter(not_from(repository_id)),
        decreases edges.len() - j,
    {
        let e = edges[j];
        proof {
            assert(edges@.take(j as int + 1) =~= edges@.take(j as int).push(e));
            edges@.take(j as int).lemma_filter_push(e, not_from(repository_id));
        }
        if e.0 != repository_id {
            kept.push(e);
        }
        j += 1;
    }
    proof {
        assert(edges@.take(edges@.len() as int) =~= edges@);
    }
    let ghost base = kept@;
    let mut added: Vec<(i64, i64)> = Vec::new();
    let mut d: usize = 0;
    proof {
        assert(depends_on@.take(0) =~= Seq::<i64>::empty());
        assert(added@ =~= depends_on@.take(0).filter(other_than(repository_id)).map_values(
            |x: i64| (repository_id, x),
        ));
    }
    while d < depends_on.len()
        invariant
            0 <= d <= depends_on@.len(),
            added@ == depends_on@.take(d as int).filter(other_than(repository_id)).map_values(
                |x: i64| (repository_id, x),
            ),
        decreases depends_on.len() - d,
    {
        let dep = depends_on[d];
        let ghost before = depends_on@.take(d as int).filter(other_than(repository_id));
        proof {
            assert(depends_on@.take(d as int + 1) =~= depends_on@.take(d as int).push(dep));
            depends_on@.take(d as int).lemma_filter_push(dep, other_than(repository_id));
        }
        if dep != repository_id {
            added.push((repository_id, dep));
            proof {
                assert(added@ =~= before.push(dep).map_values(|x: i64| (repository_id, x)));
            }
        }
        d += 1;
    }
    proof {
        assert(depends_on@.take(depends_on@.len() as int) =~= depends_on@);
    }
    let mut all = kept;
    let mut a: usize = 0;
    let ghost added_all = added@;
    while a < added.len()
        invariant
            0 <= a <= added@.len(),
            added@ == added_all,
            all@ == base + added_all.take(a as int),
        decreases added.len() - a,
    {
        all.push(added[a]);
        a += 1;
        proof {
            assert(all@ =~= base + added_all.take(a as int));
        }
    }
    proof {
        assert(added_all.take(added_all.len() as int) =~= added_all);
        assert(all@ =~= proposed_edges(repository_id, depends_on@, edges@));
    }
    match topological_order(nodes.as_slice(), all.as_slice()) {
        Ok(_) => Ok(()),
        Err(cyclic) => Err(AppError::Cycle(cycle_names(repos, cyclic.as_slice()))),
    }
}

// ── Running a plan ────────────────────────────────────────────────────────────

/// The next thing an "Execute All" run does.
pub enum LaunchStep {
    /// Start this repository, then report whether it started.
    Start(i64),
    /// Every planned repository has been tried.
    Finished,
}

/// The progress of an "Execute All" run: repositories are started one at a time, in plan
/// order, waiting the configured delay between consecutive starts.
pub struct LaunchRun {
    order: Vec<i64>,
    next: usize,
    started: Vec<i64>,
    enabled_ids: Vec<i64>,
}

impl LaunchRun {
    pub closed spec fn order(&self) -> Seq<i64> {
        self.order@
    }

    pub closed spec fn position(&self) -> nat {
        self.next as nat
    }

    pub closed spec fn started(&self) -> Seq<i64> {
        self.started@
    }

    pub closed spec fn enabled(&self) -> Seq<i64> {
        self.enabled_ids@
    }

    pub closed spec fn well_formed(&self) -> bool {
        self.next <= self.order@.len()
    }

    /// A run that has started nothing yet.
    pub fn new(plan: LaunchPlan) -> (r: Self)
        ensures
            r.well_formed(),
            r.order() == plan.order@,
            r.position() == 0,
            r.started() == Seq::<i64>::empty(),
            r.enabled() == plan.enabled_ids@,
    {
        LaunchRun { order: plan.order, next: 0, started: Vec::new(), enabled_ids: plan.enabled_ids }
    }

    /// The next repository to start, or `Finished` once every planned one has been tried.
    pub fn next_step(&self) -> (r: LaunchStep)
        requires
            self.well_formed(),
        ensures
            self.position() < self.order().len() ==> r == LaunchStep::Start(
                self.order()[self.position() as int],
            ),
            self.position() >= self.order().len() ==> r == LaunchStep::Finished,
    {
        if self.next < self.order.len() {
            LaunchStep::Start(self.order[self.next])
        } else {
            LaunchStep::Finished
        }
    }

    /// Records whether the repository just tried started; moves on to the next one.
    pub fn record_start(&mut self, started_ok: bool)
        requires
            old(self).well_formed(),
            old(self).position() < old(self).order().len(),
        ensures
            final(self).well_formed(),
            final(self).order() == old(self).order(),
            final(self).enabled() == old(self).enabled(),
            final(self).position() == old(self).position() + 1,
            final(self).started() == if started_ok {
                old(self).started().push(old(self).order()[old(self).position() as int])
            } else {
                old(self).started()
            },
    {
        assert(self.next < self.order.len());
        if started_ok {
            let id = self.order[self.next];
            self.started.push(id);
        }
        self.next = self.next + 1;
    }

    /// Whether to wait the launch delay before the next start: only between starts, never
    /// after the last one.
    pub fn wait_before_next(&self) -> (r: bool)
        requires
            self.well_formed(),
        ensures
            r == (0 < self.position() < self.order().len()),
    {
        0 < self.next && self.next < self.order.len()
    }

    /// The terminal status of the run's history row: `failed` when nothing started,
    /// `completed` otherwise.
    pub fn final_status(&self) -> (r: &'static str)
        ensures
            r@ == (if self.started().len() == 0 {
                "failed"@
            } else {
                "completed"@
            }),
    {
        if self.started.len() == 0 {
            "failed"
        } else {
            "completed"
        }
    }

    /// The run's outcome: what started, and every enabled repository that did not.
    pub fn result(&self) -> (r: ExecuteResult)
        ensures
            r.started@ == self.started(),
            r.skipped@ == self.enabled().filter(not_in(self.started())),
    {
        let mut skipped: Vec<i64> = Vec::new();
        let mut i: usize = 0;
        proof {
            reveal(Seq::filter);
            assert(self.enabled_ids@.take(0) =~= Seq::<i64>::empty());
        }
        while i < self.enabled_ids.len()
            invariant
                0 <= i <= self.enabled_ids@.len(),
                skipped@ == self.enabled_ids@.take(i as int).filter(not_in(self.started@)),
            decreases self.enabled_ids.len() - i,
        {
            let id = self.enabled_ids[i];
            proof {
                assert(self.enabled_ids@.take(i as int + 1) =~= self.enabled_ids@.take(i as int).push(id));
                self.enabled_ids@.take(i as int).lemma_filter_push(id, not_in(self.started@));
            }
            if !vec_contains(&self.started, id) {
                skipped.push(id);
            }
            i += 1;
        }
        proof {
            assert(self.enabled_ids@.take(self.enabled_ids@.len() as int) =~= self.enabled_ids@);
        }
        let mut started: Vec<i64> = Vec::new();
        let mut k: usize = 0;
        while k < self.started.len()
            invariant
                0 <= k <= self.started@.len(),
                started@ == self.started@.take(k as int),
            decreases self.started.len() - k,
        {
            started.push(self.started[k]);
            k += 1;
            proof {
                assert(started@ =~= self.started@.take(k as int));
            }
        }
        proof {
            assert(self.started@.take(self.started@.len() as int) =~= self.started@);
        }
        ExecuteResult { started, skipped }
    }
}

fn slice_contains(s: &[i64], x: i64) -> (r: bool)
    ensures
        r == s@.contains(x),
{
    let mut i: usize = 0;
    while i < s.len()
        invariant
            0 <= i <= s.len(),
            forall|k: int| 0 <= k < i ==> s@[k] != x,
        decreases s.len() - i,
    {
        if s[i] == x {
            return true;
        }
        i += 1;
    }
    false
}

fn is_ready(nodes: &[i64], edges: &[(i64, i64)], n: i64, done: &Vec<i64>) -> (r: bool)
    requires
        nodes@.contains(n),
    ensures
        r == ready(nodes@, edges@, n, done@.to_set()),
{
    let mut j: usize = 0;
    while j < edges.len()
        invariant
            0 <= j <= edges.len(),
            nodes@.contains(n),
            forall|k: int|
                #![trigger edges@[k]]
                0 <= k < j && edges@[k].0 == n && is_constraint(nodes@, edges@[k])
                    ==> done@.to_set().contains(edges@[k].1),
        decreases edges.len() - j,
    {
        let (a, b) = edges[j];
        if a == n && b != n && slice_contains(nodes, b) && !slice_contains(done.as_slice(), b) {
            assert(edges@[j as int].0 == n && is_constraint(nodes@, edges@[j as int]));
            return false;
        }
        j += 1;
    }
    true
}

/// A duplicate-free sequence drawn from `t` is no longer than `t`.
proof fn lemma_distinct_subset_len(s: Seq<i64>, t: Seq<i64>)
    requires
        s.no_duplicates(),
        forall|k: int| 0 <= k < s.len() ==> t.contains(s[k]),
    ensures
        s.len() <= t.len(),
{
    s.unique_seq_to_set();
    t.lemma_cardinality_of_set();
    assert(s.to_set().subset_of(t.to_set()));
    lemma_len_subset(s.to_set(), t.to_set());
}

/// Computes a launch order over `nodes` that respects the dependency `edges`.
/// Each edge is `(dependent, depends_on)`: `dependent` must be launched after `depends_on`.
/// Self-edges, duplicate edges and edges with an endpoint outside `nodes` impose nothing.
/// Ties keep the order of `nodes`. When some nodes can never be emitted, returns them
/// (in the order of `nodes`) as the error.
pub fn topological_order(nodes: &[i64], edges: &[(i64, i64)]) -> (result: Result<
    Vec<i64>,
    Vec<i64>,
>)
    ensures
        match result {
            Ok(order) => topo_spec(nodes@, edges@) == Ok::<Seq<i64>, Seq<i64>>(order@),
            Err(cyclic) => topo_spec(nodes@, edges@) == Err::<Seq<i64>, Seq<i64>>(cyclic@),
        },
{
    let mut order: Vec<i64> = Vec::new();
    let ghost mut rounds: nat = 0;
    proof {
        assert(order@.to_set() =~= Set::<i64>::empty());
    }
    loop
        invariant
            launch_order(nodes@, edges@) == order@ + passes(
                nodes@,
                edges@,
                order@.to_set(),
                (nodes@.len() - rounds) as nat,
            ),
            rounds <= order.len(),
            order.len() <= nodes.len(),
            order@.no_duplicates(),
            forall|k: int| 0 <= k < order.len() ==> nodes@.contains(#[trigger] order@[k]),
        ensures
            launch_order(nodes@, edges@) == order@,
        decreases nodes.len() - order.len(),
    {
        let ghost start = order@;
        let start_len = order.len();
        let mut i: usize = 0;
        proof {
            assert(order@.subrange(start_len as int, order.len() as int) =~= Seq::<i64>::empty());
            assert(order@.subrange(0, start_len as int) =~= start);
        }
        while i < nodes.len()
            invariant
                0 <= i <= nodes.len(),
                start_len == start.len(),
                start_len <= order.len(),
                order@.subrange(0, start_len as int) == start,
                sweep(nodes@, edges@, start.to_set(), 0) == order@.subrange(
                    start_len as int,
                    order.len() as int,
                ) + sweep(nodes@, edges@, order@.to_set(), i as nat),
                order@.no_duplicates(),
                forall|k: int| 0 <= k < order.len() ==> nodes@.contains(#[trigger] order@[k]),
            decreases nodes.len() - i,
        {
            let n = nodes[i];
            let ghost before = order@;
            if !slice_contains(order.as_slice(), n) && is_ready(nodes, edges, n, &order) {
                proof {
                    before.lemma_push_to_set_commute(n);
                }
                order.push(n);
                proof {
                    assert(order@.subrange(0, start_len as int) =~= before.subrange(
                        0,
                        start_len as int,
                    ));
                    assert(order@.subrange(start_len as int, order.len() as int) =~= before.subrange(
                        start_len as int,
                        before.len() as int,
                    ).push(n));
                    assert(seq![n] + sweep(nodes@, edges@, order@.to_set(), (i + 1) as nat)
                        =~= sweep(nodes@, edges@, before.to_set(), i as nat));
                    assert(order@.subrange(start_len as int, order.len() as int) + sweep(
                        nodes@,
                        edges@,
                        order@.to_set(),
                        (i + 1) as nat,
                    ) =~= before.subrange(start_len as int, before.len() as int) + sweep(
                        nodes@,
                        edges@,
                        before.to_set(),
                        i as nat,
                    ));
                    assert forall|k: int| 0 <= k < order.len() implies nodes@.contains(
                        #[trigger] order@[k],
                    ) by {
                        if k < before.len() {
                            assert(order@[k] == before[k]);
                        } else {
                            assert(order@[k] == nodes@[i as int]);
                        }
                    }
                }
            }
            i += 1;
        }
        if order.len() == start_len {
            proof {
                assert(order@ =~= start);
                assert(sweep(nodes@, edges@, start.to_set(), 0) =~= Seq::<i64>::empty());
                assert(order@ + passes(
                    nodes@,
                    edges@,
                    order@.to_set(),
                    (nodes@.len() - rounds) as nat,
                ) =~= order@);
            }
            break ;
        }
        proof {
            lemma_distinct_subset_len(order@, nodes@);
            let s = order@.subrange(start_len as int, order.len() as int);
            assert(order@ =~= start + s);
            assert(start.to_set() + s.to_set() =~= order@.to_set()) by {
                assert forall|x: i64| #[trigger]
                    order@.to_set().contains(x) implies (start.to_set() + s.to_set()).contains(x) by {
                    let k = choose|k: int| 0 <= k < order@.len() && order@[k] == x;
                    if k < start_len {
                        assert(start[k] == x);
                    } else {
                        assert(s[k - start_len] == x);
                    }
                }
                assert forall|x: i64| #[trigger]
                    (start.to_set() + s.to_set()).contains(x) implies order@.to_set().contains(x) by {
                    if start.to_set().contains(x) {
                        let k = choose|k: int| 0 <= k < start.len() && start[k] == x;
                        assert(order@[k] == x);
                    } else {
                        let k = choose|k: int| 0 <= k < s.len() && s[k] == x;
                        assert(order@[start_len + k] == x);
                    }
                }
            }
            let f = (nodes@.len() - rounds) as nat;
            assert(f > 0);
            assert(passes(nodes@, edges@, start.to_set(), f) == s + passes(
                nodes@,
                edges@,
                order@.to_set(),
                (f - 1) as nat,
            ));
            assert(start + (s + passes(nodes@, edges@, order@.to_set(), (f - 1) as nat)) =~= order@
                + passes(nodes@, edges@, order@.to_set(), (f - 1) as nat));
            rounds = rounds + 1;
        }
    }
    if order.len() == nodes.len() {
        Ok(order)
    } else {
        let ghost emitted = order@;
        let mut cyclic: Vec<i64> = Vec::new();
        let mut i: usize = 0;
        proof {
            assert(nodes@.take(0) =~= Seq::<i64>::empty());
            reveal(Seq::filter);
        }
        while i < nodes.len()
            invariant
                0 <= i <= nodes.len(),
                order@ == emitted,
                cyclic@ == nodes@.take(i as int).filter(not_in(emitted)),
            decreases nodes.len() - i,
        {
            let n = nodes[i];
            proof {
                assert(nodes@.take(i as int + 1) =~= nodes@.take(i as int).push(n));
                nodes@.take(i as int).lemma_filter_push(n, not_in(emitted));
            }
            if !slice_contains(order.as_slice(), n) {
                cyclic.push(n);
            }
            i += 1;
        }
        proof {
            assert(nodes@.take(nodes@.len() as int) =~= nodes@);
        }
        Err(cyclic)
    }
}

/// A repository takes part in "Execute All" exactly when it is enabled and either has a
/// command override or has a launch line (from a detected script or its toolchain's default
/// command): every enabled repository that can be launched is launchable.
pub proof fn law_launchable_iff_launch_line(r: Repository)
    ensures
        launchable(r) <==> (r.enabled == 1 && (r.command is Some || command_line(r) is Some)),
        r.enabled == 1 && command_line(r) is Some ==> launchable(r),
{
    if r.command is None {
        law_launch_line_without_override(r);
    } else if non_empty(r.command) is None {
        law_launch_line_without_override(r);
    }
}

/// An enabled repository with a launch line and no stored dependency of its own can always
/// run: an "Execute All" run starts it.
pub proof fn law_unblocked_launchable_repository_runs(
    repos: Seq<Repository>,
    edges: Seq<(i64, i64)>,
    k: int,
)
    requires
        0 <= k < repos.len(),
        repos[k].enabled == 1,
        command_line(repos[k]) is Some,
        forall|j: int| 0 <= j < edges.len() ==> #[trigger] edges[j].0 != repos[k].id,
    ensures
        runnable_set(repos, edges).contains(repos[k].id),
{
    let id = repos[k].id;
    law_launchable_iff_launch_line(repos[k]);
    let s = set![id];
    assert(s.subset_of(launchable_ids(repos))) by {
        assert forall|x: i64| s.contains(x) implies launchable_ids(repos).contains(x) by {
            assert(repos[k].id == x && launchable(repos[k]));
        }
    }
    assert(dependency_closed(s, edges));
    assert(s.subset_of(launchable_ids(repos)) && dependency_closed(s, edges) && s.contains(id));
}

} // verus!

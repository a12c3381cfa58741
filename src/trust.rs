//! Trust-set computation: a bounded relaxation over current trust edges,
//! rooted at one identity, followed by the distrust override.
use vstd::prelude::*;
use crate::level::{TrustLevel, trust_rank, trust_min_spec};
use crate::proofs::{Id, TrustProof, is_current_trust, current_trust_indices};

verus! {

/// Per-hop costs of following a trust edge, and the largest total distance admitted.
/// Edges at level `NoTrust` or `Distrust` are never followed.
#[derive(Clone, Copy, Debug, PartialEq, Eq, Structural)]
pub struct DistanceParams {
    pub max_distance: u64,
    pub high_cost: u64,
    pub medium_cost: u64,
    pub low_cost: u64,
}

/// Cost of following an edge labelled `l`, or `None` where it is not followed.
pub open spec fn edge_cost(p: DistanceParams, l: TrustLevel) -> Option<u64> {
    match l {
        TrustLevel::High => Some(p.high_cost),
        TrustLevel::Medium => Some(p.medium_cost),
        TrustLevel::Low => Some(p.low_cost),
        _ => None,
    }
}

impl DistanceParams {
    pub fn cost(&self, l: TrustLevel) -> (r: Option<u64>)
        ensures
            r == edge_cost(*self, l),
    {
        match l {
            TrustLevel::High => Some(self.high_cost),
            TrustLevel::Medium => Some(self.medium_cost),
            TrustLevel::Low => Some(self.low_cost),
            _ => None,
        }
    }
}

/// A current trust statement, reduced to what propagation reads.
#[derive(Clone, Copy, Debug, PartialEq, Eq, Structural)]
pub struct Edge {
    pub from: Id,
    pub to: Id,
    pub level: TrustLevel,
}

pub open spec fn edge_of(p: TrustProof) -> Edge {
    Edge { from: p.from, to: p.to, level: p.level }
}

/// `e` is the edge of some current trust proof of `proofs`.
pub open spec fn edge_of_current(proofs: Seq<TrustProof>, e: Edge) -> bool {
    exists|i: int| is_current_trust(proofs, i) && e == edge_of(proofs[i])
}

/// An identity reached from the root.
#[derive(Clone, Copy)]
pub struct TrustEntry {
    pub id: Id,
    pub distance: u64,
    /// Level carried along the path, before the distrust override.
    pub level: TrustLevel,
    pub distrusted: bool,
    /// The edge that last lowered this entry's distance.
    pub via_edge: usize,
    /// The entry that edge starts from.
    pub via_entry: usize,
    /// Length of the path that set the distance.
    pub hops: Ghost<nat>,
}

/// Result of a trust-set computation: the edges it followed and the identities reached.
pub struct TrustSet {
    pub root: Id,
    pub params: DistanceParams,
    /// The edges of the current trust proofs.
    pub edges: Vec<Edge>,
    /// The identities that an authoritative distrust marks.
    pub distrusted: Vec<Id>,
    /// The edges propagation follows: those not starting at a distrusted identity.
    pub followed: Vec<Edge>,
    pub entries: Vec<TrustEntry>,
}

pub open spec fn distinct_ids(es: Seq<TrustEntry>) -> bool {
    forall|a: int, b: int| 0 <= a < es.len() && 0 <= b < es.len() && a != b ==> es[a].id != es[b].id
}

pub open spec fn present(es: Seq<TrustEntry>, id: Id) -> bool {
    exists|v: int| 0 <= v < es.len() && #[trigger] es[v].id == id
}

/// Some entry for `id` lies within distance `d`.
pub open spec fn reaches_within(es: Seq<TrustEntry>, id: Id, d: int) -> bool {
    exists|v: int| 0 <= v < es.len() && #[trigger] es[v].id == id && es[v].distance <= d
}

/// The root is the first entry, at distance zero and full trust.
pub open spec fn rooted(es: Seq<TrustEntry>, root: Id) -> bool {
    es.len() >= 1 && es[0].id == root && es[0].distance == 0 && es[0].level == TrustLevel::High
}

/// Entry `i` is the root, or is reached through an edge from another entry whose distance
/// plus the edge's cost is below its own, or equal to it over a shorter path with its level
/// the lower of that entry's and the edge's; its level is never above the edge's.
pub open spec fn justified(edges: Seq<Edge>, p: DistanceParams, es: Seq<TrustEntry>, i: int) -> bool {
    i == 0 || {
        let e = es[i];
        let k = e.via_edge as int;
        let u = e.via_entry as int;
        &&& 0 <= k < edges.len()
        &&& 0 <= u < es.len()
        &&& edges[k].to == e.id
        &&& edges[k].from == es[u].id
        &&& edge_cost(p, edges[k].level) is Some
        &&& (es[u].distance + edge_cost(p, edges[k].level)->0 < e.distance || (es[u].distance
            + edge_cost(p, edges[k].level)->0 == e.distance && es[u].hops@ < e.hops@ && e.level
            == trust_min_spec(es[u].level, edges[k].level)))
        &&& trust_rank(e.level) <= trust_rank(edges[k].level)
    }
}

/// Following edge `k` from any entry cannot shorten the distance to its target.
pub open spec fn relaxed(edges: Seq<Edge>, p: DistanceParams, es: Seq<TrustEntry>, k: int) -> bool {
    match edge_cost(p, edges[k].level) {
        None => true,
        Some(c) => forall|u: int|
            0 <= u < es.len() && #[trigger] es[u].id == edges[k].from && es[u].distance + c
                <= p.max_distance ==> reaches_within(es, edges[k].to, es[u].distance + c),
    }
}

/// What the relaxation establishes about its entries.
pub open spec fn propagated(
    root: Id,
    edges: Seq<Edge>,
    p: DistanceParams,
    es: Seq<TrustEntry>,
) -> bool {
    &&& rooted(es, root)
    &&& distinct_ids(es)
    &&& forall|i: int| 0 <= i < es.len() ==> #[trigger] es[i].distance <= p.max_distance
    &&& forall|i: int| 0 <= i < es.len() ==> justified(edges, p, es, i)
    &&& forall|k: int| 0 <= k < edges.len() ==> relaxed(edges, p, es, k)
}

/// The edges followed from `edges` when the identities of `ds` are distrusted: every edge
/// that does not start at a distrusted identity, and no other.
pub open spec fn follows(edges: Seq<Edge>, ds: Seq<Id>, followed: Seq<Edge>) -> bool {
    &&& forall|k: int|
        0 <= k < followed.len() ==> edges.contains(#[trigger] followed[k]) && !ds.contains(
            followed[k].from,
        )
    &&& forall|k: int| 0 <= k < edges.len() && !ds.contains(#[trigger] edges[k].from) ==> followed.contains(edges[k])
}

/// Edge `k` is an authoritative distrust: a `Distrust` edge whose author is reached, is not
/// itself distrusted, and carries a level of at least `Medium`.
pub open spec fn authoritative(edges: Seq<Edge>, es: Seq<TrustEntry>, ds: Seq<Id>, k: int) -> bool {
    &&& edges[k].level == TrustLevel::Distrust
    &&& exists|u: int|
        0 <= u < es.len() && #[trigger] es[u].id == edges[k].from && !ds.contains(es[u].id)
            && trust_rank(es[u].level) >= 3
}

/// Every authoritative distrust toward an identity other than the root marks it.
pub open spec fn distrust_closed(edges: Seq<Edge>, es: Seq<TrustEntry>, ds: Seq<Id>, root: Id) -> bool {
    forall|k: int|
        0 <= k < edges.len() && #[trigger] authoritative(edges, es, ds, k) && edges[k].to != root
            ==> ds.contains(edges[k].to)
}

/// Every marked identity is not the root, and some `Distrust` edge points at it.
pub open spec fn distrust_grounded(edges: Seq<Edge>, ds: Seq<Id>, root: Id) -> bool {
    forall|j: int|
        0 <= j < ds.len() ==> #[trigger] ds[j] != root && exists|k: int|
            0 <= k < edges.len() && edges[k].level == TrustLevel::Distrust && #[trigger] edges[k].to
                == ds[j]
}

pub open spec fn dist_sum(s: Seq<TrustEntry>) -> nat
    decreases s.len(),
{
    if s.len() == 0 {
        0
    } else {
        dist_sum(s.drop_last()) + s.last().distance as nat
    }
}

pub open spec fn count_false(s: Seq<bool>) -> nat
    decreases s.len(),
{
    if s.len() == 0 {
        0
    } else {
        count_false(s.drop_last()) + if s.last() { 0nat } else { 1nat }
    }
}

proof fn lemma_dist_sum_push(s: Seq<TrustEntry>, e: TrustEntry)
    ensures
        dist_sum(s.push(e)) == dist_sum(s) + e.distance,
{
    assert(s.push(e).drop_last() =~= s);
}

proof fn lemma_dist_sum_update(s: Seq<TrustEntry>, i: int, e: TrustEntry)
    requires
        0 <= i < s.len(),
    ensures
        dist_sum(s.update(i, e)) + s[i].distance == dist_sum(s) + e.distance,
    decreases s.len(),
{
    if i == s.len() - 1 {
        assert(s.update(i, e).drop_last() =~= s.drop_last());
    } else {
        assert(s.update(i, e).drop_last() =~= s.drop_last().update(i, e));
        lemma_dist_sum_update(s.drop_last(), i, e);
    }
}

proof fn lemma_count_false_set(s: Seq<bool>, i: int)
    requires
        0 <= i < s.len(),
        !s[i],
    ensures
        count_false(s.update(i, true)) + 1 == count_false(s),
    decreases s.len(),
{
    if i == s.len() - 1 {
        assert(s.update(i, true).drop_last() =~= s.drop_last());
    } else {
        assert(s.update(i, true).drop_last() =~= s.drop_last().update(i, true));
        lemma_count_false_set(s.drop_last(), i);
    }
}

/// Position of the entry for `id`, if any.
pub(crate) fn find_entry(es: &Vec<TrustEntry>, id: Id) -> (r: Option<usize>)
    ensures
        match r {
            Some(i) => i < es.len() && es@[i as int].id == id,
            None => !present(es@, id),
        },
{
    let mut i: usize = 0;
    while i < es.len()
        invariant
            i <= es.len(),
            forall|j: int| 0 <= j < i ==> es@[j].id != id,
        decreases es.len() - i,
    {
        if es[i].id == id {
            return Some(i);
        }
        i = i + 1;
    }
    None
}


pub open spec fn relax_measure(p: DistanceParams, es: Seq<TrustEntry>, made: Seq<bool>) -> int {
    count_false(made) * (p.max_distance + 1) + dist_sum(es)
}

/// Relaxes the edges until none shortens a distance.
fn propagate(root: Id, edges: &Vec<Edge>, p: &DistanceParams) -> (es: Vec<TrustEntry>)
    ensures
        propagated(root, edges@, *p, es@),
{
    let mut es: Vec<TrustEntry> = Vec::new();
    es.push(
        TrustEntry {
            id: root,
            distance: 0,
            level: TrustLevel::High,
            distrusted: false,
            via_edge: 0,
            via_entry: 0,
            hops: Ghost(0),
        },
    );
    let mut made: Vec<bool> = Vec::new();
    let mut z: usize = 0;
    while z < edges.len()
        invariant
            z <= edges.len(),
            made.len() == z,
            forall|k: int| 0 <= k < z ==> !made@[k],
        decreases edges.len() - z,
    {
        made.push(false);
        z = z + 1;
    }
    let mut stable = false;
    while !stable
        invariant
            made.len() == edges.len(),
            rooted(es@, root),
            distinct_ids(es@),
            forall|i: int| 0 <= i < es.len() ==> #[trigger] es@[i].distance <= p.max_distance,
            forall|i: int| 0 <= i < es.len() ==> justified(edges@, *p, es@, i),
            forall|k: int| 0 <= k < made.len() && #[trigger] made@[k] ==> present(es@, edges@[k].to),
            stable ==> forall|k: int| 0 <= k < edges.len() ==> relaxed(edges@, *p, es@, k),
        decreases relax_measure(*p, es@, made@) + if stable { 0int } else { 1int },
    {
        let ghost es0 = es@;
        let ghost m0 = relax_measure(*p, es@, made@);
        let mut changed = false;
        let mut k: usize = 0;
        while k < edges.len()
            invariant
                k <= edges.len(),
                made.len() == edges.len(),
                rooted(es@, root),
                distinct_ids(es@),
                forall|i: int| 0 <= i < es.len() ==> #[trigger] es@[i].distance <= p.max_distance,
                forall|i: int| 0 <= i < es.len() ==> justified(edges@, *p, es@, i),
                forall|j: int| 0 <= j < made.len() && #[trigger] made@[j] ==> present(es@, edges@[j].to),
                changed ==> relax_measure(*p, es@, made@) < m0,
                !changed ==> relax_measure(*p, es@, made@) == m0 && es@ == es0,
                !changed ==> forall|j: int| 0 <= j < k ==> relaxed(edges@, *p, es@, j),
            decreases edges.len() - k,
        {
            let e = edges[k];
            let ghost before = es@;
            let ghost made_before = made@;
            match p.cost(e.level) {
                None => {},
                Some(c) => {
                    match find_entry(&es, e.from) {
                        None => {},
                        Some(u) => {
                            let du = es[u].distance;
                            let lu = es[u].level;
                            if c <= p.max_distance - du {
                                let d2 = du + c;
                                let lv = lu.min_with(&e.level);
                                let entry = TrustEntry {
                                    id: e.to,
                                    distance: d2,
                                    level: lv,
                                    distrusted: false,
                                    via_edge: k,
                                    via_entry: u,
                                    hops: Ghost(es@[u as int].hops@ + 1),
                                };
                                match find_entry(&es, e.to) {
                                    None => {
                                        es.push(entry);
                                        proof {
                                            assert(!made@[k as int]) by {
                                                if made@[k as int] {
                                                    assert(present(before, edges@[k as int].to));
                                                }
                                            }
                                            lemma_dist_sum_push(before, entry);
                                            lemma_count_false_set(made@, k as int);
                                        }
                                        made.set(k, true);
                                        proof {
                                            let cf = count_false(made@);
                                            assert((cf + 1) * (p.max_distance + 1) == cf * (
                                            p.max_distance + 1) + (p.max_distance + 1))
                                                by (nonlinear_arith);
                                            assert(es@[es.len() - 1] == entry);
                                            assert forall|j: int|
                                                0 <= j < made.len() && #[trigger] made@[j] implies present(
                                                es@,
                                                edges@[j].to,
                                            ) by {
                                                if j == k {
                                                    assert(es@[es.len() - 1].id == edges@[j].to);
                                                } else {
                                                    assert(made_before[j]);
                                                    assert(present(before, edges@[j].to));
                                                    let v = choose|v: int|
                                                        0 <= v < before.len() && #[trigger] before[v].id
                                                            == edges@[j].to;
                                                    assert(es@[v].id == edges@[j].to);
                                                }
                                            }
                                            assert forall|i: int| 0 <= i < es.len() implies justified(
                                                edges@,
                                                *p,
                                                es@,
                                                i,
                                            ) by {
                                                if i < before.len() {
                                                    assert(justified(edges@, *p, before, i));
                                                }
                                            }
                                            assert forall|a: int, b: int|
                                                0 <= a < es.len() && 0 <= b < es.len() && a != b
                                                    implies es@[a].id != es@[b].id by {
                                                if a < before.len() && b < before.len() {
                                                } else if a < before.len() {
                                                    assert(before[a].id == es@[a].id);
                                                } else {
                                                    assert(before[b].id == es@[b].id);
                                                }
                                            }
                                        }
                                        changed = true;
                                    },
                                    Some(v) => {
                                        if d2 < es[v].distance {
                                            es.set(v, entry);
                                            proof {
                                                lemma_dist_sum_update(before, v as int, entry);
                                                assert(v != u);
                                                assert forall|j: int|
                                                    0 <= j < made.len() && #[trigger] made@[j] implies present(
                                                    es@,
                                                    edges@[j].to,
                                                ) by {
                                                    assert(present(before, edges@[j].to));
                                                    let w = choose|w: int|
                                                        0 <= w < before.len() && #[trigger] before[w].id
                                                            == edges@[j].to;
                                                    assert(es@[w].id == edges@[j].to);
                                                }
                                                assert forall|i: int| 0 <= i < es.len() implies justified(
                                                    edges@,
                                                    *p,
                                                    es@,
                                                    i,
                                                ) by {
                                                    assert(justified(edges@, *p, before, i));
                                                }
                                            }
                                            changed = true;
                                        } else {
                                            proof {
                                                if !changed {
                                                    assert forall|uu: int|
                                                        0 <= uu < es.len() && #[trigger] es@[uu].id
                                                            == edges@[k as int].from && es@[uu].distance
                                                            + c <= p.max_distance implies reaches_within(
                                                        es@,
                                                        edges@[k as int].to,
                                                        es@[uu].distance + c,
                                                    ) by {
                                                        assert(uu == u);
                                                        assert(es@[v as int].id == edges@[k as int].to);
                                                    }
                                                }
                                            }
                                        }
                                    },
                                }
                            } else {
                                proof {
                                    assert forall|uu: int|
                                        0 <= uu < es.len() && #[trigger] es@[uu].id == edges@[k as int].from
                                        implies es@[uu].distance + c > p.max_distance by {
                                        assert(uu == u);
                                    }
                                }
                            }
                        },
                    }
                },
            }
            k = k + 1;
        }
        if !changed {
            stable = true;
        }
    }
    es
}


fn id_listed(v: &Vec<Id>, x: Id) -> (r: bool)
    ensures
        r == v@.contains(x),
{
    let mut i: usize = 0;
    while i < v.len()
        invariant
            i <= v.len(),
            forall|j: int| 0 <= j < i ==> v@[j] != x,
        decreases v.len() - i,
    {
        if v[i] == x {
            assert(v@[i as int] == x);
            return true;
        }
        i = i + 1;
    }
    false
}

/// The edges of `edges` that do not start at an identity of `ds`.
fn followed_edges(edges: &Vec<Edge>, ds: &Vec<Id>) -> (r: Vec<Edge>)
    ensures
        follows(edges@, ds@, r@),
{
    let mut r: Vec<Edge> = Vec::new();
    let mut k: usize = 0;
    while k < edges.len()
        invariant
            k <= edges.len(),
            forall|j: int|
                0 <= j < r.len() ==> edges@.contains(#[trigger] r@[j]) && !ds@.contains(r@[j].from),
            forall|j: int| 0 <= j < k && !ds@.contains(#[trigger] edges@[j].from) ==> r@.contains(edges@[j]),
        decreases edges.len() - k,
    {
        let e = edges[k];
        let ghost r0 = r@;
        if !id_listed(ds, e.from) {
            r.push(e);
            proof {
                assert(r@[r.len() - 1] == e);
                assert(edges@[k as int] == e);
                assert forall|j: int| 0 <= j < k + 1 && !ds@.contains(#[trigger] edges@[j].from) implies r@.contains(edges@[j]) by {
                    if j < k {
                        let w = choose|w: int| 0 <= w < r0.len() && r0[w] == edges@[j];
                        assert(r@[w] == edges@[j]);
                    }
                }
                assert forall|j: int| 0 <= j < r.len() implies edges@.contains(#[trigger] r@[j]) && !ds@.contains(r@[j].from) by {
                    if j == r.len() - 1 {
                        assert(edges@[k as int] == r@[j]);
                    } else {
                        assert(r@[j] == r0[j]);
                    }
                }
            }
        }
        k = k + 1;
    }
    r
}

/// Copies the propagated entries, marking those of `ds` as distrusted.
fn mark_distrusted(
    root: Id,
    edges: &Vec<Edge>,
    followed: &Vec<Edge>,
    params: &DistanceParams,
    ds: &Vec<Id>,
    base: &Vec<TrustEntry>,
) -> (entries: Vec<TrustEntry>)
    requires
        propagated(root, followed@, *params, base@),
        distrust_closed(edges@, base@, ds@, root),
    ensures
        propagated(root, followed@, *params, entries@),
        distrust_closed(edges@, entries@, ds@, root),
        forall|i: int|
            0 <= i < entries.len() ==> (#[trigger] entries@[i]).distrusted == ds@.contains(
                entries@[i].id,
            ),
{
    let params = *params;
    let mut entries: Vec<TrustEntry> = Vec::new();
    let mut i: usize = 0;
    while i < base.len()
        invariant
            i <= base.len(),
            entries.len() == i,
            propagated(root, followed@, params, base@),
            forall|j: int|
                0 <= j < i ==> (#[trigger] entries@[j]) == (TrustEntry {
                    distrusted: ds@.contains(base@[j].id),
                    ..base@[j]
                }),
        decreases base.len() - i,
    {
        let b = base[i];
        let d = id_listed(ds, b.id);
        entries.push(TrustEntry { distrusted: d, ..b });
        i = i + 1;
    }
    proof {
        let es = entries@;
        let edges = followed;
        assert forall|j: int| 0 <= j < es.len() implies #[trigger] es[j].id == base@[j].id
            && es[j].distance == base@[j].distance && es[j].level == base@[j].level
            && es[j].via_edge == base@[j].via_edge && es[j].via_entry == base@[j].via_entry
            && es[j].hops == base@[j].hops by {}
        assert forall|j: int| 0 <= j < es.len() implies justified(edges@, params, es, j) by {
            assert(justified(edges@, params, base@, j));
        }
        assert forall|kk: int| 0 <= kk < edges.len() implies relaxed(edges@, params, es, kk) by {
            assert(relaxed(edges@, params, base@, kk));
            match edge_cost(params, edges@[kk].level) {
                None => {},
                Some(c) => {
                    assert forall|u: int|
                        0 <= u < es.len() && #[trigger] es[u].id == edges@[kk].from && es[u].distance
                            + c <= params.max_distance implies reaches_within(
                        es,
                        edges@[kk].to,
                        es[u].distance + c,
                    ) by {
                        assert(base@[u].id == edges@[kk].from);
                        let v = choose|v: int|
                            0 <= v < base.len() && #[trigger] base@[v].id == edges@[kk].to
                                && base@[v].distance <= base@[u].distance + c;
                        assert(es[v].id == edges@[kk].to);
                    }
                },
            }
        }
    }
    proof {
        let es = entries@;
        assert forall|k: int|
            0 <= k < edges.len() && #[trigger] authoritative(edges@, es, ds@, k) && edges@[k].to
                != root implies ds@.contains(edges@[k].to) by {
            let u = choose|u: int|
                0 <= u < es.len() && #[trigger] es[u].id == edges@[k].from && !ds@.contains(es[u].id)
                    && trust_rank(es[u].level) >= 3;
            assert(base@[u].id == edges@[k].from);
            assert(authoritative(edges@, base@, ds@, k));
        }
    }
    entries
}

/// The edges of the current trust proofs of `proofs`.
fn current_edges(proofs: &Vec<TrustProof>) -> (edges: Vec<Edge>)
    ensures
        forall|k: int| 0 <= k < edges.len() ==> edge_of_current(proofs@, #[trigger] edges@[k]),
        forall|i: int| is_current_trust(proofs@, i) ==> edges@.contains(edge_of(proofs@[i])),
{
        let n = proofs.len();
        let idx = current_trust_indices(proofs);
        let mut edges: Vec<Edge> = Vec::new();
        let mut k: usize = 0;
        while k < idx.len()
            invariant
                k <= idx.len(),
                edges.len() == k,
                forall|j: int| 0 <= j < idx.len() ==> is_current_trust(proofs@, #[trigger] idx@[j] as int),
                forall|j: int| 0 <= j < k ==> #[trigger] edges@[j] == edge_of(proofs@[idx@[j] as int]),
            decreases idx.len() - k,
        {
            let pr = &proofs[idx[k]];
            edges.push(Edge { from: pr.from, to: pr.to, level: pr.level });
            k = k + 1;
        }
        proof {
            assert forall|i: int| is_current_trust(proofs@, i) implies edges@.contains(
                edge_of(proofs@[i]),
            ) by {
                assert(0 <= i < proofs@.len());
                assert((i as usize) as int == i);
                assert(idx@.contains(i as usize));
                let j = choose|j: int| 0 <= j < idx.len() && idx@[j] == i as usize;
                assert(idx@[j] as int == i);
                assert(edges@[j] == edge_of(proofs@[i]));
            }
            assert forall|k: int| 0 <= k < edges.len() implies edge_of_current(
                proofs@,
                #[trigger] edges@[k],
            ) by {
                let i = idx@[k] as int;
                assert(is_current_trust(proofs@, i) && edges@[k] == edge_of(proofs@[i]));
            }
        }
        edges
}

impl TrustSet {
    /// The entries were propagated over the edges that do not start at a distrusted
    /// identity; every authoritative distrust marks its target; each mark rests on a
    /// distrust edge; the root is never marked.
    pub open spec fn well_formed(&self) -> bool {
        &&& follows(self.edges@, self.distrusted@, self.followed@)
        &&& propagated(self.root, self.followed@, self.params, self.entries@)
        &&& distrust_closed(self.edges@, self.entries@, self.distrusted@, self.root)
        &&& distrust_grounded(self.edges@, self.distrusted@, self.root)
        &&& forall|i: int|
            0 <= i < self.entries.len() ==> (#[trigger] self.entries@[i]).distrusted
                == self.distrusted@.contains(self.entries@[i].id)
    }

    /// Level of `id` after the distrust override; `NoTrust` for an identity not reached.
    pub open spec fn effective_level_spec(&self, id: Id) -> TrustLevel {
        if present(self.entries@, id) {
            let i = choose|i: int| 0 <= i < self.entries.len() && #[trigger] self.entries@[i].id == id;
            if self.entries@[i].distrusted {
                TrustLevel::NoTrust
            } else {
                self.entries@[i].level
            }
        } else {
            TrustLevel::NoTrust
        }
    }

    /// Distance at which `id` was reached, if it was.
    pub open spec fn distance_spec(&self, id: Id) -> Option<u64> {
        if present(self.entries@, id) {
            let i = choose|i: int| 0 <= i < self.entries.len() && #[trigger] self.entries@[i].id == id;
            Some(self.entries@[i].distance)
        } else {
            None
        }
    }

    /// `id` was reached, is not distrusted, and its level is at least `t`.
    pub open spec fn trusted_at(&self, id: Id, t: TrustLevel) -> bool {
        present(self.entries@, id) && {
            let i = choose|i: int| 0 <= i < self.entries.len() && #[trigger] self.entries@[i].id == id;
            !self.entries@[i].distrusted && trust_rank(self.entries@[i].level) >= trust_rank(t)
        }
    }

    /// Whether `id` was reached, is not distrusted, and has level at least `t`.
    pub fn is_trusted(&self, id: Id, t: TrustLevel) -> (r: bool)
        requires
            self.well_formed(),
        ensures
            r == self.trusted_at(id, t),
    {
        match find_entry(&self.entries, id) {
            Some(i) => {
                proof {
                    let j = choose|j: int| 0 <= j < self.entries.len() && #[trigger] self.entries@[j].id == id;
                    assert(j == i);
                }
                !self.entries[i].distrusted && self.entries[i].level.at_least(&t)
            },
            None => false,
        }
    }

    /// The identities trusted at level `t` or above, each once.
    pub fn trusted_ids(&self, t: TrustLevel) -> (r: Vec<Id>)
        requires
            self.well_formed(),
        ensures
            forall|id: Id| r@.contains(id) <==> self.trusted_at(id, t),
            forall|a: int, b: int| 0 <= a < b < r.len() ==> r@[a] != r@[b],
    {
        let mut out: Vec<Id> = Vec::new();
        let mut i: usize = 0;
        while i < self.entries.len()
            invariant
                i <= self.entries.len(),
                self.well_formed(),
                forall|id: Id|
                    out@.contains(id) <==> (exists|j: int|
                        0 <= j < i && #[trigger] self.entries@[j].id == id
                            && !self.entries@[j].distrusted && trust_rank(self.entries@[j].level)
                            >= trust_rank(t)),
                forall|a: int, b: int| 0 <= a < b < out.len() ==> out@[a] != out@[b],
            decreases self.entries.len() - i,
        {
            let e = self.entries[i];
            let ghost o0 = out@;
            if !e.distrusted && e.level.at_least(&t) {
                out.push(e.id);
                proof {
                    assert forall|a: int| 0 <= a < o0.len() implies out@[a] != e.id by {
                        assert(o0.contains(o0[a]));
                        let j = choose|j: int|
                            0 <= j < i && #[trigger] self.entries@[j].id == o0[a]
                                && !self.entries@[j].distrusted && trust_rank(self.entries@[j].level)
                                >= trust_rank(t);
                        assert(j != i);
                    }
                    assert forall|id: Id| out@.contains(id) <==> (exists|j: int|
                        0 <= j < i + 1 && #[trigger] self.entries@[j].id == id
                            && !self.entries@[j].distrusted && trust_rank(self.entries@[j].level)
                            >= trust_rank(t)) by {
                        if o0.contains(id) {
                            let w = choose|w: int| 0 <= w < o0.len() && o0[w] == id;
                            assert(out@[w] == id);
                        }
                        if id == e.id {
                            assert(out@[o0.len() as int] == id);
                        }
                        if out@.contains(id) && id != e.id {
                            let w = choose|w: int| 0 <= w < out.len() && out@[w] == id;
                            assert(o0[w] == id);
                        }
                    }
                }
            } else {
                proof {
                    assert forall|id: Id| out@.contains(id) <==> (exists|j: int|
                        0 <= j < i + 1 && #[trigger] self.entries@[j].id == id
                            && !self.entries@[j].distrusted && trust_rank(self.entries@[j].level)
                            >= trust_rank(t)) by {
                        if exists|j: int|
                            0 <= j < i + 1 && #[trigger] self.entries@[j].id == id
                                && !self.entries@[j].distrusted && trust_rank(self.entries@[j].level)
                                >= trust_rank(t) {
                            let j = choose|j: int|
                                0 <= j < i + 1 && #[trigger] self.entries@[j].id == id
                                    && !self.entries@[j].distrusted && trust_rank(
                                    self.entries@[j].level,
                                ) >= trust_rank(t);
                            assert(j != i);
                        }
                    }
                }
            }
            i = i + 1;
        }
        proof {
            assert forall|id: Id| out@.contains(id) <==> self.trusted_at(id, t) by {
                if present(self.entries@, id) {
                    let c = choose|c: int| 0 <= c < self.entries.len() && #[trigger] self.entries@[c].id == id;
                    if out@.contains(id) {
                        let j = choose|j: int|
                            0 <= j < self.entries.len() && #[trigger] self.entries@[j].id == id
                                && !self.entries@[j].distrusted && trust_rank(self.entries@[j].level)
                                >= trust_rank(t);
                        assert(j == c);
                    }
                    if self.trusted_at(id, t) {
                        assert(self.entries@[c].id == id);
                    }
                }
            }
        }
        out
    }

    /// Computes the trust set of `root` over the current trust proofs of `proofs`.
    pub fn calculate(root: Id, proofs: &Vec<TrustProof>, params: DistanceParams) -> (r: TrustSet)
        ensures
            r.root == root,
            r.params == params,
            r.well_formed(),
            forall|k: int| 0 <= k < r.edges.len() ==> edge_of_current(proofs@, #[trigger] r.edges@[k]),
            forall|i: int| is_current_trust(proofs@, i) ==> r.edges@.contains(edge_of(proofs@[i])),
    {
        let edges = current_edges(proofs);
        let mut ds: Vec<Id> = Vec::new();
        let mut used: Vec<bool> = Vec::new();
        let mut z: usize = 0;
        while z < edges.len()
            invariant
                z <= edges.len(),
                used.len() == z,
                forall|k: int| 0 <= k < z ==> !used@[k],
            decreases edges.len() - z,
        {
            used.push(false);
            z = z + 1;
        }
        let mut followed = followed_edges(&edges, &ds);
        let mut es = propagate(root, &followed, &params);
        let mut stable = false;
        while !stable
            invariant
                used.len() == edges.len(),
                follows(edges@, ds@, followed@),
                propagated(root, followed@, params, es@),
                distrust_grounded(edges@, ds@, root),
                forall|k: int| 0 <= k < used.len() && #[trigger] used@[k] ==> ds@.contains(edges@[k].to),
                stable ==> distrust_closed(edges@, es@, ds@, root),
            decreases count_false(used@) + if stable { 0int } else { 1int },
        {
            let ghost c0 = count_false(used@);
            let ghost ds0 = ds@;
            let mut changed = false;
            let mut k: usize = 0;
            while k < edges.len()
                invariant
                    k <= edges.len(),
                    used.len() == edges.len(),
                    propagated(root, followed@, params, es@),
                    distrust_grounded(edges@, ds@, root),
                    forall|j: int| 0 <= j < used.len() && #[trigger] used@[j] ==> ds@.contains(edges@[j].to),
                    changed ==> count_false(used@) < c0,
                    !changed ==> count_false(used@) == c0 && ds@ == ds0,
                    !changed ==> forall|j: int|
                        0 <= j < k && #[trigger] authoritative(edges@, es@, ds@, j) && edges@[j].to
                            != root ==> ds@.contains(edges@[j].to),
                decreases edges.len() - k,
            {
                let e = edges[k];
                let ghost dsb = ds@;
                let ghost ub = used@;
                if e.level == TrustLevel::Distrust && e.to != root && !id_listed(&ds, e.to) {
                    match find_entry(&es, e.from) {
                        Some(u) => {
                            if !id_listed(&ds, e.from) && es[u].level.at_least(&TrustLevel::Medium) {
                                ds.push(e.to);
                                proof {
                                    assert(!used@[k as int]) by {
                                        if used@[k as int] {
                                            assert(dsb.contains(edges@[k as int].to));
                                        }
                                    }
                                    lemma_count_false_set(used@, k as int);
                                }
                                used.set(k, true);
                                proof {
                                    assert(ds@[ds.len() - 1] == e.to);
                                    assert forall|j: int| 0 <= j < used.len() && #[trigger] used@[j] implies ds@.contains(edges@[j].to) by {
                                        if j == k {
                                            assert(ds@[ds.len() - 1] == edges@[j].to);
                                        } else {
                                            assert(ub[j]);
                                            let w = choose|w: int| 0 <= w < dsb.len() && dsb[w] == edges@[j].to;
                                            assert(ds@[w] == edges@[j].to);
                                        }
                                    }
                                    assert forall|j: int| 0 <= j < ds.len() implies #[trigger] ds@[j] != root && exists|kk: int|
                                        0 <= kk < edges.len() && edges@[kk].level == TrustLevel::Distrust && #[trigger] edges@[kk].to
                                            == ds@[j] by {
                                        if j == ds.len() - 1 {
                                            assert(edges@[k as int].to == ds@[j]);
                                        } else {
                                            assert(ds@[j] == dsb[j]);
                                        }
                                    }
                                }
                                changed = true;
                            } else {
                                proof {
                                    assert(authoritative(edges@, es@, ds@, k as int) ==> false) by {
                                        if authoritative(edges@, es@, ds@, k as int) {
                                            let uu = choose|uu: int|
                                                0 <= uu < es.len() && #[trigger] es@[uu].id == edges@[k as int].from
                                                    && !ds@.contains(es@[uu].id) && trust_rank(es@[uu].level) >= 3;
                                            assert(uu == u);
                                        }
                                    }
                                }
                            }
                        },
                        None => {},
                    }
                }
                k = k + 1;
            }
            if changed {
                followed = followed_edges(&edges, &ds);
                es = propagate(root, &followed, &params);
            } else {
                stable = true;
            }
        }
        let entries = mark_distrusted(root, &edges, &followed, &params, &ds, &es);
        TrustSet { root, params, edges, distrusted: ds, followed, entries }
    }

    /// Level of `id` after the distrust override; `NoTrust` for an identity not reached.
    pub fn get_effective_trust_level(&self, id: Id) -> (r: TrustLevel)
        requires
            self.well_formed(),
        ensures
            r == self.effective_level_spec(id),
    {
        match find_entry(&self.entries, id) {
            Some(i) => {
                proof {
                    let j = choose|j: int| 0 <= j < self.entries.len() && #[trigger] self.entries@[j].id == id;
                    assert(j == i);
                }
                if self.entries[i].distrusted {
                    TrustLevel::NoTrust
                } else {
                    self.entries[i].level
                }
            },
            None => TrustLevel::NoTrust,
        }
    }

    /// Distance at which `id` was reached, if it was.
    pub fn distance(&self, id: Id) -> (r: Option<u64>)
        requires
            self.well_formed(),
        ensures
            r == self.distance_spec(id),
    {
        match find_entry(&self.entries, id) {
            Some(i) => {
                proof {
                    let j = choose|j: int| 0 <= j < self.entries.len() && #[trigger] self.entries@[j].id == id;
                    assert(j == i);
                }
                Some(self.entries[i].distance)
            },
            None => None,
        }
    }
}


/// The root of a trust set is always trusted at `High`, at distance zero.
pub proof fn lemma_root_fully_trusted(ts: TrustSet)
    requires
        ts.well_formed(),
    ensures
        ts.effective_level_spec(ts.root) == TrustLevel::High,
        ts.distance_spec(ts.root) == Some(0u64),
{
    let es = ts.entries@;
    assert(es[0].id == ts.root);
    assert(present(es, ts.root));
    let i = choose|i: int| 0 <= i < ts.entries.len() && #[trigger] es[i].id == ts.root;
    assert(i == 0);
}

/// An identity other than the root that an authoritative distrust points at (its author
/// reached, not distrusted, and at `Medium` or above) has effective level `NoTrust`,
/// whatever other paths reach it.
pub proof fn lemma_distrust_overrides(ts: TrustSet, k: int)
    requires
        ts.well_formed(),
        0 <= k < ts.edges.len(),
        authoritative(ts.edges@, ts.entries@, ts.distrusted@, k),
        ts.edges@[k].to != ts.root,
    ensures
        ts.effective_level_spec(ts.edges@[k].to) == TrustLevel::NoTrust,
{
    let es = ts.entries@;
    let id = ts.edges@[k].to;
    assert(ts.distrusted@.contains(id));
    if present(es, id) {
        let i = choose|i: int| 0 <= i < ts.entries.len() && #[trigger] es[i].id == id;
        assert(es[i].distrusted);
    }
}

/// No identity that an authoritative distrust marks passes trust on: no followed edge
/// starts at it.
pub proof fn lemma_distrusted_do_not_propagate(ts: TrustSet, k: int)
    requires
        ts.well_formed(),
        0 <= k < ts.followed.len(),
    ensures
        !ts.distrusted@.contains(ts.followed@[k].from),
        ts.edges@.contains(ts.followed@[k]),
{
}

/// `w` lists the positions of followed edges that lead from `root` to `to`.
pub open spec fn is_walk(edges: Seq<Edge>, p: DistanceParams, root: Id, w: Seq<int>, to: Id) -> bool
    decreases w.len(),
{
    if w.len() == 0 {
        to == root
    } else {
        let k = w.last();
        &&& 0 <= k < edges.len()
        &&& edge_cost(p, edges[k].level) is Some
        &&& edges[k].to == to
        &&& is_walk(edges, p, root, w.drop_last(), edges[k].from)
    }
}

/// Total cost of the edges of `w`.
pub open spec fn walk_cost(edges: Seq<Edge>, p: DistanceParams, w: Seq<int>) -> int
    decreases w.len(),
{
    if w.len() == 0 {
        0
    } else {
        walk_cost(edges, p, w.drop_last()) + edge_cost(p, edges[w.last()].level)->0
    }
}

proof fn lemma_entry_walk(
    root: Id,
    edges: Seq<Edge>,
    p: DistanceParams,
    es: Seq<TrustEntry>,
    i: int,
)
    requires
        propagated(root, edges, p, es),
        0 <= i < es.len(),
    ensures
        exists|w: Seq<int>|
            is_walk(edges, p, root, w, es[i].id) && #[trigger] walk_cost(edges, p, w)
                <= es[i].distance,
    decreases es[i].distance, es[i].hops@,
{
    if i == 0 {
        let w: Seq<int> = seq![];
        assert(is_walk(edges, p, root, w, es[i].id) && walk_cost(edges, p, w) <= es[i].distance);
    } else {
        assert(justified(edges, p, es, i));
        let u = es[i].via_entry as int;
        let k = es[i].via_edge as int;
        lemma_entry_walk(root, edges, p, es, u);
        let wu = choose|w: Seq<int>|
            is_walk(edges, p, root, w, es[u].id) && #[trigger] walk_cost(edges, p, w)
                <= es[u].distance;
        let w = wu.push(k);
        assert(w.drop_last() =~= wu);
        assert(is_walk(edges, p, root, w, es[i].id) && walk_cost(edges, p, w) <= es[i].distance);
    }
}

/// Every identity in a trust set is reached from the root by a walk over followed edges
/// whose cost is at most its distance, itself at most `max_distance`: an identity that
/// every walk reaches only beyond `max_distance` is left out.
pub proof fn lemma_reached_by_walk(ts: TrustSet, id: Id)
    requires
        ts.well_formed(),
        ts.distance_spec(id) is Some,
    ensures
        exists|w: Seq<int>|
            is_walk(ts.followed@, ts.params, ts.root, w, id) && #[trigger] walk_cost(
                ts.followed@,
                ts.params,
                w,
            ) <= ts.distance_spec(id)->0,
        ts.distance_spec(id)->0 <= ts.params.max_distance,
{
    let es = ts.entries@;
    let i = choose|i: int| 0 <= i < ts.entries.len() && #[trigger] es[i].id == id;
    lemma_entry_walk(ts.root, ts.followed@, ts.params, es, i);
}


proof fn lemma_walk_cost_prefix(edges: Seq<Edge>, p: DistanceParams, w: Seq<int>)
    requires
        w.len() > 0,
    ensures
        walk_cost(edges, p, w.drop_last()) <= walk_cost(edges, p, w),
{
}

proof fn lemma_walk_within(
    root: Id,
    edges: Seq<Edge>,
    p: DistanceParams,
    es: Seq<TrustEntry>,
    w: Seq<int>,
    to: Id,
)
    requires
        propagated(root, edges, p, es),
        is_walk(edges, p, root, w, to),
        walk_cost(edges, p, w) <= p.max_distance,
    ensures
        reaches_within(es, to, walk_cost(edges, p, w)),
    decreases w.len(),
{
    if w.len() == 0 {
        assert(es[0].id == to);
    } else {
        let k = w.last();
        let wp = w.drop_last();
        let from = edges[k].from;
        lemma_walk_cost_prefix(edges, p, w);
        lemma_walk_within(root, edges, p, es, wp, from);
        let u = choose|u: int| 0 <= u < es.len() && #[trigger] es[u].id == from && es[u].distance <= walk_cost(edges, p, wp);
        assert(relaxed(edges, p, es, k));
        let c = edge_cost(p, edges[k].level)->0;
        assert(es[u].distance + c <= walk_cost(edges, p, w));
        let v = choose|v: int| 0 <= v < es.len() && #[trigger] es[v].id == to && es[v].distance <= es[u].distance + c;
    }
}

/// Every identity that a walk over followed edges reaches within `max_distance` is in the
/// trust set, at a distance no greater than the walk's cost: one exactly at `max_distance`
/// is included.
pub proof fn lemma_walk_included(ts: TrustSet, w: Seq<int>, id: Id)
    requires
        ts.well_formed(),
        is_walk(ts.followed@, ts.params, ts.root, w, id),
        walk_cost(ts.followed@, ts.params, w) <= ts.params.max_distance,
    ensures
        ts.distance_spec(id) is Some,
        ts.distance_spec(id)->0 <= walk_cost(ts.followed@, ts.params, w),
{
    let es = ts.entries@;
    lemma_walk_within(ts.root, ts.followed@, ts.params, es, w, id);
    let v = choose|v: int| 0 <= v < es.len() && #[trigger] es[v].id == id && es[v].distance <= walk_cost(ts.followed@, ts.params, w);
    assert(present(es, id));
    let i = choose|i: int| 0 <= i < ts.entries.len() && #[trigger] es[i].id == id;
    assert(i == v);
}


proof fn lemma_walk_transfer(
    e1: Seq<Edge>,
    e2: Seq<Edge>,
    p: DistanceParams,
    root: Id,
    w1: Seq<int>,
    to: Id,
)
    requires
        is_walk(e1, p, root, w1, to),
        forall|k: int| 0 <= k < e1.len() ==> e2.contains(#[trigger] e1[k]),
    ensures
        exists|w2: Seq<int>|
            is_walk(e2, p, root, w2, to) && #[trigger] walk_cost(e2, p, w2) == walk_cost(e1, p, w1),
    decreases w1.len(),
{
    if w1.len() == 0 {
        let w2: Seq<int> = seq![];
        assert(is_walk(e2, p, root, w2, to) && walk_cost(e2, p, w2) == walk_cost(e1, p, w1));
    } else {
        let k = w1.last();
        lemma_walk_transfer(e1, e2, p, root, w1.drop_last(), e1[k].from);
        let w2p = choose|w2: Seq<int>|
            is_walk(e2, p, root, w2, e1[k].from) && #[trigger] walk_cost(e2, p, w2) == walk_cost(
                e1,
                p,
                w1.drop_last(),
            );
        assert(e2.contains(e1[k]));
        let k2 = choose|k2: int| 0 <= k2 < e2.len() && e2[k2] == e1[k];
        let w2 = w2p.push(k2);
        assert(w2.drop_last() =~= w2p);
        assert(is_walk(e2, p, root, w2, to) && walk_cost(e2, p, w2) == walk_cost(e1, p, w1));
    }
}

/// Trust sets from one root with the same parameters, the second following a superset of
/// the edges the first follows: every identity of the first is in the second, no farther
/// from the root.
pub proof fn lemma_more_edges_no_farther(ts1: TrustSet, ts2: TrustSet, id: Id)
    requires
        ts1.well_formed(),
        ts2.well_formed(),
        ts1.root == ts2.root,
        ts1.params == ts2.params,
        forall|k: int| 0 <= k < ts1.followed.len() ==> ts2.followed@.contains(#[trigger] ts1.followed@[k]),
        ts1.distance_spec(id) is Some,
    ensures
        ts2.distance_spec(id) is Some,
        ts2.distance_spec(id)->0 <= ts1.distance_spec(id)->0,
{
    lemma_reached_by_walk(ts1, id);
    let w1 = choose|w: Seq<int>|
        is_walk(ts1.followed@, ts1.params, ts1.root, w, id) && #[trigger] walk_cost(
            ts1.followed@,
            ts1.params,
            w,
        ) <= ts1.distance_spec(id)->0;
    lemma_walk_transfer(ts1.followed@, ts2.followed@, ts1.params, ts1.root, w1, id);
    let w2 = choose|w2: Seq<int>|
        is_walk(ts2.followed@, ts1.params, ts1.root, w2, id) && #[trigger] walk_cost(
            ts2.followed@,
            ts1.params,
            w2,
        ) == walk_cost(ts1.followed@, ts1.params, w1);
    lemma_walk_included(ts2, w2, id);
}


/// Each identity other than the root is reached through an edge from another reached
/// identity, at that identity's distance plus the edge's cost, and at the lower of that
/// identity's level and the edge's.
pub proof fn lemma_level_follows_edge(ts: TrustSet, i: int)
    requires
        ts.well_formed(),
        0 < i < ts.entries.len(),
    ensures
        ({
            let es = ts.entries@;
            let k = es[i].via_edge as int;
            let u = es[i].via_entry as int;
            &&& 0 <= k < ts.followed.len()
            &&& 0 <= u < es.len()
            &&& ts.followed@[k].from == es[u].id
            &&& ts.followed@[k].to == es[i].id
            &&& edge_cost(ts.params, ts.followed@[k].level) is Some
            &&& es[i].distance == es[u].distance + edge_cost(ts.params, ts.followed@[k].level)->0
            &&& es[i].level == trust_min_spec(es[u].level, ts.followed@[k].level)
        }),
{
    let es = ts.entries@;
    assert(justified(ts.followed@, ts.params, es, i));
    let k = es[i].via_edge as int;
    let u = es[i].via_entry as int;
    assert(relaxed(ts.followed@, ts.params, es, k));
    let c = edge_cost(ts.params, ts.followed@[k].level)->0;
    assert(es[u].distance + c <= ts.params.max_distance);
    let v = choose|v: int| 0 <= v < es.len() && #[trigger] es[v].id == ts.followed@[k].to && es[v].distance <= es[u].distance + c;
    assert(v == i);
}

} // verus!

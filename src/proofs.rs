//! Proof contents and the supersession rule between them.
use vstd::prelude::*;
use crate::level::{TrustLevel, Level, Rating, Version, VersionRange};

verus! {

/// Identities are named by a fixed-width fingerprint of their public key.
pub type Id = u64;

/// A package within one registry source.
#[derive(Clone, Copy, Debug, PartialEq, Eq, Structural)]
pub struct PackageId {
    pub source: u64,
    pub name: u64,
}

/// A signed statement of trust from one identity toward another.
#[derive(Clone, Debug)]
pub struct TrustProof {
    pub from: Id,
    pub to: Id,
    pub level: TrustLevel,
    /// Advisory issue ids of `to` that `from` chooses to suppress.
    pub overrides: Vec<u64>,
    pub timestamp: u64,
}

/// A review of one package version.
#[derive(Clone, Copy, Debug, PartialEq, Eq, Structural)]
pub struct Review {
    pub from: Id,
    pub package: PackageId,
    pub version: Version,
    /// Versions beyond the exact one that the review explicitly speaks for.
    pub range: Option<VersionRange>,
    pub digest: u64,
    pub thoroughness: Level,
    pub understanding: Level,
    pub rating: Rating,
    pub timestamp: u64,
}

/// An advisory reporting a problem in a range of package versions.
#[derive(Clone, Copy, Debug, PartialEq, Eq, Structural)]
pub struct Advisory {
    pub from: Id,
    pub package: PackageId,
    pub version: Version,
    pub range: VersionRange,
    pub severity: Level,
    pub issue: u64,
    pub timestamp: u64,
}

/// Two trust proofs share a supersession group when they have the same author and subject.
pub open spec fn same_trust_key(a: TrustProof, b: TrustProof) -> bool {
    a.from == b.from && a.to == b.to
}

/// Proof `i` of `s` is current: no proof of its group is later, and none as late stands before it.
pub open spec fn is_current_trust(s: Seq<TrustProof>, i: int) -> bool {
    0 <= i < s.len() && forall|j: int|
        0 <= j < s.len() && #[trigger] same_trust_key(s[j], s[i]) ==> s[j].timestamp < s[i].timestamp
            || (s[j].timestamp == s[i].timestamp && j >= i)
}

/// Within one group of author and subject at most one trust proof is current, and no proof
/// of the group is later than it.
pub proof fn lemma_single_current_trust(s: Seq<TrustProof>, i: int, j: int)
    requires
        is_current_trust(s, i),
        is_current_trust(s, j),
        same_trust_key(s[i], s[j]),
    ensures
        i == j,
        forall|k: int|
            0 <= k < s.len() && #[trigger] same_trust_key(s[k], s[i]) ==> s[k].timestamp
                <= s[i].timestamp,
{
    assert(same_trust_key(s[j], s[i]));
    assert(same_trust_key(s[i], s[j]));
}

/// Positions of the current trust proofs of `proofs`, in order.
pub fn current_trust_indices(proofs: &Vec<TrustProof>) -> (r: Vec<usize>)
    ensures
        forall|k: int| 0 <= k < r.len() ==> is_current_trust(proofs@, #[trigger] r@[k] as int),
        forall|i: int| is_current_trust(proofs@, i) ==> r@.contains(i as usize),
        forall|a: int, b: int| 0 <= a < b < r.len() ==> r@[a] < r@[b],
{
    let mut r: Vec<usize> = Vec::new();
    let mut i: usize = 0;
    while i < proofs.len()
        invariant
            i <= proofs.len(),
            forall|k: int| 0 <= k < r.len() ==> is_current_trust(proofs@, #[trigger] r@[k] as int),
            forall|k: int| 0 <= k < r.len() ==> #[trigger] r@[k] < i,
            forall|x: int| 0 <= x < i && is_current_trust(proofs@, x) ==> r@.contains(x as usize),
            forall|a: int, b: int| 0 <= a < b < r.len() ==> r@[a] < r@[b],
        decreases proofs.len() - i,
    {
        let mut current = true;
        let mut j: usize = 0;
        while j < proofs.len()
            invariant
                i < proofs.len(),
                j <= proofs.len(),
                current == forall|y: int|
                    0 <= y < j && #[trigger] same_trust_key(proofs@[y], proofs@[i as int])
                        ==> proofs@[y].timestamp < proofs@[i as int].timestamp
                        || (proofs@[y].timestamp == proofs@[i as int].timestamp && y >= i),
            decreases proofs.len() - j,
        {
            let pj = &proofs[j];
            let pi = &proofs[i];
            if pj.from == pi.from && pj.to == pi.to {
                if pj.timestamp > pi.timestamp || (pj.timestamp == pi.timestamp && j < i) {
                    current = false;
                }
            }
            proof {
                let ghost pi_ = proofs@[i as int];
                let ghost pj_ = proofs@[j as int];
                assert(same_trust_key(pj_, pi_) == (pj_.from == pi_.from && pj_.to == pi_.to));
                if current {
                    assert forall|y: int|
                        0 <= y < j + 1 && #[trigger] same_trust_key(proofs@[y], pi_) implies
                        proofs@[y].timestamp < pi_.timestamp || (proofs@[y].timestamp
                        == pi_.timestamp && y >= i) by {
                        if y < j {
                        }
                    }
                } else {
                }
            }
            j = j + 1;
        }
        let ghost r0 = r@;
        if current {
            r.push(i);
            assert(r@[r.len() - 1] == i);
        }
        proof {
            assert forall|x: int| 0 <= x < i + 1 && is_current_trust(proofs@, x) implies r@.contains(
                x as usize,
            ) by {
                if x == i {
                    assert(r@[r.len() - 1] == i);
                } else {
                    assert(r0.contains(x as usize));
                    let w = choose|w: int| 0 <= w < r0.len() && r0[w] == x as usize;
                    assert(r@[w] == x as usize);
                }
            }
        }
        i = i + 1;
    }
    r
}


/// Two reviews share a supersession group when they have the same author, package and version.
pub open spec fn same_review_key(a: Review, b: Review) -> bool {
    a.from == b.from && a.package == b.package && a.version == b.version
}

/// Review `i` of `s` is current: no review of its group is later, and none as late stands before it.
pub open spec fn is_current_review(s: Seq<Review>, i: int) -> bool {
    0 <= i < s.len() && forall|j: int|
        0 <= j < s.len() && #[trigger] same_review_key(s[j], s[i]) ==> s[j].timestamp < s[i].timestamp
            || (s[j].timestamp == s[i].timestamp && j >= i)
}

/// Whether review `i` of `reviews` is current.
pub fn is_current_review_at(reviews: &Vec<Review>, i: usize) -> (r: bool)
    requires
        i < reviews.len(),
    ensures
        r == is_current_review(reviews@, i as int),
{
    let ri = reviews[i];
    let mut j: usize = 0;
    while j < reviews.len()
        invariant
            i < reviews.len(),
            j <= reviews.len(),
            ri == reviews@[i as int],
            forall|y: int|
                0 <= y < j && #[trigger] same_review_key(reviews@[y], ri) ==> reviews@[y].timestamp
                    < ri.timestamp || (reviews@[y].timestamp == ri.timestamp && y >= i),
        decreases reviews.len() - j,
    {
        let rj = reviews[j];
        if rj.from == ri.from && rj.package == ri.package && rj.version == ri.version {
            if rj.timestamp > ri.timestamp || (rj.timestamp == ri.timestamp && j < i) {
                assert(same_review_key(reviews@[j as int], ri));
                return false;
            }
        }
        proof {
            assert(same_review_key(rj, ri) == (rj.from == ri.from && rj.package == ri.package
                && rj.version == ri.version));
        }
        j = j + 1;
    }
    true
}


/// Some trust proof among the first `n` has `id` as author or subject.
pub open spec fn mentioned_in(proofs: Seq<TrustProof>, n: int, id: Id) -> bool {
    exists|j: int| 0 <= j < n && #[trigger] mentions(proofs[j], id)
}

pub open spec fn mentions(p: TrustProof, id: Id) -> bool {
    p.from == id || p.to == id
}

/// Some review among the first `n` has `id` as author.
pub open spec fn authored_in(reviews: Seq<Review>, n: int, id: Id) -> bool {
    exists|j: int| 0 <= j < n && #[trigger] reviews[j].from == id
}

/// `id` authors or is the subject of some trust proof, or authors some review.
pub open spec fn known_id(proofs: Seq<TrustProof>, reviews: Seq<Review>, id: Id) -> bool {
    mentioned_in(proofs, proofs.len() as int, id) || authored_in(reviews, reviews.len() as int, id)
}

fn push_new(ids: &mut Vec<Id>, id: Id)
    requires
        forall|a: int, b: int| 0 <= a < b < old(ids).len() ==> old(ids)@[a] != old(ids)@[b],
    ensures
        forall|x: Id| final(ids)@.contains(x) <==> (old(ids)@.contains(x) || x == id),
        forall|a: int, b: int| 0 <= a < b < final(ids).len() ==> final(ids)@[a] != final(ids)@[b],
{
    let mut k: usize = 0;
    while k < ids.len()
        invariant
            k <= ids.len(),
            forall|j: int| 0 <= j < k ==> ids@[j] != id,
            forall|a: int, b: int| 0 <= a < b < ids.len() ==> ids@[a] != ids@[b],
        decreases ids.len() - k,
    {
        if ids[k] == id {
            assert(ids@[k as int] == id);
            return;
        }
        k = k + 1;
    }
    let ghost before = ids@;
    ids.push(id);
    proof {
        assert forall|x: Id| ids@.contains(x) <==> (before.contains(x) || x == id) by {
            if before.contains(x) {
                let w = choose|w: int| 0 <= w < before.len() && before[w] == x;
                assert(ids@[w] == x);
            }
            if x == id {
                assert(ids@[before.len() as int] == x);
            }
            if ids@.contains(x) && x != id {
                let w = choose|w: int| 0 <= w < ids.len() && ids@[w] == x;
                assert(before[w] == x);
            }
        }
    }
}

/// Every identity that authors or is the subject of a trust proof, or authors a review,
/// each once.
pub fn all_known_ids(proofs: &Vec<TrustProof>, reviews: &Vec<Review>) -> (r: Vec<Id>)
    ensures
        forall|id: Id| r@.contains(id) <==> known_id(proofs@, reviews@, id),
        forall|a: int, b: int| 0 <= a < b < r.len() ==> r@[a] != r@[b],
{
    let mut ids: Vec<Id> = Vec::new();
    let mut i: usize = 0;
    while i < proofs.len()
        invariant
            i <= proofs.len(),
            forall|a: int, b: int| 0 <= a < b < ids.len() ==> ids@[a] != ids@[b],
            forall|id: Id| ids@.contains(id) <==> mentioned_in(proofs@, i as int, id),
        decreases proofs.len() - i,
    {
        push_new(&mut ids, proofs[i].from);
        push_new(&mut ids, proofs[i].to);
        proof {
            assert forall|id: Id| ids@.contains(id) <==> mentioned_in(proofs@, i + 1, id) by {
                if mentioned_in(proofs@, i + 1, id) {
                    let j = choose|j: int| 0 <= j < i + 1 && #[trigger] mentions(proofs@[j], id);
                    if j < i {
                        assert(mentioned_in(proofs@, i as int, id));
                    }
                }
                if mentions(proofs@[i as int], id) {
                    assert(mentioned_in(proofs@, i + 1, id));
                }
                if mentioned_in(proofs@, i as int, id) {
                    let j = choose|j: int| 0 <= j < i && #[trigger] mentions(proofs@[j], id);
                    assert(mentions(proofs@[j], id));
                }
            }
        }
        i = i + 1;
    }
    let mut k: usize = 0;
    while k < reviews.len()
        invariant
            k <= reviews.len(),
            i == proofs.len(),
            forall|a: int, b: int| 0 <= a < b < ids.len() ==> ids@[a] != ids@[b],
            forall|id: Id|
                ids@.contains(id) <==> (mentioned_in(proofs@, i as int, id) || authored_in(
                    reviews@,
                    k as int,
                    id,
                )),
        decreases reviews.len() - k,
    {
        push_new(&mut ids, reviews[k].from);
        proof {
            assert forall|id: Id|
                ids@.contains(id) <==> (mentioned_in(proofs@, i as int, id) || authored_in(
                    reviews@,
                    k + 1,
                    id,
                )) by {
                if authored_in(reviews@, k + 1, id) {
                    let j = choose|j: int| 0 <= j < k + 1 && #[trigger] reviews@[j].from == id;
                    if j < k {
                        assert(authored_in(reviews@, k as int, id));
                    }
                }
                if reviews@[k as int].from == id {
                    assert(authored_in(reviews@, k + 1, id));
                }
                if authored_in(reviews@, k as int, id) {
                    let j = choose|j: int| 0 <= j < k && #[trigger] reviews@[j].from == id;
                    assert(reviews@[j].from == id);
                }
            }
        }
        k = k + 1;
    }
    ids
}


/// Two advisories share a supersession group when they have the same author and package.
pub open spec fn same_advisory_key(a: Advisory, b: Advisory) -> bool {
    a.from == b.from && a.package == b.package
}

/// Advisory `i` of `s` is current: no advisory of its group is later, and none as late
/// stands before it.
pub open spec fn is_current_advisory(s: Seq<Advisory>, i: int) -> bool {
    0 <= i < s.len() && forall|j: int|
        0 <= j < s.len() && #[trigger] same_advisory_key(s[j], s[i]) ==> s[j].timestamp
            < s[i].timestamp || (s[j].timestamp == s[i].timestamp && j >= i)
}

/// Whether advisory `i` of `advisories` is current.
pub fn is_current_advisory_at(advisories: &Vec<Advisory>, i: usize) -> (r: bool)
    requires
        i < advisories.len(),
    ensures
        r == is_current_advisory(advisories@, i as int),
{
    let ai = advisories[i];
    let mut j: usize = 0;
    while j < advisories.len()
        invariant
            i < advisories.len(),
            j <= advisories.len(),
            ai == advisories@[i as int],
            forall|y: int|
                0 <= y < j && #[trigger] same_advisory_key(advisories@[y], ai) ==> advisories@[y].timestamp
                    < ai.timestamp || (advisories@[y].timestamp == ai.timestamp && y >= i),
        decreases advisories.len() - j,
    {
        let aj = advisories[j];
        if aj.from == ai.from && aj.package == ai.package {
            if aj.timestamp > ai.timestamp || (aj.timestamp == ai.timestamp && j < i) {
                assert(same_advisory_key(advisories@[j as int], ai));
                return false;
            }
        }
        proof {
            assert(same_advisory_key(aj, ai) == (aj.from == ai.from && aj.package == ai.package));
        }
        j = j + 1;
    }
    true
}

} // verus!

//! Per-package verdicts for a resolved dependency set.
use vstd::prelude::*;
use crate::level::{TrustLevel, Rating, Version, level_value, range_covers};
use crate::proofs::{
    PackageId, Review, Advisory, TrustProof, is_current_trust, current_trust_indices,
    is_current_review, is_current_review_at, is_current_advisory, is_current_advisory_at,
};
use crate::trust::TrustSet;

verus! {

/// One package of the resolved dependency graph.
#[derive(Clone, Copy, Debug, PartialEq, Eq, Structural)]
pub struct DepPackage {
    pub package: PackageId,
    pub version: Version,
    /// Digest of the local source tree.
    pub digest: u64,
    /// The package belongs to the current workspace.
    pub local: bool,
}

/// What a package needs to count as verified.
#[derive(Clone, Copy, Debug, PartialEq, Eq, Structural)]
pub struct Requirements {
    /// The registry source whose packages can be reviewed.
    pub registry: u64,
    pub trust_level: TrustLevel,
    pub redundancy: u64,
    pub thoroughness: u64,
    pub understanding: u64,
}

/// Outcome for one package.
#[derive(Clone, Copy, Debug, PartialEq, Eq, Structural)]
pub enum Verdict {
    Local,
    Verified,
    Insufficient,
    Flagged,
    Unknown,
    UnknownSource,
}

/// A review speaks for the package's version, exactly or through its explicit range,
/// and was made on the same source tree.
pub open spec fn review_matches(pkg: DepPackage, r: Review) -> bool {
    &&& r.package == pkg.package
    &&& (r.version == pkg.version || (r.range is Some && range_covers(
        r.range->0,
        r.version,
        pkg.version,
    )))
    &&& r.digest == pkg.digest
}

/// Whether entry `i` of `s` counts toward the verdict on `pkg`: it is current, speaks for the
/// package, and its author is trusted at the required level.
pub open spec fn review_counts(
    ts: TrustSet,
    req: Requirements,
    pkg: DepPackage,
    s: Seq<Review>,
    i: int,
) -> bool {
    is_current_review(s, i) && review_matches(pkg, s[i]) && ts.trusted_at(s[i].from, req.trust_level)
}

/// Number of counting reviews among the first `n`.
pub open spec fn count_reviews(
    ts: TrustSet,
    req: Requirements,
    pkg: DepPackage,
    s: Seq<Review>,
    n: int,
) -> nat
    decreases n,
{
    if n <= 0 {
        0
    } else {
        count_reviews(ts, req, pkg, s, n - 1) + if review_counts(ts, req, pkg, s, n - 1) {
            1nat
        } else {
            0nat
        }
    }
}

/// Sum of thoroughness over the counting reviews among the first `n`.
pub open spec fn sum_thoroughness(
    ts: TrustSet,
    req: Requirements,
    pkg: DepPackage,
    s: Seq<Review>,
    n: int,
) -> nat
    decreases n,
{
    if n <= 0 {
        0
    } else {
        sum_thoroughness(ts, req, pkg, s, n - 1) + if review_counts(ts, req, pkg, s, n - 1) {
            level_value(s[n - 1].thoroughness)
        } else {
            0nat
        }
    }
}

/// Sum of understanding over the counting reviews among the first `n`.
pub open spec fn sum_understanding(
    ts: TrustSet,
    req: Requirements,
    pkg: DepPackage,
    s: Seq<Review>,
    n: int,
) -> nat
    decreases n,
{
    if n <= 0 {
        0
    } else {
        sum_understanding(ts, req, pkg, s, n - 1) + if review_counts(ts, req, pkg, s, n - 1) {
            level_value(s[n - 1].understanding)
        } else {
            0nat
        }
    }
}

/// Some counting review rates the package negatively.
pub open spec fn any_negative(ts: TrustSet, req: Requirements, pkg: DepPackage, s: Seq<Review>) -> bool {
    exists|i: int|
        0 <= i < s.len() && #[trigger] review_counts(ts, req, pkg, s, i) && s[i].rating
            == Rating::Negative
}

/// The advisory speaks for the package's version.
pub open spec fn advisory_applies(pkg: DepPackage, a: Advisory) -> bool {
    a.package == pkg.package && range_covers(a.range, a.version, pkg.version)
}

/// The root holds a current trust proof toward the advisory's author that overrides its issue.
pub open spec fn suppressed(ts: TrustSet, proofs: Seq<TrustProof>, a: Advisory) -> bool {
    exists|i: int|
        is_current_trust(proofs, i) && #[trigger] proofs[i].from == ts.root && proofs[i].to == a.from
            && proofs[i].overrides@.contains(a.issue)
}

/// An advisory that flags the package.
pub open spec fn advisory_active(
    ts: TrustSet,
    req: Requirements,
    pkg: DepPackage,
    proofs: Seq<TrustProof>,
    a: Advisory,
) -> bool {
    advisory_applies(pkg, a) && ts.trusted_at(a.from, req.trust_level) && !suppressed(ts, proofs, a)
}

/// Some current advisory (the latest of its author on its package) flags the package.
pub open spec fn any_active(
    ts: TrustSet,
    req: Requirements,
    pkg: DepPackage,
    proofs: Seq<TrustProof>,
    s: Seq<Advisory>,
) -> bool {
    exists|i: int|
        0 <= i < s.len() && is_current_advisory(s, i) && advisory_active(
            ts,
            req,
            pkg,
            proofs,
            #[trigger] s[i],
        )
}

/// The verdict for `pkg`.
pub open spec fn verdict_spec(
    ts: TrustSet,
    req: Requirements,
    pkg: DepPackage,
    proofs: Seq<TrustProof>,
    reviews: Seq<Review>,
    advisories: Seq<Advisory>,
) -> Verdict {
    if pkg.local {
        Verdict::Local
    } else if pkg.package.source != req.registry {
        Verdict::UnknownSource
    } else if any_active(ts, req, pkg, proofs, advisories) {
        Verdict::Flagged
    } else if count_reviews(ts, req, pkg, reviews, reviews.len() as int) == 0 {
        Verdict::Unknown
    } else if count_reviews(ts, req, pkg, reviews, reviews.len() as int) >= req.redundancy
        && sum_thoroughness(ts, req, pkg, reviews, reviews.len() as int) >= req.thoroughness
        && sum_understanding(ts, req, pkg, reviews, reviews.len() as int) >= req.understanding
        && !any_negative(ts, req, pkg, reviews) {
        Verdict::Verified
    } else {
        Verdict::Insufficient
    }
}


/// Whether `pkg`'s version and tree are those `r` speaks for.
pub fn matches_review(pkg: &DepPackage, r: &Review) -> (b: bool)
    ensures
        b == review_matches(*pkg, *r),
{
    let version_ok = r.version == pkg.version || match r.range {
        Some(range) => range.covers(&r.version, &pkg.version),
        None => false,
    };
    r.package == pkg.package && version_ok && r.digest == pkg.digest
}

/// Whether `a` speaks for `pkg`'s version.
pub fn advisory_affects(pkg: &DepPackage, a: &Advisory) -> (b: bool)
    ensures
        b == advisory_applies(*pkg, *a),
{
    a.package == pkg.package && a.range.covers(&a.version, &pkg.version)
}

fn holds_issue(v: &Vec<u64>, x: u64) -> (r: bool)
    ensures
        r == v@.contains(x),
{
    let mut i: usize = 0;
    while i < v.len()
        invariant
            i <= v.len(),
            forall|j: int| 0 <= j < i ==> v@[j] != x,
        decreases v.len() - i,
    {
        if v[i] == x {
            assert(v@[i as int] == x);
            return true;
        }
        i = i + 1;
    }
    false
}

/// Whether the root of `ts` overrides the issue of `a` through a current trust proof.
pub fn is_suppressed(ts: &TrustSet, proofs: &Vec<TrustProof>, a: &Advisory) -> (r: bool)
    ensures
        r == suppressed(*ts, proofs@, *a),
{
    let idx = current_trust_indices(proofs);
    let mut k: usize = 0;
    while k < idx.len()
        invariant
            k <= idx.len(),
            forall|j: int| 0 <= j < idx.len() ==> is_current_trust(proofs@, #[trigger] idx@[j] as int),
            forall|i: int| is_current_trust(proofs@, i) ==> idx@.contains(i as usize),
            forall|j: int|
                0 <= j < k ==> !({
                    let pr = proofs@[#[trigger] idx@[j] as int];
                    pr.from == ts.root && pr.to == a.from && pr.overrides@.contains(a.issue)
                }),
        decreases idx.len() - k,
    {
        let pr = &proofs[idx[k]];
        if pr.from == ts.root && pr.to == a.from && holds_issue(&pr.overrides, a.issue) {
            proof {
                let i = idx@[k as int] as int;
                assert(is_current_trust(proofs@, i) && proofs@[i].from == ts.root);
            }
            return true;
        }
        k = k + 1;
    }
    let n = proofs.len();
    proof {
        assert forall|i: int|
            is_current_trust(proofs@, i) && #[trigger] proofs@[i].from == ts.root && proofs@[i].to
                == a.from implies !proofs@[i].overrides@.contains(a.issue) by {
            assert(0 <= i < proofs@.len());
            assert(idx@.contains(i as usize));
            let j = choose|j: int| 0 <= j < idx.len() && idx@[j] == i as usize;
            assert(idx@[j] as int == i);
        }
    }
    false
}

/// Whether some advisory flags `pkg`.
pub fn has_active_advisory(
    ts: &TrustSet,
    req: &Requirements,
    pkg: &DepPackage,
    proofs: &Vec<TrustProof>,
    advisories: &Vec<Advisory>,
) -> (r: bool)
    requires
        ts.well_formed(),
    ensures
        r == any_active(*ts, *req, *pkg, proofs@, advisories@),
{
    let mut i: usize = 0;
    while i < advisories.len()
        invariant
            i <= advisories.len(),
            ts.well_formed(),
            forall|j: int|
                0 <= j < i ==> !(is_current_advisory(advisories@, j) && advisory_active(
                    *ts,
                    *req,
                    *pkg,
                    proofs@,
                    #[trigger] advisories@[j],
                )),
        decreases advisories.len() - i,
    {
        let a = &advisories[i];
        if is_current_advisory_at(advisories, i) && advisory_affects(pkg, a) && ts.is_trusted(
            a.from,
            req.trust_level,
        ) && !is_suppressed(
            ts,
            proofs,
            a,
        ) {
            assert(advisory_active(*ts, *req, *pkg, proofs@, advisories@[i as int]));
            return true;
        }
        i = i + 1;
    }
    false
}

/// Counting reviews, their thoroughness and understanding, and whether one is negative.
pub struct Tally {
    pub count: u64,
    pub thoroughness: u64,
    pub understanding: u64,
    pub negative: bool,
}

/// Adds up the reviews of `reviews` that count toward `pkg`.
pub fn tally_reviews(
    ts: &TrustSet,
    req: &Requirements,
    pkg: &DepPackage,
    reviews: &Vec<Review>,
) -> (t: Tally)
    requires
        ts.well_formed(),
        reviews.len() <= 0x1000_0000_0000_0000,
    ensures
        t.count == count_reviews(*ts, *req, *pkg, reviews@, reviews.len() as int),
        t.thoroughness == sum_thoroughness(*ts, *req, *pkg, reviews@, reviews.len() as int),
        t.understanding == sum_understanding(*ts, *req, *pkg, reviews@, reviews.len() as int),
        t.negative == any_negative(*ts, *req, *pkg, reviews@),
{
    let mut count: u64 = 0;
    let mut th: u64 = 0;
    let mut un: u64 = 0;
    let mut negative = false;
    let mut i: usize = 0;
    while i < reviews.len()
        invariant
            i <= reviews.len(),
            reviews.len() <= 0x1000_0000_0000_0000,
            ts.well_formed(),
            count == count_reviews(*ts, *req, *pkg, reviews@, i as int),
            th == sum_thoroughness(*ts, *req, *pkg, reviews@, i as int),
            un == sum_understanding(*ts, *req, *pkg, reviews@, i as int),
            count <= i,
            th <= 3 * i,
            un <= 3 * i,
            negative == exists|j: int|
                0 <= j < i && #[trigger] review_counts(*ts, *req, *pkg, reviews@, j)
                    && reviews@[j].rating == Rating::Negative,
        decreases reviews.len() - i,
    {
        let r = &reviews[i];
        if is_current_review_at(reviews, i) && matches_review(pkg, r) && ts.is_trusted(
            r.from,
            req.trust_level,
        ) {
            count = count + 1;
            th = th + r.thoroughness.value() as u64;
            un = un + r.understanding.value() as u64;
            if r.rating == Rating::Negative {
                negative = true;
            }
        }
        i = i + 1;
    }
    Tally { count, thoroughness: th, understanding: un, negative }
}

/// Verdict for one package of the dependency set.
pub fn verify_package(
    ts: &TrustSet,
    req: &Requirements,
    pkg: &DepPackage,
    proofs: &Vec<TrustProof>,
    reviews: &Vec<Review>,
    advisories: &Vec<Advisory>,
) -> (v: Verdict)
    requires
        ts.well_formed(),
        reviews.len() <= 0x1000_0000_0000_0000,
    ensures
        v == verdict_spec(*ts, *req, *pkg, proofs@, reviews@, advisories@),
{
    if pkg.local {
        return Verdict::Local;
    }
    if pkg.package.source != req.registry {
        return Verdict::UnknownSource;
    }
    if has_active_advisory(ts, req, pkg, proofs, advisories) {
        return Verdict::Flagged;
    }
    let t = tally_reviews(ts, req, pkg, reviews);
    if t.count == 0 {
        Verdict::Unknown
    } else if t.count >= req.redundancy && t.thoroughness >= req.thoroughness && t.understanding
        >= req.understanding && !t.negative {
        Verdict::Verified
    } else {
        Verdict::Insufficient
    }
}


/// A review without an explicit range speaks only for its own version.
pub proof fn lemma_review_exact_version(pkg: DepPackage, r: Review)
    requires
        r.range is None,
        r.version != pkg.version,
    ensures
        !review_matches(pkg, r),
{
}

proof fn lemma_tallies_agree(
    ts1: TrustSet,
    ts2: TrustSet,
    req: Requirements,
    pkg: DepPackage,
    s: Seq<Review>,
    n: int,
)
    requires
        forall|id: u64| ts1.trusted_at(id, req.trust_level) == ts2.trusted_at(id, req.trust_level),
    ensures
        count_reviews(ts1, req, pkg, s, n) == count_reviews(ts2, req, pkg, s, n),
        sum_thoroughness(ts1, req, pkg, s, n) == sum_thoroughness(ts2, req, pkg, s, n),
        sum_understanding(ts1, req, pkg, s, n) == sum_understanding(ts2, req, pkg, s, n),
    decreases n,
{
    if n > 0 {
        lemma_tallies_agree(ts1, ts2, req, pkg, s, n - 1);
        assert(review_counts(ts1, req, pkg, s, n - 1) == review_counts(ts2, req, pkg, s, n - 1));
    }
}

/// The verdict is a function of its inputs, and reads the trust set only through which
/// identities it trusts at the required level and through its root: two trust sets that
/// agree on those give the same verdict.
pub proof fn lemma_verdict_deterministic(
    ts1: TrustSet,
    ts2: TrustSet,
    req: Requirements,
    pkg: DepPackage,
    proofs: Seq<TrustProof>,
    reviews: Seq<Review>,
    advisories: Seq<Advisory>,
)
    requires
        ts1.root == ts2.root,
        forall|id: u64| ts1.trusted_at(id, req.trust_level) == ts2.trusted_at(id, req.trust_level),
    ensures
        verdict_spec(ts1, req, pkg, proofs, reviews, advisories) == verdict_spec(
            ts2,
            req,
            pkg,
            proofs,
            reviews,
            advisories,
        ),
{
    lemma_tallies_agree(ts1, ts2, req, pkg, reviews, reviews.len() as int);
    assert forall|i: int| 0 <= i < advisories.len() implies advisory_active(
        ts1,
        req,
        pkg,
        proofs,
        #[trigger] advisories[i],
    ) == advisory_active(ts2, req, pkg, proofs, advisories[i]) by {
        assert(ts1.trusted_at(advisories[i].from, req.trust_level) == ts2.trusted_at(
            advisories[i].from,
            req.trust_level,
        ));
    }
    assert forall|i: int| 0 <= i < reviews.len() implies #[trigger] review_counts(
        ts1,
        req,
        pkg,
        reviews,
        i,
    ) == review_counts(ts2, req, pkg, reviews, i) by {
        assert(ts1.trusted_at(reviews[i].from, req.trust_level) == ts2.trusted_at(
            reviews[i].from,
            req.trust_level,
        ));
    }
    assert(any_active(ts1, req, pkg, proofs, advisories) == any_active(ts2, req, pkg, proofs, advisories));
    if any_negative(ts1, req, pkg, reviews) {
        let i = choose|i: int|
            0 <= i < reviews.len() && #[trigger] review_counts(ts1, req, pkg, reviews, i)
                && reviews[i].rating == Rating::Negative;
        assert(review_counts(ts2, req, pkg, reviews, i));
    }
    if any_negative(ts2, req, pkg, reviews) {
        let i = choose|i: int|
            0 <= i < reviews.len() && #[trigger] review_counts(ts2, req, pkg, reviews, i)
                && reviews[i].rating == Rating::Negative;
        assert(review_counts(ts1, req, pkg, reviews, i));
    }
}


/// The verdict counts as a pass for the exit status.
pub open spec fn verdict_passes(v: Verdict) -> bool {
    v == Verdict::Local || v == Verdict::Verified
}

/// Verdicts for every package of a dependency set, in order.
pub fn verify_deps(
    ts: &TrustSet,
    req: &Requirements,
    pkgs: &Vec<DepPackage>,
    proofs: &Vec<TrustProof>,
    reviews: &Vec<Review>,
    advisories: &Vec<Advisory>,
) -> (r: Vec<Verdict>)
    requires
        ts.well_formed(),
        reviews.len() <= 0x1000_0000_0000_0000,
    ensures
        r.len() == pkgs.len(),
        forall|i: int|
            0 <= i < r.len() ==> #[trigger] r@[i] == verdict_spec(
                *ts,
                *req,
                pkgs@[i],
                proofs@,
                reviews@,
                advisories@,
            ),
{
    let mut r: Vec<Verdict> = Vec::new();
    let mut i: usize = 0;
    while i < pkgs.len()
        invariant
            i <= pkgs.len(),
            r.len() == i,
            ts.well_formed(),
            reviews.len() <= 0x1000_0000_0000_0000,
            forall|j: int|
                0 <= j < i ==> #[trigger] r@[j] == verdict_spec(
                    *ts,
                    *req,
                    pkgs@[j],
                    proofs@,
                    reviews@,
                    advisories@,
                ),
        decreases pkgs.len() - i,
    {
        let v = verify_package(ts, req, &pkgs[i], proofs, reviews, advisories);
        r.push(v);
        i = i + 1;
    }
    r
}

/// Exit status of a verification: 0 when every verdict is `Local` or `Verified`, else 1.
pub fn exit_status(verdicts: &Vec<Verdict>) -> (code: i32)
    ensures
        code == 0 <==> forall|i: int| 0 <= i < verdicts.len() ==> verdict_passes(#[trigger] verdicts@[i]),
        code == 0 || code == 1,
{
    let mut i: usize = 0;
    while i < verdicts.len()
        invariant
            i <= verdicts.len(),
            forall|j: int| 0 <= j < i ==> verdict_passes(#[trigger] verdicts@[j]),
        decreases verdicts.len() - i,
    {
        let v = verdicts[i];
        if !(v == Verdict::Local || v == Verdict::Verified) {
            assert(!verdict_passes(verdicts@[i as int]));
            return 1;
        }
        i = i + 1;
    }
    0
}


/// Rating classes reported per package.
pub open spec fn rating_class(r: Rating) -> int {
    match r {
        Rating::Negative => 0,
        Rating::Neutral => 1,
        _ => 2,
    }
}

/// Number of current reviews among the first `n` that speak for the package and whose
/// rating falls in class `c`: one per author, the author's latest.
pub open spec fn count_rated(pkg: DepPackage, s: Seq<Review>, n: int, c: int) -> nat
    decreases n,
{
    if n <= 0 {
        0
    } else {
        count_rated(pkg, s, n - 1, c) + if is_current_review(s, n - 1) && review_matches(pkg, s[n - 1])
            && rating_class(s[n - 1].rating) == c {
            1nat
        } else {
            0nat
        }
    }
}

/// What is reported beside a package's verdict.
pub struct ReviewSummary {
    /// Counting reviews by authors trusted at `Low`, `Medium` and `High` or above.
    pub trusted_low: u64,
    pub trusted_medium: u64,
    pub trusted_high: u64,
    /// Authors whose latest review of this version is negative, neutral, or positive or strong.
    pub negative: u64,
    pub neutral: u64,
    pub positive: u64,
}

/// How many counting reviews each trust threshold admits, and authors by the rating of their latest one.
pub fn review_summary(ts: &TrustSet, req: &Requirements, pkg: &DepPackage, reviews: &Vec<Review>) -> (r:
    ReviewSummary)
    requires
        ts.well_formed(),
        reviews.len() <= 0x1000_0000_0000_0000,
    ensures
        r.trusted_low == count_reviews(*ts, Requirements { trust_level: TrustLevel::Low, ..*req }, *pkg, reviews@, reviews.len() as int),
        r.trusted_medium == count_reviews(*ts, Requirements { trust_level: TrustLevel::Medium, ..*req }, *pkg, reviews@, reviews.len() as int),
        r.trusted_high == count_reviews(*ts, Requirements { trust_level: TrustLevel::High, ..*req }, *pkg, reviews@, reviews.len() as int),
        r.negative == count_rated(*pkg, reviews@, reviews.len() as int, 0),
        r.neutral == count_rated(*pkg, reviews@, reviews.len() as int, 1),
        r.positive == count_rated(*pkg, reviews@, reviews.len() as int, 2),
{
    let low = tally_reviews(ts, &Requirements { trust_level: TrustLevel::Low, ..*req }, pkg, reviews);
    let medium = tally_reviews(ts, &Requirements { trust_level: TrustLevel::Medium, ..*req }, pkg, reviews);
    let high = tally_reviews(ts, &Requirements { trust_level: TrustLevel::High, ..*req }, pkg, reviews);
    let mut neg: u64 = 0;
    let mut neu: u64 = 0;
    let mut pos: u64 = 0;
    let mut i: usize = 0;
    while i < reviews.len()
        invariant
            i <= reviews.len(),
            reviews.len() <= 0x1000_0000_0000_0000,
            neg == count_rated(*pkg, reviews@, i as int, 0),
            neu == count_rated(*pkg, reviews@, i as int, 1),
            pos == count_rated(*pkg, reviews@, i as int, 2),
            neg + neu + pos <= i,
        decreases reviews.len() - i,
    {
        let r = &reviews[i];
        if is_current_review_at(reviews, i) && matches_review(pkg, r) {
            match r.rating {
                Rating::Negative => {
                    neg = neg + 1;
                },
                Rating::Neutral => {
                    neu = neu + 1;
                },
                _ => {
                    pos = pos + 1;
                },
            }
        }
        i = i + 1;
    }
    ReviewSummary {
        trusted_low: low.count,
        trusted_medium: medium.count,
        trusted_high: high.count,
        negative: neg,
        neutral: neu,
        positive: pos,
    }
}

} // verus!

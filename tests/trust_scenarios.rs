use cargo_crev::deps::{
    advisory_affects, exit_status, review_summary, matches_review, verify_deps, verify_package, DepPackage, Requirements, Verdict,
};
use cargo_crev::level::{Level, Rating, TrustLevel, Version, VersionRange};
use cargo_crev::proofs::{all_known_ids, current_trust_indices, Advisory, PackageId, Review, TrustProof};
use cargo_crev::trust::{DistanceParams, TrustSet};

const REGISTRY: u64 = 1;
const R: u64 = 100;
const A: u64 = 200;
const B: u64 = 300;

fn params() -> DistanceParams {
    DistanceParams { max_distance: 10, high_cost: 0, medium_cost: 1, low_cost: 5 }
}

fn req() -> Requirements {
    Requirements {
        registry: REGISTRY,
        trust_level: TrustLevel::NoTrust,
        redundancy: 1,
        thoroughness: 0,
        understanding: 0,
    }
}

fn trust(from: u64, to: u64, level: TrustLevel, ts: u64) -> TrustProof {
    TrustProof { from, to, level, overrides: vec![], timestamp: ts }
}

fn pkg_id(name: u64) -> PackageId {
    PackageId { source: REGISTRY, name }
}

fn review(from: u64, name: u64, v: Version, digest: u64, rating: Rating) -> Review {
    Review {
        from,
        package: pkg_id(name),
        version: v,
        range: None,
        digest,
        thoroughness: Level::Low,
        understanding: Level::Low,
        rating,
        timestamp: 1,
    }
}

fn dep(name: u64, v: Version, digest: u64) -> DepPackage {
    DepPackage { package: pkg_id(name), version: v, digest, local: false }
}

const FOO: u64 = 10;
const BAR: u64 = 20;

#[test]
fn single_user_clean() {
    let proofs: Vec<TrustProof> = vec![];
    let ts = TrustSet::calculate(R, &proofs, params());
    let reviews = vec![review(R, FOO, Version::new(1, 0, 0), 77, Rating::Positive)];
    let v = verify_package(&ts, &req(), &dep(FOO, Version::new(1, 0, 0), 77), &proofs, &reviews, &vec![]);
    assert_eq!(v, Verdict::Verified);
}

#[test]
fn digest_mismatch_is_unknown() {
    let proofs: Vec<TrustProof> = vec![];
    let ts = TrustSet::calculate(R, &proofs, params());
    let reviews = vec![review(R, FOO, Version::new(1, 0, 0), 77, Rating::Positive)];
    let v = verify_package(&ts, &req(), &dep(FOO, Version::new(1, 0, 0), 78), &proofs, &reviews, &vec![]);
    assert_eq!(v, Verdict::Unknown);
}

fn chain() -> Vec<TrustProof> {
    vec![trust(R, A, TrustLevel::High, 1), trust(A, B, TrustLevel::Medium, 1)]
}

#[test]
fn transitive_trust() {
    let proofs = chain();
    let ts = TrustSet::calculate(R, &proofs, params());
    assert_eq!(ts.get_effective_trust_level(B), TrustLevel::Medium);
    assert_eq!(ts.distance(B), Some(1));
    assert_eq!(ts.get_effective_trust_level(A), TrustLevel::High);
    assert_eq!(ts.distance(A), Some(0));
    let reviews = vec![review(B, BAR, Version::new(2, 0, 0), 5, Rating::Positive)];
    let v = verify_package(&ts, &req(), &dep(BAR, Version::new(2, 0, 0), 5), &proofs, &reviews, &vec![]);
    assert_eq!(v, Verdict::Verified);
}

#[test]
fn distrust_override() {
    let mut proofs = chain();
    proofs.push(trust(R, B, TrustLevel::Distrust, 2));
    let ts = TrustSet::calculate(R, &proofs, params());
    assert_eq!(ts.get_effective_trust_level(B), TrustLevel::NoTrust);
    let reviews = vec![review(B, BAR, Version::new(2, 0, 0), 5, Rating::Positive)];
    let v = verify_package(&ts, &req(), &dep(BAR, Version::new(2, 0, 0), 5), &proofs, &reviews, &vec![]);
    assert_eq!(v, Verdict::Unknown);
}

fn advisory() -> Advisory {
    Advisory {
        from: A,
        package: pkg_id(BAR),
        version: Version::new(1, 0, 0),
        range: VersionRange::Major,
        severity: Level::High,
        issue: 4242,
        timestamp: 3,
    }
}

#[test]
fn advisory_flag() {
    let proofs = chain();
    let ts = TrustSet::calculate(R, &proofs, params());
    let reviews = vec![review(B, BAR, Version::new(1, 4, 0), 9, Rating::Positive)];
    let v = verify_package(&ts, &req(), &dep(BAR, Version::new(1, 4, 0), 9), &proofs, &reviews, &vec![advisory()]);
    assert_eq!(v, Verdict::Flagged);
}

#[test]
fn advisory_override() {
    let mut proofs = chain();
    proofs.push(TrustProof {
        from: R,
        to: A,
        level: TrustLevel::High,
        overrides: vec![4242],
        timestamp: 5,
    });
    let ts = TrustSet::calculate(R, &proofs, params());
    let reviews = vec![review(B, BAR, Version::new(1, 4, 0), 9, Rating::Positive)];
    let v = verify_package(&ts, &req(), &dep(BAR, Version::new(1, 4, 0), 9), &proofs, &reviews, &vec![advisory()]);
    assert_eq!(v, Verdict::Verified);
}

#[test]
fn override_in_superseded_proof_is_ignored() {
    let mut proofs = chain();
    proofs.push(TrustProof {
        from: R,
        to: A,
        level: TrustLevel::High,
        overrides: vec![4242],
        timestamp: 0,
    });
    let ts = TrustSet::calculate(R, &proofs, params());
    let reviews = vec![review(B, BAR, Version::new(1, 4, 0), 9, Rating::Positive)];
    let v = verify_package(&ts, &req(), &dep(BAR, Version::new(1, 4, 0), 9), &proofs, &reviews, &vec![advisory()]);
    assert_eq!(v, Verdict::Flagged);
}

#[test]
fn root_is_fully_trusted() {
    let proofs = vec![trust(A, R, TrustLevel::Low, 1), trust(R, A, TrustLevel::High, 1)];
    let ts = TrustSet::calculate(R, &proofs, params());
    assert_eq!(ts.get_effective_trust_level(R), TrustLevel::High);
    assert_eq!(ts.distance(R), Some(0));
}

#[test]
fn distrust_from_medium_beats_other_paths() {
    let proofs = vec![
        trust(R, A, TrustLevel::Medium, 1),
        trust(R, B, TrustLevel::High, 1),
        trust(A, B, TrustLevel::Distrust, 1),
    ];
    let ts = TrustSet::calculate(R, &proofs, params());
    assert_eq!(ts.get_effective_trust_level(A), TrustLevel::Medium);
    assert_eq!(ts.get_effective_trust_level(B), TrustLevel::NoTrust);
}

#[test]
fn distrust_from_low_is_not_authoritative() {
    let proofs = vec![
        trust(R, A, TrustLevel::Low, 1),
        trust(R, B, TrustLevel::High, 1),
        trust(A, B, TrustLevel::Distrust, 1),
    ];
    let ts = TrustSet::calculate(R, &proofs, params());
    assert_eq!(ts.get_effective_trust_level(B), TrustLevel::High);
}

#[test]
fn distance_cap_is_inclusive() {
    // R -low-> A costs 5, A -low-> B costs 10 in total, B -medium-> 400 would cost 11.
    let proofs = vec![
        trust(R, A, TrustLevel::Low, 1),
        trust(A, B, TrustLevel::Low, 1),
        trust(B, 400, TrustLevel::Medium, 1),
    ];
    let ts = TrustSet::calculate(R, &proofs, params());
    assert_eq!(ts.distance(B), Some(10));
    assert_eq!(ts.get_effective_trust_level(B), TrustLevel::Low);
    assert_eq!(ts.distance(400), None);
    assert_eq!(ts.get_effective_trust_level(400), TrustLevel::NoTrust);
}

#[test]
fn shorter_path_wins() {
    let proofs = vec![
        trust(R, A, TrustLevel::Low, 1),
        trust(R, B, TrustLevel::High, 1),
        trust(B, A, TrustLevel::Medium, 1),
    ];
    let ts = TrustSet::calculate(R, &proofs, params());
    assert_eq!(ts.distance(A), Some(1));
    assert_eq!(ts.get_effective_trust_level(A), TrustLevel::Medium);
}

#[test]
fn untrust_edges_are_not_followed() {
    let proofs = vec![trust(R, A, TrustLevel::NoTrust, 1)];
    let ts = TrustSet::calculate(R, &proofs, params());
    assert_eq!(ts.distance(A), None);
}

#[test]
fn adding_trust_brings_identity_closer() {
    let before = TrustSet::calculate(R, &chain(), params());
    let mut more = chain();
    more.push(trust(R, B, TrustLevel::High, 1));
    let after = TrustSet::calculate(R, &more, params());
    assert_eq!(before.get_effective_trust_level(B), TrustLevel::Medium);
    assert_eq!(after.get_effective_trust_level(B), TrustLevel::High);
    assert_eq!(after.distance(B), Some(0));
}

#[test]
fn latest_trust_proof_is_current() {
    let proofs = vec![
        trust(R, A, TrustLevel::High, 1),
        trust(R, A, TrustLevel::Low, 7),
        trust(R, B, TrustLevel::High, 3),
    ];
    assert_eq!(current_trust_indices(&proofs), vec![1, 2]);
    let ts = TrustSet::calculate(R, &proofs, params());
    assert_eq!(ts.get_effective_trust_level(A), TrustLevel::Low);
    assert_eq!(ts.distance(A), Some(5));
}

#[test]
fn verdict_is_repeatable() {
    let proofs = chain();
    let ts = TrustSet::calculate(R, &proofs, params());
    let reviews = vec![review(B, BAR, Version::new(2, 0, 0), 5, Rating::Positive)];
    let d = dep(BAR, Version::new(2, 0, 0), 5);
    let first = verify_package(&ts, &req(), &d, &proofs, &reviews, &vec![]);
    let second = verify_package(&ts, &req(), &d, &proofs, &reviews, &vec![]);
    assert_eq!(first, second);
}

#[test]
fn review_version_must_match() {
    let r = review(R, FOO, Version::new(1, 2, 3), 1, Rating::Positive);
    assert!(matches_review(&dep(FOO, Version::new(1, 2, 3), 1), &r));
    assert!(!matches_review(&dep(FOO, Version::new(1, 2, 4), 1), &r));
    let ranged = Review { range: Some(VersionRange::Minor), ..r };
    assert!(matches_review(&dep(FOO, Version::new(1, 2, 4), 1), &ranged));
    assert!(!matches_review(&dep(FOO, Version::new(1, 3, 0), 1), &ranged));
}

#[test]
fn major_range_advisory() {
    let a = advisory();
    assert!(advisory_affects(&dep(BAR, Version::new(1, 0, 0), 0), &a));
    assert!(advisory_affects(&dep(BAR, Version::new(1, 9, 9), 0), &a));
    assert!(!advisory_affects(&dep(BAR, Version::new(2, 0, 0), 0), &a));
}

#[test]
fn verdict_variants() {
    let proofs = chain();
    let ts = TrustSet::calculate(R, &proofs, params());
    let d = dep(BAR, Version::new(2, 0, 0), 5);
    let local = DepPackage { local: true, ..d };
    assert_eq!(verify_package(&ts, &req(), &local, &proofs, &vec![], &vec![]), Verdict::Local);
    let other = DepPackage { package: PackageId { source: 9, name: BAR }, ..d };
    assert_eq!(verify_package(&ts, &req(), &other, &proofs, &vec![], &vec![]), Verdict::UnknownSource);
    let neg = vec![
        review(B, BAR, Version::new(2, 0, 0), 5, Rating::Positive),
        review(A, BAR, Version::new(2, 0, 0), 5, Rating::Negative),
    ];
    assert_eq!(verify_package(&ts, &req(), &d, &proofs, &neg, &vec![]), Verdict::Insufficient);
    let strict = Requirements { redundancy: 2, thoroughness: 2, understanding: 3, ..req() };
    let two = vec![
        review(B, BAR, Version::new(2, 0, 0), 5, Rating::Positive),
        review(A, BAR, Version::new(2, 0, 0), 5, Rating::Strong),
    ];
    assert_eq!(verify_package(&ts, &strict, &d, &proofs, &two, &vec![]), Verdict::Insufficient);
    let loose = Requirements { understanding: 2, ..strict };
    assert_eq!(verify_package(&ts, &loose, &d, &proofs, &two, &vec![]), Verdict::Verified);
    let high_only = Requirements { trust_level: TrustLevel::High, ..req() };
    let by_b = vec![review(B, BAR, Version::new(2, 0, 0), 5, Rating::Positive)];
    assert_eq!(verify_package(&ts, &high_only, &d, &proofs, &by_b, &vec![]), Verdict::Unknown);
}


#[test]
fn trusted_ids_by_threshold() {
    let mut proofs = chain();
    proofs.push(trust(A, 500, TrustLevel::Low, 1));
    let ts = TrustSet::calculate(R, &proofs, params());
    let mut high = ts.trusted_ids(TrustLevel::High);
    high.sort();
    assert_eq!(high, vec![R, A]);
    let mut medium = ts.trusted_ids(TrustLevel::Medium);
    medium.sort();
    assert_eq!(medium, vec![R, A, B]);
    let mut any = ts.trusted_ids(TrustLevel::NoTrust);
    any.sort();
    assert_eq!(any, vec![R, A, B, 500]);
}

#[test]
fn shorter_path_through_low_edge_lowers_level() {
    let mut proofs = vec![];
    let hops: [u64; 7] = [R, 1, 2, 3, 4, 5, A];
    for i in 0..6 {
        proofs.push(trust(hops[i], hops[i + 1], TrustLevel::Medium, 1));
    }
    let before = TrustSet::calculate(R, &proofs, params());
    assert_eq!(before.distance(A), Some(6));
    assert_eq!(before.get_effective_trust_level(A), TrustLevel::Medium);
    proofs.push(trust(R, A, TrustLevel::Low, 1));
    let after = TrustSet::calculate(R, &proofs, params());
    assert_eq!(after.distance(A), Some(5));
    assert_eq!(after.get_effective_trust_level(A), TrustLevel::Low);
}

#[test]
fn superseded_review_is_not_counted() {
    let proofs: Vec<TrustProof> = vec![];
    let ts = TrustSet::calculate(R, &proofs, params());
    let d = dep(FOO, Version::new(1, 0, 0), 77);
    let old_negative = Review { timestamp: 1, ..review(R, FOO, Version::new(1, 0, 0), 77, Rating::Negative) };
    let new_positive = Review { timestamp: 2, ..review(R, FOO, Version::new(1, 0, 0), 77, Rating::Positive) };
    let both = vec![old_negative, new_positive];
    assert_eq!(verify_package(&ts, &req(), &d, &proofs, &both, &vec![]), Verdict::Verified);
    let two = Requirements { redundancy: 2, ..req() };
    assert_eq!(verify_package(&ts, &two, &d, &proofs, &both, &vec![]), Verdict::Insufficient);
    let reversed = vec![new_positive, Review { timestamp: 3, ..old_negative }];
    assert_eq!(verify_package(&ts, &req(), &d, &proofs, &reversed, &vec![]), Verdict::Insufficient);
}

#[test]
fn known_ids_cover_authors_and_subjects_once() {
    let proofs = chain();
    let reviews = vec![
        review(B, BAR, Version::new(2, 0, 0), 5, Rating::Positive),
        review(700, BAR, Version::new(2, 0, 0), 5, Rating::Positive),
    ];
    let mut ids = all_known_ids(&proofs, &reviews);
    ids.sort();
    assert_eq!(ids, vec![R, A, B, 700]);
    assert!(all_known_ids(&vec![], &vec![]).is_empty());
}

#[test]
fn distrusted_identity_passes_no_trust_on() {
    let mut proofs = chain();
    proofs.push(trust(R, B, TrustLevel::Distrust, 2));
    proofs.push(trust(B, 400, TrustLevel::High, 1));
    let ts = TrustSet::calculate(R, &proofs, params());
    assert_eq!(ts.get_effective_trust_level(B), TrustLevel::NoTrust);
    assert_eq!(ts.distance(400), None);
    assert_eq!(ts.get_effective_trust_level(400), TrustLevel::NoTrust);
}

#[test]
fn distrusted_identity_cannot_distrust() {
    let proofs = vec![
        trust(R, A, TrustLevel::High, 1),
        trust(R, B, TrustLevel::High, 1),
        trust(R, B, TrustLevel::Distrust, 2),
        trust(B, A, TrustLevel::Distrust, 1),
    ];
    let ts = TrustSet::calculate(R, &proofs, params());
    assert_eq!(ts.get_effective_trust_level(B), TrustLevel::NoTrust);
    assert_eq!(ts.get_effective_trust_level(A), TrustLevel::High);
}

#[test]
fn distrust_through_later_round_removes_subtree() {
    // A distrusts B only once A is reached; B's trustee 400 then loses its only path.
    let proofs = vec![
        trust(R, A, TrustLevel::Medium, 1),
        trust(R, B, TrustLevel::High, 1),
        trust(B, 400, TrustLevel::High, 1),
        trust(A, B, TrustLevel::Distrust, 1),
    ];
    let ts = TrustSet::calculate(R, &proofs, params());
    assert_eq!(ts.get_effective_trust_level(B), TrustLevel::NoTrust);
    assert_eq!(ts.distance(400), None);
    assert_eq!(ts.trusted_ids(TrustLevel::NoTrust).len(), 2);
}

#[test]
fn superseded_advisory_no_longer_flags() {
    let proofs = chain();
    let ts = TrustSet::calculate(R, &proofs, params());
    let reviews = vec![review(B, BAR, Version::new(1, 4, 0), 9, Rating::Positive)];
    let later = Advisory { version: Version::new(0, 9, 0), timestamp: 10, ..advisory() };
    let d = dep(BAR, Version::new(1, 4, 0), 9);
    assert_eq!(verify_package(&ts, &req(), &d, &proofs, &reviews, &vec![advisory(), later]), Verdict::Verified);
    assert_eq!(verify_package(&ts, &req(), &d, &proofs, &reviews, &vec![later, advisory()]), Verdict::Verified);
}

#[test]
fn dependency_set_exit_status() {
    let proofs = chain();
    let ts = TrustSet::calculate(R, &proofs, params());
    let reviews = vec![review(B, BAR, Version::new(2, 0, 0), 5, Rating::Positive)];
    let good = dep(BAR, Version::new(2, 0, 0), 5);
    let local = DepPackage { local: true, ..dep(FOO, Version::new(0, 1, 0), 0) };
    let unknown = dep(FOO, Version::new(1, 0, 0), 1);
    let ok = verify_deps(&ts, &req(), &vec![good, local], &proofs, &reviews, &vec![]);
    assert_eq!(ok, vec![Verdict::Verified, Verdict::Local]);
    assert_eq!(exit_status(&ok), 0);
    let bad = verify_deps(&ts, &req(), &vec![good, unknown], &proofs, &reviews, &vec![]);
    assert_eq!(bad, vec![Verdict::Verified, Verdict::Unknown]);
    assert_eq!(exit_status(&bad), 1);
    assert_eq!(exit_status(&vec![]), 0);
}

#[test]
fn counts_by_threshold_and_rating() {
    let proofs = chain();
    let ts = TrustSet::calculate(R, &proofs, params());
    let v = Version::new(2, 0, 0);
    let reviews = vec![
        review(R, BAR, v, 5, Rating::Strong),
        review(A, BAR, v, 5, Rating::Neutral),
        review(B, BAR, v, 5, Rating::Negative),
        Review { timestamp: 0, ..review(B, BAR, v, 5, Rating::Positive) },
        review(900, BAR, v, 5, Rating::Positive),
    ];
    let s = review_summary(&ts, &req(), &dep(BAR, v, 5), &reviews);
    assert_eq!(s.trusted_low, 3);
    assert_eq!(s.trusted_medium, 3);
    assert_eq!(s.trusted_high, 2);
    assert_eq!(s.negative, 1);
    assert_eq!(s.neutral, 1);
    assert_eq!(s.positive, 2);
}

use cargo_crev::level::TrustLevel;
use cargo_crev::proofs::TrustProof;
use cargo_crev::commands::{url_status_marker, UrlClaim};
use cargo_crev::sync::{ids_for_url, lookup_url, urls_to_fetch, RepoUrl, UrlDecl, UrlOfId};
use cargo_crev::trust::{DistanceParams, TrustSet};

fn repo(id: u64, url: &str) -> RepoUrl {
    RepoUrl { id, url: url.to_string() }
}

#[test]
fn fetches_urls_of_reached_identities_once() {
    let proofs = vec![
        TrustProof { from: 1, to: 2, level: TrustLevel::High, overrides: vec![], timestamp: 1 },
        TrustProof { from: 2, to: 3, level: TrustLevel::NoTrust, overrides: vec![], timestamp: 1 },
    ];
    let params = DistanceParams { max_distance: 10, high_cost: 0, medium_cost: 1, low_cost: 5 };
    let ts = TrustSet::calculate(1, &proofs, params);
    let urls = vec![
        repo(2, "https://b.example/proofs"),
        repo(3, "https://c.example/proofs"),
        repo(1, "https://a.example/proofs"),
        repo(2, "https://b.example/proofs"),
    ];
    assert_eq!(
        urls_to_fetch(&ts, &urls),
        vec!["https://b.example/proofs".to_string(), "https://a.example/proofs".to_string()]
    );
}

fn decl(by: u64, id: u64, url: &str, ts: u64) -> UrlDecl {
    UrlDecl { declared_by: by, id, url: url.to_string(), timestamp: ts }
}

#[test]
fn lookup_prefers_latest_own_declaration() {
    let ds = vec![
        decl(9, 1, "https://other.example/one", 1),
        decl(1, 1, "https://old.example/one", 1),
        decl(1, 1, "https://new.example/one", 5),
        decl(1, 1, "https://tie.example/one", 5),
    ];
    let fetched = vec!["https://new.example/one".to_string()];
    match lookup_url(1, &ds, &fetched) {
        UrlOfId::FromSelfVerified(u) => assert_eq!(u, "https://new.example/one"),
        _ => panic!("expected a verified own URL"),
    }
    match lookup_url(1, &ds, &vec![]) {
        UrlOfId::FromSelf(u) => assert_eq!(u, "https://new.example/one"),
        _ => panic!("expected an own URL"),
    }
}

#[test]
fn lookup_falls_back_to_first_other_declaration() {
    let ds = vec![
        decl(1, 3, "https://x.example", 1),
        decl(7, 2, "https://first.example/two", 1),
        decl(8, 2, "https://second.example/two", 9),
    ];
    let r = lookup_url(2, &ds, &vec![]);
    assert_eq!(url_status_marker(r.claim()), "??");
    match r {
        UrlOfId::FromOthers(u) => assert_eq!(u, "https://first.example/two"),
        _ => panic!("expected a URL declared by others"),
    }
    let none = lookup_url(4, &ds, &vec![]);
    assert!(matches!(none, UrlOfId::Unknown));
    assert_eq!(none.claim(), UrlClaim::Unknown);
}

#[test]
fn identities_found_by_their_own_url() {
    let ds = vec![
        decl(1, 1, "https://one.example", 1),
        decl(2, 2, "https://one.example", 1),
        decl(2, 2, "https://two.example", 3),
        decl(9, 3, "https://one.example", 1),
    ];
    assert_eq!(ids_for_url("https://one.example", &vec![1, 2, 3], &ds), vec![1]);
    assert_eq!(ids_for_url("https://two.example", &vec![1, 2, 3], &ds), vec![2]);
    assert!(ids_for_url("https://none.example", &vec![1, 2, 3], &ds).is_empty());
}

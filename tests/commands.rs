use cargo_crev::commands::{
    crate_review, new_id_url, partition_trust_args, proof_find, repo_publish, url_status_marker,
    AdviseCommon, IdUrlError, PublishAction, PublishStep, ReviewFlags, TrustProofType, UrlClaim,
};
use cargo_crev::level::{Level, Rating, Version, VersionRange};
use cargo_crev::proofs::{PackageId, Review};
use cargo_crev::source::{cargo_pkg_id_to_crev_pkg_id, cargo_registry_to_crev_source_id};
use cargo_crev::text::{has_prefix, same_text};

#[test]
fn crates_io_index_maps_to_short_source() {
    let s = cargo_registry_to_crev_source_id("registry+https://github.com/rust-lang/crates.io-index");
    assert_eq!(s, "https://crates.io");
    let other = cargo_registry_to_crev_source_id("registry+https://example.com/index");
    assert_eq!(other, "registry+https://example.com/index");
    let near = cargo_registry_to_crev_source_id("registry+https://github.com/rust-lang/crates.io-indeX");
    assert_eq!(near, "registry+https://github.com/rust-lang/crates.io-indeX");
}

#[test]
fn package_id_conversion() {
    let id = cargo_pkg_id_to_crev_pkg_id(
        "registry+https://github.com/rust-lang/crates.io-index",
        "serde",
        Version::new(1, 0, 104),
    );
    assert_eq!(id.source, "https://crates.io");
    assert_eq!(id.name, "serde");
    assert_eq!(id.version, Version::new(1, 0, 104));
}

#[test]
fn publish_commits_when_dirty() {
    assert_eq!(repo_publish(PublishStep::Diff, Some(1)), PublishAction::Run(PublishStep::Commit));
    assert_eq!(repo_publish(PublishStep::Commit, Some(0)), PublishAction::Run(PublishStep::Pull));
    assert_eq!(repo_publish(PublishStep::Pull, Some(0)), PublishAction::Run(PublishStep::Push));
    assert_eq!(repo_publish(PublishStep::Push, Some(0)), PublishAction::Exit(0));
}

#[test]
fn publish_skips_commit_when_clean_and_stops_on_failure() {
    assert_eq!(repo_publish(PublishStep::Diff, Some(0)), PublishAction::Run(PublishStep::Pull));
    assert_eq!(repo_publish(PublishStep::Diff, Some(128)), PublishAction::Exit(128));
    assert_eq!(repo_publish(PublishStep::Pull, Some(1)), PublishAction::Exit(1));
    assert_eq!(repo_publish(PublishStep::Commit, None), PublishAction::Exit(-159));
    assert_eq!(repo_publish(PublishStep::Push, None), PublishAction::Exit(-159));
}

fn flags() -> ReviewFlags {
    ReviewFlags { advisory: false, affected: None, issue: false, severity: None, skip_activity_check: false }
}

#[test]
fn plain_review_plan() {
    let p = crate_review(&flags(), false);
    assert_eq!(p.trust, TrustProofType::Trust);
    assert_eq!(p.advise, None);
    assert_eq!(p.issue, None);
    assert!(!p.skip_activity_check);
    assert_eq!(crate_review(&flags(), true).trust, TrustProofType::Untrust);
}

#[test]
fn advisory_review_plan() {
    let f = ReviewFlags { severity: Some(Level::High), ..flags() };
    let p = crate_review(&f, false);
    assert_eq!(p.advise, Some(AdviseCommon { severity: Level::High, affected: VersionRange::Major }));
    assert_eq!(p.trust, TrustProofType::Distrust);
    assert!(p.skip_activity_check);
    let g = ReviewFlags { affected: Some(VersionRange::All), ..flags() };
    assert_eq!(
        crate_review(&g, false).advise,
        Some(AdviseCommon { severity: Level::Medium, affected: VersionRange::All })
    );
}

#[test]
fn issue_review_plan() {
    let f = ReviewFlags { issue: true, severity: Some(Level::Low), ..flags() };
    let p = crate_review(&f, false);
    assert_eq!(p.issue, Some(Level::Medium));
    assert_eq!(p.advise, None);
    assert_eq!(p.trust, TrustProofType::Distrust);
    assert!(p.skip_activity_check);
}

#[test]
fn id_url_choices() {
    assert_eq!(new_id_url(Some("https://example.com/proofs"), None), Ok("https://example.com/proofs".to_string()));
    assert_eq!(new_id_url(None, Some("alice")), Ok("https://github.com/alice/crev-proofs".to_string()));
    assert_eq!(new_id_url(None, None), Err(IdUrlError::UrlOrUsername));
    assert_eq!(new_id_url(Some("https://a"), Some("alice")), Err(IdUrlError::UrlOrUsername));
    assert_eq!(new_id_url(Some("http://example.com"), None), Err(IdUrlError::NotHttps));
}

#[test]
fn url_markers() {
    assert_eq!(url_status_marker(UrlClaim::Unknown), "");
    assert_eq!(url_status_marker(UrlClaim::FromSelfVerified), "==");
    assert_eq!(url_status_marker(UrlClaim::FromSelf), "~=");
    assert_eq!(url_status_marker(UrlClaim::FromOthers), "??");
}

#[test]
fn trust_args_partition() {
    let args = vec![
        "https://github.com/a/crev-proofs".to_string(),
        "FYlr8YoYGVvDwHQxqEIs89reKKDy-oWisoO0qXXEfHE".to_string(),
        "https://github.com/b/crev-proofs".to_string(),
        "http://insecure".to_string(),
    ];
    let (urls, ids) = partition_trust_args(&args);
    assert_eq!(urls, vec![args[0].clone(), args[2].clone()]);
    assert_eq!(ids, vec![args[1].clone(), args[3].clone()]);
}

fn rv(from: u64, source: u64, name: u64, v: Version) -> Review {
    Review {
        from,
        package: PackageId { source, name },
        version: v,
        range: None,
        digest: 0,
        thoroughness: Level::Low,
        understanding: Level::Low,
        rating: Rating::Positive,
        timestamp: 0,
    }
}

#[test]
fn find_reviews() {
    let v1 = Version::new(1, 0, 0);
    let v2 = Version::new(2, 0, 0);
    let all = vec![rv(1, 7, 10, v1), rv(2, 7, 10, v2), rv(1, 8, 10, v1), rv(1, 7, 11, v2)];
    assert_eq!(proof_find(&all, 7, None, None, None), vec![all[0], all[1], all[3]]);
    assert_eq!(proof_find(&all, 7, Some(1), None, None), vec![all[0], all[3]]);
    assert_eq!(proof_find(&all, 7, None, Some(10), None), vec![all[0], all[1]]);
    assert_eq!(proof_find(&all, 7, None, Some(10), Some(v2)), vec![all[1]]);
    assert_eq!(proof_find(&all, 7, None, None, Some(v2)), vec![all[0], all[1], all[3]]);
}

#[test]
fn text_helpers() {
    assert!(has_prefix("https://x", "https://"));
    assert!(!has_prefix("http", "https://"));
    assert!(same_text("abc", "abc"));
    assert!(!same_text("abc", "abd"));
    assert!(!same_text("abc", "ab"));
}

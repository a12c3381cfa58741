//! Decisions behind the command-line operations: publishing, review planning,
//! identity URLs, argument classification and proof search.
use vstd::prelude::*;
use vstd::string::*;
use crate::level::{Level, Version, VersionRange};
use crate::proofs::{Id, Review};
use crate::text::{has_prefix, is_prefix};

verus! {

/// Steps of publishing the local proof repository, each one run by version control.
#[derive(Clone, Copy, Debug, PartialEq, Eq, Structural)]
pub enum PublishStep {
    /// Check for uncommitted changes.
    Diff,
    /// Commit every change.
    Commit,
    /// Rebase onto the remote.
    Pull,
    /// Send the result to the remote.
    Push,
}

/// What publishing does next.
#[derive(Clone, Copy, Debug, PartialEq, Eq, Structural)]
pub enum PublishAction {
    Run(PublishStep),
    Exit(i32),
}

/// Exit code that stands for a step without one.
pub const NO_EXIT_CODE: i32 = -159;

pub open spec fn exit_with(code: Option<i32>) -> PublishAction {
    PublishAction::Exit(
        match code {
            Some(c) => c,
            None => NO_EXIT_CODE,
        },
    )
}

/// Next action of publishing after `done` finished with exit code `code`: commit when the
/// diff reports changes, then rebase and push while each step succeeds, and otherwise exit
/// with the last step's code.
pub open spec fn publish_next(done: PublishStep, code: Option<i32>) -> PublishAction {
    match done {
        PublishStep::Diff => if code == Some(1i32) {
            PublishAction::Run(PublishStep::Commit)
        } else if code == Some(0i32) {
            PublishAction::Run(PublishStep::Pull)
        } else {
            exit_with(code)
        },
        PublishStep::Commit => if code == Some(0i32) {
            PublishAction::Run(PublishStep::Pull)
        } else {
            exit_with(code)
        },
        PublishStep::Pull => if code == Some(0i32) {
            PublishAction::Run(PublishStep::Push)
        } else {
            exit_with(code)
        },
        PublishStep::Push => exit_with(code),
    }
}

/// Decides the next publishing action after step `done` ended with `code`.
pub fn repo_publish(done: PublishStep, code: Option<i32>) -> (r: PublishAction)
    ensures
        r == publish_next(done, code),
{
    let exit = PublishAction::Exit(
        match code {
            Some(c) => c,
            None => NO_EXIT_CODE,
        },
    );
    let ok = match code {
        Some(c) => c == 0,
        None => false,
    };
    match done {
        PublishStep::Diff => {
            let changed = match code {
                Some(c) => c == 1,
                None => false,
            };
            if changed {
                PublishAction::Run(PublishStep::Commit)
            } else if ok {
                PublishAction::Run(PublishStep::Pull)
            } else {
                exit
            }
        },
        PublishStep::Commit => if ok {
            PublishAction::Run(PublishStep::Pull)
        } else {
            exit
        },
        PublishStep::Pull => if ok {
            PublishAction::Run(PublishStep::Push)
        } else {
            exit
        },
        PublishStep::Push => exit,
    }
}

/// Kind of trust statement that accompanies a review.
#[derive(Clone, Copy, Debug, PartialEq, Eq, Structural)]
pub enum TrustProofType {
    Trust,
    Untrust,
    Distrust,
}

/// The options of a review command.
#[derive(Clone, Copy, Debug, PartialEq, Eq, Structural)]
pub struct ReviewFlags {
    pub advisory: bool,
    pub affected: Option<VersionRange>,
    pub issue: bool,
    pub severity: Option<Level>,
    pub skip_activity_check: bool,
}

/// Severity and affected range of an advisory.
#[derive(Clone, Copy, Debug, PartialEq, Eq, Structural)]
pub struct AdviseCommon {
    pub severity: Level,
    pub affected: VersionRange,
}

/// What a review command is to produce.
#[derive(Clone, Copy, Debug, PartialEq, Eq, Structural)]
pub struct ReviewPlan {
    /// Level of the reported issue, for an issue report.
    pub issue: Option<Level>,
    /// Severity and affected range, for an advisory.
    pub advise: Option<AdviseCommon>,
    pub trust: TrustProofType,
    pub skip_activity_check: bool,
}

/// An advisory is asked for explicitly, by naming a range, or by naming a severity
/// outside an issue report.
pub open spec fn is_advisory(f: ReviewFlags) -> bool {
    f.advisory || f.affected is Some || (!f.issue && f.severity is Some)
}

pub open spec fn review_plan(f: ReviewFlags, unreview: bool) -> ReviewPlan {
    let adv = is_advisory(f);
    ReviewPlan {
        issue: if f.issue { Some(Level::Medium) } else { None },
        advise: if adv {
            Some(
                AdviseCommon {
                    severity: match f.severity {
                        Some(s) => s,
                        None => Level::Medium,
                    },
                    affected: match f.affected {
                        Some(a) => a,
                        None => VersionRange::Major,
                    },
                },
            )
        } else {
            None
        },
        trust: if adv || f.issue {
            TrustProofType::Distrust
        } else if unreview {
            TrustProofType::Untrust
        } else {
            TrustProofType::Trust
        },
        skip_activity_check: f.skip_activity_check || adv || f.issue,
    }
}

/// Plans a review (or, with `unreview`, the withdrawal of one): advisories and issue
/// reports carry distrust and skip the activity check; severity defaults to `Medium`
/// and the affected range to `Major`.
pub fn crate_review(flags: &ReviewFlags, unreview: bool) -> (r: ReviewPlan)
    ensures
        r == review_plan(*flags, unreview),
{
    let adv = flags.advisory || flags.affected.is_some() || (!flags.issue
        && flags.severity.is_some());
    let advise = if adv {
        let s = match flags.severity {
            Some(s) => s,
            None => Level::Medium,
        };
        let a = match flags.affected {
            Some(a) => a,
            None => VersionRange::Major,
        };
        Some(AdviseCommon { severity: s, affected: a })
    } else {
        None
    };
    let trust = if adv || flags.issue {
        TrustProofType::Distrust
    } else if unreview {
        TrustProofType::Untrust
    } else {
        TrustProofType::Trust
    };
    ReviewPlan {
        issue: if flags.issue { Some(Level::Medium) } else { None },
        advise,
        trust,
        skip_activity_check: flags.skip_activity_check || adv || flags.issue,
    }
}

/// How the URL of an identity is known.
#[derive(Clone, Copy, Debug, PartialEq, Eq, Structural)]
pub enum UrlClaim {
    Unknown,
    FromSelfVerified,
    FromSelf,
    FromOthers,
}

pub open spec fn url_marker(c: UrlClaim) -> Seq<char> {
    match c {
        UrlClaim::Unknown => ""@,
        UrlClaim::FromSelfVerified => "=="@,
        UrlClaim::FromSelf => "~="@,
        UrlClaim::FromOthers => "??"@,
    }
}

/// The marker printed beside an identity's URL.
pub fn url_status_marker(c: UrlClaim) -> (r: &'static str)
    ensures
        r@ == url_marker(c),
{
    match c {
        UrlClaim::Unknown => "",
        UrlClaim::FromSelfVerified => "==",
        UrlClaim::FromSelf => "~=",
        UrlClaim::FromOthers => "??",
    }
}

/// Why no URL can be given to a new identity.
#[derive(Clone, Copy, Debug, PartialEq, Eq, Structural)]
pub enum IdUrlError {
    /// Neither or both of a URL and a GitHub user name were given.
    UrlOrUsername,
    /// The URL does not start with `https://`.
    NotHttps,
}

pub open spec fn is_https(s: Seq<char>) -> bool {
    is_prefix("https://"@, s)
}

/// Whether `s` starts with `https://`.
pub fn starts_with_https(s: &str) -> (r: bool)
    ensures
        r == is_https(s@),
{
    has_prefix(s, "https://")
}

pub open spec fn github_url(user: Seq<char>) -> Seq<char> {
    "https://github.com/"@ + user + "/crev-proofs"@
}

pub open spec fn new_id_url_spec(url: Option<Seq<char>>, user: Option<Seq<char>>) -> Result<
    Seq<char>,
    IdUrlError,
> {
    let chosen = match (url, user) {
        (Some(u), None) => Some(u),
        (None, Some(n)) => Some(github_url(n)),
        _ => None,
    };
    match chosen {
        None => Err(IdUrlError::UrlOrUsername),
        Some(u) => if is_https(u) {
            Ok(u)
        } else {
            Err(IdUrlError::NotHttps)
        },
    }
}

/// URL of the proof repository of a new identity: the given URL, or the conventional
/// repository of the given GitHub user; exactly one must be given, and it must use https.
pub fn new_id_url(url: Option<&str>, github_username: Option<&str>) -> (r: Result<
    String,
    IdUrlError,
>)
    ensures
        match (r, new_id_url_spec(
            match url {
                Some(u) => Some(u@),
                None => None,
            },
            match github_username {
                Some(n) => Some(n@),
                None => None,
            },
        )) {
            (Ok(a), Ok(b)) => a@ == b,
            (Err(a), Err(b)) => a == b,
            _ => false,
        },
{
    let chosen = match (url, github_username) {
        (Some(u), None) => u.to_string(),
        (None, Some(n)) => {
            let mut s = "https://github.com/".to_string();
            s.append(n);
            s.append("/crev-proofs");
            s
        },
        _ => {
            return Err(IdUrlError::UrlOrUsername);
        },
    };
    if !starts_with_https(chosen.as_str()) {
        return Err(IdUrlError::NotHttps);
    }
    Ok(chosen)
}


/// A review is shown by a search for reviews from `source`, optionally by `author`, of the
/// package `name`, and (only where a name is given) at `version`.
pub open spec fn review_found(
    r: Review,
    source: u64,
    author: Option<Id>,
    name: Option<u64>,
    version: Option<Version>,
) -> bool {
    &&& r.package.source == source
    &&& (author matches Some(a) ==> r.from == a)
    &&& (name matches Some(n) ==> r.package.name == n && (version matches Some(v) ==> r.version
        == v))
}

/// The reviews among the first `n` of `s` that a search shows, in order.
pub open spec fn found_prefix(
    s: Seq<Review>,
    n: int,
    source: u64,
    author: Option<Id>,
    name: Option<u64>,
    version: Option<Version>,
) -> Seq<Review>
    decreases n,
{
    if n <= 0 {
        seq![]
    } else if review_found(s[n - 1], source, author, name, version) {
        found_prefix(s, n - 1, source, author, name, version).push(s[n - 1])
    } else {
        found_prefix(s, n - 1, source, author, name, version)
    }
}

/// The reviews from `source` that match the optional author, package name and version.
pub fn proof_find(
    reviews: &Vec<Review>,
    source: u64,
    author: Option<Id>,
    name: Option<u64>,
    version: Option<Version>,
) -> (r: Vec<Review>)
    ensures
        r@ == found_prefix(reviews@, reviews.len() as int, source, author, name, version),
{
    let mut out: Vec<Review> = Vec::new();
    let mut i: usize = 0;
    while i < reviews.len()
        invariant
            i <= reviews.len(),
            out@ == found_prefix(reviews@, i as int, source, author, name, version),
        decreases reviews.len() - i,
    {
        let rv = reviews[i];
        let by_author = match author {
            Some(a) => rv.from == a,
            None => true,
        };
        let by_name = match name {
            Some(n) => rv.package.name == n && match version {
                Some(v) => rv.version == v,
                None => true,
            },
            None => true,
        };
        if rv.package.source == source && by_author && by_name {
            out.push(rv);
        }
        i = i + 1;
    }
    out
}

/// The views of the first `n` arguments of `s` that do (`urls`) or do not start with `https://`.
pub open spec fn split_prefix(s: Seq<String>, n: int, urls: bool) -> Seq<Seq<char>>
    decreases n,
{
    if n <= 0 {
        seq![]
    } else if is_https(s[n - 1]@) == urls {
        split_prefix(s, n - 1, urls).push(s[n - 1]@)
    } else {
        split_prefix(s, n - 1, urls)
    }
}

/// Splits trust arguments into repository URLs and identity strings, keeping their order.
pub fn partition_trust_args(args: &Vec<String>) -> (r: (Vec<String>, Vec<String>))
    ensures
        r.0@.map_values(|x: String| x@) == split_prefix(args@, args.len() as int, true),
        r.1@.map_values(|x: String| x@) == split_prefix(args@, args.len() as int, false),
{
    let mut urls: Vec<String> = Vec::new();
    let mut ids: Vec<String> = Vec::new();
    let mut i: usize = 0;
    while i < args.len()
        invariant
            i <= args.len(),
            urls@.map_values(|x: String| x@) == split_prefix(args@, i as int, true),
            ids@.map_values(|x: String| x@) == split_prefix(args@, i as int, false),
        decreases args.len() - i,
    {
        let a = args[i].clone();
        let ghost u0 = urls@;
        let ghost d0 = ids@;
        if starts_with_https(args[i].as_str()) {
            urls.push(a);
            assert(urls@.map_values(|x: String| x@) =~= u0.map_values(|x: String| x@).push(a@));
        } else {
            ids.push(a);
            assert(ids@.map_values(|x: String| x@) =~= d0.map_values(|x: String| x@).push(a@));
        }
        i = i + 1;
    }
    (urls, ids)
}

} // verus!

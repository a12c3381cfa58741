//! Which proof repositories to refresh for a trust set, and where an identity publishes.
use vstd::prelude::*;
use crate::proofs::Id;
use crate::text::same_text;
use crate::trust::TrustSet;
use crate::commands::UrlClaim;

verus! {

/// A proof-repository URL declared for an identity.
pub struct RepoUrl {
    pub id: Id,
    pub url: String,
}

/// Some declaration among the first `n` of `urls` is for an identity the trust set reaches
/// and names `u`.
pub open spec fn wanted(ts: TrustSet, urls: Seq<RepoUrl>, n: int, u: Seq<char>) -> bool {
    exists|i: int|
        0 <= i < n && ts.distance_spec(urls[i].id) is Some && #[trigger] urls[i].url@ == u
}

fn listed(r: &Vec<String>, u: &String) -> (b: bool)
    ensures
        b == exists|k: int| 0 <= k < r.len() && #[trigger] r@[k]@ == u@,
{
    let mut k: usize = 0;
    while k < r.len()
        invariant
            k <= r.len(),
            forall|j: int| 0 <= j < k ==> r@[j]@ != u@,
        decreases r.len() - k,
    {
        if same_text(r[k].as_str(), u.as_str()) {
            return true;
        }
        k = k + 1;
    }
    false
}

/// The distinct URLs declared for identities that `ts` reaches, in order of first
/// declaration: one refresh each.
pub fn urls_to_fetch(ts: &TrustSet, urls: &Vec<RepoUrl>) -> (r: Vec<String>)
    requires
        ts.well_formed(),
    ensures
        forall|k: int| 0 <= k < r.len() ==> wanted(*ts, urls@, urls.len() as int, #[trigger] r@[k]@),
        forall|u: Seq<char>|
            wanted(*ts, urls@, urls.len() as int, u) ==> exists|k: int|
                0 <= k < r.len() && #[trigger] r@[k]@ == u,
        forall|a: int, b: int| 0 <= a < b < r.len() ==> r@[a]@ != r@[b]@,
{
    let mut r: Vec<String> = Vec::new();
    let mut i: usize = 0;
    while i < urls.len()
        invariant
            i <= urls.len(),
            ts.well_formed(),
            forall|k: int| 0 <= k < r.len() ==> wanted(*ts, urls@, i as int, #[trigger] r@[k]@),
            forall|u: Seq<char>|
                wanted(*ts, urls@, i as int, u) ==> exists|k: int|
                    0 <= k < r.len() && #[trigger] r@[k]@ == u,
            forall|a: int, b: int| 0 <= a < b < r.len() ==> r@[a]@ != r@[b]@,
        decreases urls.len() - i,
    {
        let reached = ts.distance(urls[i].id).is_some();
        let ghost r0 = r@;
        if reached && !listed(&r, &urls[i].url) {
            r.push(urls[i].url.clone());
            assert(r@[r.len() - 1]@ == urls@[i as int].url@);
        }
        proof {
            let i1: int = i + 1;
            assert forall|k: int| 0 <= k < r.len() implies wanted(
                *ts,
                urls@,
                i1,
                #[trigger] r@[k]@,
            ) by {
                if k < r0.len() {
                    assert(r@[k] == r0[k]);
                    assert(wanted(*ts, urls@, i as int, r0[k]@));
                    let j = choose|j: int|
                        0 <= j < i && ts.distance_spec(urls@[j].id) is Some && #[trigger] urls@[j].url@
                            == r0[k]@;
                    assert(0 <= j < i + 1);
                } else {
                    assert(urls@[i as int].url@ == r@[k]@);
                }
            }
            assert forall|u: Seq<char>| #[trigger] wanted(*ts, urls@, i1, u) implies exists|k: int|
                0 <= k < r.len() && #[trigger] r@[k]@ == u by {
                let j = choose|j: int|
                    0 <= j < i + 1 && ts.distance_spec(urls@[j].id) is Some && #[trigger] urls@[j].url@
                        == u;
                if j < i {
                    assert(wanted(*ts, urls@, i as int, u));
                    let k = choose|k: int| 0 <= k < r0.len() && #[trigger] r0[k]@ == u;
                    assert(r@[k] == r0[k]);
                } else if r.len() > r0.len() {
                    assert(r@[r.len() - 1]@ == u);
                } else {
                    let k = choose|k: int| 0 <= k < r0.len() && #[trigger] r0[k]@ == urls@[i as int].url@;
                    assert(r@[k]@ == u);
                }
            }
        }
        i = i + 1;
    }
    r
}


/// A signed statement, by `declared_by`, that `id` publishes its proofs at `url`.
pub struct UrlDecl {
    pub declared_by: Id,
    pub id: Id,
    pub url: String,
    pub timestamp: u64,
}

/// The best known URL of an identity.
pub enum UrlOfId {
    Unknown,
    /// Declared by the identity itself, and its repository was fetched.
    FromSelfVerified(String),
    /// Declared by the identity itself.
    FromSelf(String),
    /// Declared only by other identities.
    FromOthers(String),
}

impl UrlOfId {
    /// How the URL is known.
    pub fn claim(&self) -> (r: UrlClaim)
        ensures
            r == match self {
                UrlOfId::Unknown => UrlClaim::Unknown,
                UrlOfId::FromSelfVerified(_) => UrlClaim::FromSelfVerified,
                UrlOfId::FromSelf(_) => UrlClaim::FromSelf,
                UrlOfId::FromOthers(_) => UrlClaim::FromOthers,
            },
    {
        match self {
            UrlOfId::Unknown => UrlClaim::Unknown,
            UrlOfId::FromSelfVerified(_) => UrlClaim::FromSelfVerified,
            UrlOfId::FromSelf(_) => UrlClaim::FromSelf,
            UrlOfId::FromOthers(_) => UrlClaim::FromOthers,
        }
    }
}

pub open spec fn self_decl(d: UrlDecl, id: Id) -> bool {
    d.declared_by == id && d.id == id
}

pub open spec fn other_decl(d: UrlDecl, id: Id) -> bool {
    d.declared_by != id && d.id == id
}

/// Declaration `i` is the identity's own latest: no own declaration is later, and none as
/// late stands before it.
pub open spec fn is_latest_self(ds: Seq<UrlDecl>, id: Id, i: int) -> bool {
    0 <= i < ds.len() && self_decl(ds[i], id) && forall|j: int|
        0 <= j < ds.len() && #[trigger] self_decl(ds[j], id) ==> ds[j].timestamp < ds[i].timestamp
            || (ds[j].timestamp == ds[i].timestamp && j >= i)
}

pub open spec fn has_self_decl(ds: Seq<UrlDecl>, id: Id) -> bool {
    exists|i: int| 0 <= i < ds.len() && #[trigger] self_decl(ds[i], id)
}

/// Declaration `i` is the first one about `id` made by another identity.
pub open spec fn is_first_other(ds: Seq<UrlDecl>, id: Id, i: int) -> bool {
    0 <= i < ds.len() && other_decl(ds[i], id) && forall|j: int|
        0 <= j < i ==> !other_decl(#[trigger] ds[j], id)
}

pub open spec fn was_fetched(fetched: Seq<String>, u: Seq<char>) -> bool {
    exists|k: int| 0 <= k < fetched.len() && #[trigger] fetched[k]@ == u
}

/// The best URL known for `id`: its own latest declaration, marked verified when that
/// repository was fetched; else the first declaration by another identity.
pub fn lookup_url(id: Id, ds: &Vec<UrlDecl>, fetched: &Vec<String>) -> (r: UrlOfId)
    ensures
        match r {
            UrlOfId::FromSelfVerified(u) => exists|i: int|
                is_latest_self(ds@, id, i) && #[trigger] ds@[i].url@ == u@ && was_fetched(fetched@, u@),
            UrlOfId::FromSelf(u) => exists|i: int|
                is_latest_self(ds@, id, i) && #[trigger] ds@[i].url@ == u@ && !was_fetched(
                    fetched@,
                    u@,
                ),
            UrlOfId::FromOthers(u) => !has_self_decl(ds@, id) && exists|i: int|
                is_first_other(ds@, id, i) && #[trigger] ds@[i].url@ == u@,
            UrlOfId::Unknown => !has_self_decl(ds@, id) && forall|i: int|
                0 <= i < ds.len() ==> !other_decl(#[trigger] ds@[i], id),
        },
{
    let mut best: Option<usize> = None;
    let mut other: Option<usize> = None;
    let mut i: usize = 0;
    while i < ds.len()
        invariant
            i <= ds.len(),
            match best {
                None => forall|j: int| 0 <= j < i ==> !self_decl(#[trigger] ds@[j], id),
                Some(b) => b < i && self_decl(ds@[b as int], id) && forall|j: int|
                    0 <= j < i && #[trigger] self_decl(ds@[j], id) ==> ds@[j].timestamp
                        < ds@[b as int].timestamp || (ds@[j].timestamp == ds@[b as int].timestamp
                        && j >= b),
            },
            match other {
                None => forall|j: int| 0 <= j < i ==> !other_decl(#[trigger] ds@[j], id),
                Some(o) => o < i && is_first_other(ds@, id, o as int),
            },
        decreases ds.len() - i,
    {
        let d = &ds[i];
        if d.declared_by == id && d.id == id {
            match best {
                None => {
                    best = Some(i);
                },
                Some(b) => {
                    if d.timestamp > ds[b].timestamp {
                        best = Some(i);
                    }
                },
            }
        } else if d.id == id && other.is_none() {
            other = Some(i);
        }
        i = i + 1;
    }
    match best {
        Some(b) => {
            assert(is_latest_self(ds@, id, b as int));
            let u = ds[b].url.clone();
            assert(ds@[b as int].url@ == u@);
            if listed(fetched, &u) {
                proof {
                    let k = choose|k: int| 0 <= k < fetched.len() && #[trigger] fetched@[k]@ == u@;
                    assert(was_fetched(fetched@, u@));
                }
                UrlOfId::FromSelfVerified(u)
            } else {
                proof {
                    if was_fetched(fetched@, u@) {
                        let k = choose|k: int| 0 <= k < fetched.len() && #[trigger] fetched@[k]@ == u@;
                        assert(fetched@[k]@ == u@);
                    }
                }
                UrlOfId::FromSelf(u)
            }
        },
        None => match other {
            Some(o) => {
                let u = ds[o].url.clone();
                assert(ds@[o as int].url@ == u@);
                UrlOfId::FromOthers(u)
            },
            None => UrlOfId::Unknown,
        },
    }
}


proof fn lemma_latest_self_unique(ds: Seq<UrlDecl>, id: Id, i: int, j: int)
    requires
        is_latest_self(ds, id, i),
        is_latest_self(ds, id, j),
    ensures
        i == j,
{
    assert(self_decl(ds[i], id));
    assert(self_decl(ds[j], id));
}

/// `id`'s own latest declaration names `url`.
pub open spec fn self_claims(ds: Seq<UrlDecl>, id: Id, url: Seq<char>) -> bool {
    exists|i: int| is_latest_self(ds, id, i) && #[trigger] ds[i].url@ == url
}

/// The identities of `ids` whose own latest declaration names `url`, in order.
pub fn ids_for_url(url: &str, ids: &Vec<Id>, ds: &Vec<UrlDecl>) -> (r: Vec<Id>)
    ensures
        forall|k: int| 0 <= k < r.len() ==> ids@.contains(#[trigger] r@[k]) && self_claims(ds@, r@[k], url@),
        forall|j: int| 0 <= j < ids.len() && self_claims(ds@, #[trigger] ids@[j], url@) ==> r@.contains(ids@[j]),
{
    let mut r: Vec<Id> = Vec::new();
    let mut j: usize = 0;
    while j < ids.len()
        invariant
            j <= ids.len(),
            forall|k: int| 0 <= k < r.len() ==> ids@.contains(#[trigger] r@[k]) && self_claims(ds@, r@[k], url@),
            forall|x: int| 0 <= x < j && self_claims(ds@, #[trigger] ids@[x], url@) ==> r@.contains(ids@[x]),
        decreases ids.len() - j,
    {
        let id = ids[j];
        let found = lookup_url(id, ds, &Vec::new());
        let claims = match &found {
            UrlOfId::FromSelfVerified(u) => same_text(u.as_str(), url),
            UrlOfId::FromSelf(u) => same_text(u.as_str(), url),
            _ => false,
        };
        proof {
            match found {
                UrlOfId::FromSelfVerified(u) => {
                    let i = choose|i: int| is_latest_self(ds@, id, i) && #[trigger] ds@[i].url@ == u@;
                    if self_claims(ds@, id, url@) {
                        let i2 = choose|i2: int| is_latest_self(ds@, id, i2) && #[trigger] ds@[i2].url@ == url@;
                        lemma_latest_self_unique(ds@, id, i, i2);
                    }
                },
                UrlOfId::FromSelf(u) => {
                    let i = choose|i: int| is_latest_self(ds@, id, i) && #[trigger] ds@[i].url@ == u@;
                    if self_claims(ds@, id, url@) {
                        let i2 = choose|i2: int| is_latest_self(ds@, id, i2) && #[trigger] ds@[i2].url@ == url@;
                        lemma_latest_self_unique(ds@, id, i, i2);
                    }
                },
                _ => {
                    if self_claims(ds@, id, url@) {
                        let i2 = choose|i2: int| is_latest_self(ds@, id, i2) && #[trigger] ds@[i2].url@ == url@;
                        assert(self_decl(ds@[i2], id));
                    }
                },
            }
        }
        let ghost r0 = r@;
        if claims {
            r.push(id);
            proof {
                assert(ids@[j as int] == id);
                assert(r@[r.len() - 1] == id);
            }
        }
        proof {
            assert forall|k: int| 0 <= k < r.len() implies ids@.contains(#[trigger] r@[k]) && self_claims(ds@, r@[k], url@) by {
                if k < r0.len() {
                    assert(r@[k] == r0[k]);
                } else {
                    assert(ids@[j as int] == r@[k]);
                }
            }
            assert forall|x: int| 0 <= x < j + 1 && self_claims(ds@, #[trigger] ids@[x], url@) implies r@.contains(ids@[x]) by {
                if x < j {
                    let w = choose|w: int| 0 <= w < r0.len() && r0[w] == ids@[x];
                    assert(r@[w] == ids@[x]);
                } else {
                    assert(r@[r.len() - 1] == ids@[x]);
                }
            }
        }
        j = j + 1;
    }
    r
}

} // verus!

//! The signed-document envelope: a kind fence, the canonical body, a signature fence,
//! the signature and an end fence.
use vstd::prelude::*;
use vstd::string::*;
use crate::text::same_text;

verus! {

/// Kind of a signed document, named in its fences.
#[derive(Clone, Copy, Debug, PartialEq, Eq, Structural)]
pub enum ProofKind {
    PackageReview,
    Trust,
    CodeReview,
}

pub const PACKAGE_REVIEW_NAME: &'static str = "CREV PACKAGE REVIEW";
pub const TRUST_NAME: &'static str = "CREV TRUST";
pub const CODE_REVIEW_NAME: &'static str = "CREV CODE REVIEW";

pub open spec fn kind_name(k: ProofKind) -> Seq<char> {
    match k {
        ProofKind::PackageReview => PACKAGE_REVIEW_NAME@,
        ProofKind::Trust => TRUST_NAME@,
        ProofKind::CodeReview => CODE_REVIEW_NAME@,
    }
}

impl ProofKind {
    /// The name of the kind as it stands in the fences.
    pub fn name(&self) -> (r: &'static str)
        ensures
            r@ == kind_name(*self),
    {
        match self {
            ProofKind::PackageReview => PACKAGE_REVIEW_NAME,
            ProofKind::Trust => TRUST_NAME,
            ProofKind::CodeReview => CODE_REVIEW_NAME,
        }
    }
}

pub open spec fn begin_fence(k: ProofKind) -> Seq<char> {
    "-----BEGIN "@ + kind_name(k) + "-----\n"@
}

pub open spec fn signature_fence(k: ProofKind) -> Seq<char> {
    "\n-----BEGIN "@ + kind_name(k) + " SIGNATURE-----\n"@
}

pub open spec fn end_fence(k: ProofKind) -> Seq<char> {
    "\n-----END "@ + kind_name(k) + "-----\n"@
}

/// What opens every fence line after the first.
pub open spec fn fence_mark() -> Seq<char> {
    "\n-----"@
}

/// A signed document: its kind, canonical body and encoded signature.
pub struct Envelope {
    pub kind: ProofKind,
    pub body: String,
    pub signature: String,
}

/// The printed form of an envelope.
pub open spec fn print_spec(k: ProofKind, body: Seq<char>, sig: Seq<char>) -> Seq<char> {
    begin_fence(k) + body + signature_fence(k) + sig + end_fence(k)
}

/// `pat` stands in `t` at position `i`.
pub open spec fn occurs_at(t: Seq<char>, pat: Seq<char>, i: int) -> bool {
    0 <= i && i + pat.len() <= t.len() && t.subrange(i, i + pat.len() as int) == pat
}

/// First position at or after `i` where `pat` stands in `t`, or -1.
pub open spec fn first_at(t: Seq<char>, pat: Seq<char>, i: int) -> int
    decreases t.len() + 1 - i,
{
    if i < 0 || i + pat.len() > t.len() {
        -1
    } else if occurs_at(t, pat, i) {
        i
    } else {
        first_at(t, pat, i + 1)
    }
}

/// A body holds no fence mark and a signature no line break, so that printing can be undone.
pub open spec fn envelope_wf(body: Seq<char>, sig: Seq<char>) -> bool {
    &&& forall|i: int| 0 <= i ==> !occurs_at(body, fence_mark(), i)
    &&& forall|i: int| 0 <= i < sig.len() ==> sig[i] != '\n'
}

pub open spec fn kind_of(t: Seq<char>) -> Option<ProofKind> {
    if occurs_at(t, begin_fence(ProofKind::PackageReview), 0) {
        Some(ProofKind::PackageReview)
    } else if occurs_at(t, begin_fence(ProofKind::Trust), 0) {
        Some(ProofKind::Trust)
    } else if occurs_at(t, begin_fence(ProofKind::CodeReview), 0) {
        Some(ProofKind::CodeReview)
    } else {
        None
    }
}

/// The kind, body and signature of the envelope that `t` starts with, and where it ends.
pub open spec fn parse_prefix_spec(t: Seq<char>) -> Option<(ProofKind, Seq<char>, Seq<char>, int)> {
    match kind_of(t) {
        None => None,
        Some(k) => {
            let b = begin_fence(k).len() as int;
            let p = first_at(t, fence_mark(), b);
            let s0 = p + signature_fence(k).len();
            let q = first_at(t, "\n"@, s0);
            if p < 0 || !occurs_at(t, signature_fence(k), p) || q < 0 || !occurs_at(
                t,
                end_fence(k),
                q,
            ) {
                None
            } else {
                Some((k, t.subrange(b, p), t.subrange(s0, q), q + end_fence(k).len()))
            }
        },
    }
}

/// The kind, body and signature of the envelope that `t` holds, if it holds exactly one.
pub open spec fn parse_spec(t: Seq<char>) -> Option<(ProofKind, Seq<char>, Seq<char>)> {
    match parse_prefix_spec(t) {
        None => None,
        Some(x) => if x.3 == t.len() {
            Some((x.0, x.1, x.2))
        } else {
            None
        },
    }
}

/// Why a text is not one envelope.
#[derive(Clone, Copy, Debug, PartialEq, Eq, Structural)]
pub enum EnvelopeError {
    MalformedEnvelope,
}

/// Whether `pat` stands in `t` at `at`.
fn matches_at(t: &str, pat: &str, at: usize) -> (r: bool)
    ensures
        r == occurs_at(t@, pat@, at as int),
{
    let n = pat.unicode_len();
    let m = t.unicode_len();
    if at > m || n > m - at {
        return false;
    }
    let mut i: usize = 0;
    while i < n
        invariant
            n == pat@.len(),
            m == t@.len(),
            at + n <= m,
            i <= n,
            forall|j: int| 0 <= j < i ==> t@[at + j] == pat@[j],
        decreases n - i,
    {
        if t.get_char(at + i) != pat.get_char(i) {
            assert(t@.subrange(at as int, at + n)[i as int] != pat@[i as int]);
            return false;
        }
        i = i + 1;
    }
    assert(t@.subrange(at as int, at + n) =~= pat@);
    true
}

/// First position at or after `from` where `pat` stands in `t`.
fn find_from(t: &str, pat: &str, from: usize) -> (r: Option<usize>)
    ensures
        match r {
            Some(p) => p as int == first_at(t@, pat@, from as int),
            None => first_at(t@, pat@, from as int) == -1,
        },
{
    let n = pat.unicode_len();
    let m = t.unicode_len();
    let mut i: usize = from;
    while i <= m && n <= m - i
        invariant
            n == pat@.len(),
            m == t@.len(),
            from <= i,
            first_at(t@, pat@, from as int) == first_at(t@, pat@, i as int),
        decreases m + 1 - i,
    {
        if matches_at(t, pat, i) {
            return Some(i);
        }
        assert(i < m) by {
            if i == m {
                assert(t@.subrange(i as int, i as int) =~= pat@);
            }
        }
        i = i + 1;
    }
    None
}

/// Prints an envelope in its fenced form.
pub fn print_envelope(e: &Envelope) -> (r: String)
    ensures
        r@ == print_spec(e.kind, e.body@, e.signature@),
{
    let name = e.kind.name();
    let mut s = "-----BEGIN ".to_string();
    s.append(name);
    s.append("-----\n");
    s.append(e.body.as_str());
    s.append("\n-----BEGIN ");
    s.append(name);
    s.append(" SIGNATURE-----\n");
    s.append(e.signature.as_str());
    s.append("\n-----END ");
    s.append(name);
    s.append("-----\n");
    assert(s@ =~= print_spec(e.kind, e.body@, e.signature@));
    s
}


proof fn lemma_first_at(t: Seq<char>, pat: Seq<char>, i: int)
    ensures
        first_at(t, pat, i) == -1 || (i <= first_at(t, pat, i) && occurs_at(
            t,
            pat,
            first_at(t, pat, i),
        )),
    decreases t.len() + 1 - i,
{
    if i < 0 || i + pat.len() > t.len() {
    } else if occurs_at(t, pat, i) {
    } else {
        lemma_first_at(t, pat, i + 1);
    }
}

proof fn lemma_first_at_is(t: Seq<char>, pat: Seq<char>, i: int, p: int)
    requires
        0 <= i <= p,
        occurs_at(t, pat, p),
        forall|j: int| i <= j < p ==> !occurs_at(t, pat, j),
    ensures
        first_at(t, pat, i) == p,
    decreases p - i,
{
    if i < p {
        lemma_first_at_is(t, pat, i + 1, p);
    }
}

fn begin_fence_text(k: ProofKind) -> (r: String)
    ensures
        r@ == begin_fence(k),
{
    let mut s = "-----BEGIN ".to_string();
    s.append(k.name());
    s.append("-----\n");
    s
}

fn signature_fence_text(k: ProofKind) -> (r: String)
    ensures
        r@ == signature_fence(k),
{
    let mut s = "\n-----BEGIN ".to_string();
    s.append(k.name());
    s.append(" SIGNATURE-----\n");
    s
}

fn end_fence_text(k: ProofKind) -> (r: String)
    ensures
        r@ == end_fence(k),
{
    let mut s = "\n-----END ".to_string();
    s.append(k.name());
    s.append("-----\n");
    s
}

/// Reads the envelope that `text` starts with, and the position where it ends.
pub fn parse_prefix(text: &str) -> (r: Option<(Envelope, usize)>)
    ensures
        match (r, parse_prefix_spec(text@)) {
            (Some((e, n)), Some(x)) => e.kind == x.0 && e.body@ == x.1 && e.signature@ == x.2
                && n as int == x.3,
            (None, None) => true,
            _ => false,
        },
{
    let m = text.unicode_len();
    let k = match leading_kind(text) {
        Some(k) => k,
        None => {
            return None;
        },
    };
    let bf = begin_fence_text(k);
    let b = bf.unicode_len();
    let p = match find_from(text, "\n-----", b) {
        Some(p) => p,
        None => {
            return None;
        },
    };
    proof {
        lemma_first_at(text@, fence_mark(), b as int);
    }
    let sf = signature_fence_text(k);
    if !matches_at(text, sf.as_str(), p) {
        return None;
    }
    let sl = sf.unicode_len();
    assert(p + sl <= m);
    let s0 = p + sl;
    let q = match find_from(text, "\n", s0) {
        Some(q) => q,
        None => {
            return None;
        },
    };
    proof {
        lemma_first_at(text@, "\n"@, s0 as int);
    }
    let ef = end_fence_text(k);
    if !matches_at(text, ef.as_str(), q) {
        return None;
    }
    let el = ef.unicode_len();
    assert(q + el <= m);
    let n = q + el;
    let body = text.substring_char(b, p).to_string();
    let signature = text.substring_char(s0, q).to_string();
    Some((Envelope { kind: k, body, signature }, n))
}

/// Reads the one envelope that `text` holds.
pub fn parse_envelope(text: &str) -> (r: Result<Envelope, EnvelopeError>)
    ensures
        match (r, parse_spec(text@)) {
            (Ok(e), Some(x)) => e.kind == x.0 && e.body@ == x.1 && e.signature@ == x.2,
            (Err(_), None) => true,
            _ => false,
        },
{
    let m = text.unicode_len();
    match parse_prefix(text) {
        Some((e, n)) => if n == m {
            Ok(e)
        } else {
            Err(EnvelopeError::MalformedEnvelope)
        },
        None => Err(EnvelopeError::MalformedEnvelope),
    }
}

proof fn lemma_literals()
    ensures
        "-----BEGIN "@ =~= seq!['-', '-', '-', '-', '-', 'B', 'E', 'G', 'I', 'N', ' '],
        "\n-----"@ =~= seq!['\n', '-', '-', '-', '-', '-'],
        "\n"@ =~= seq!['\n'],
        "\n-----BEGIN "@ =~= seq!['\n', '-', '-', '-', '-', '-', 'B', 'E', 'G', 'I', 'N', ' '],
        "\n-----END "@ =~= seq!['\n', '-', '-', '-', '-', '-', 'E', 'N', 'D', ' '],
        PACKAGE_REVIEW_NAME@.len() == 19 && PACKAGE_REVIEW_NAME@[5] == 'P',
        TRUST_NAME@.len() == 10 && TRUST_NAME@[5] == 'T',
        CODE_REVIEW_NAME@.len() == 16 && CODE_REVIEW_NAME@[5] == 'C',
{
    reveal_strlit("-----BEGIN ");
    reveal_strlit("\n-----");
    reveal_strlit("\n");
    reveal_strlit("\n-----BEGIN ");
    reveal_strlit("\n-----END ");
    reveal_strlit("CREV PACKAGE REVIEW");
    reveal_strlit("CREV TRUST");
    reveal_strlit("CREV CODE REVIEW");
}

proof fn lemma_print_parts(k: ProofKind, body: Seq<char>, sig: Seq<char>)
    ensures
        ({
            let t = print_spec(k, body, sig);
            let b = begin_fence(k).len() as int;
            let p = b + body.len();
            let s0 = p + signature_fence(k).len();
            let q = s0 + sig.len();
            &&& t.len() == q + end_fence(k).len()
            &&& t.subrange(0, b) == begin_fence(k)
            &&& t.subrange(b, p) == body
            &&& t.subrange(p, s0) == signature_fence(k)
            &&& t.subrange(s0, q) == sig
            &&& t.subrange(q, t.len() as int) == end_fence(k)
        }),
{
    let t = print_spec(k, body, sig);
    let b = begin_fence(k).len() as int;
    let p = b + body.len();
    let s0 = p + signature_fence(k).len();
    let q = s0 + sig.len();
    assert(t.subrange(0, b) =~= begin_fence(k));
    assert(t.subrange(b, p) =~= body);
    assert(t.subrange(p, s0) =~= signature_fence(k));
    assert(t.subrange(s0, q) =~= sig);
    assert(t.subrange(q, t.len() as int) =~= end_fence(k));
}

proof fn lemma_kind_of(t: Seq<char>, k: ProofKind)
    requires
        begin_fence(k).len() <= t.len(),
        t.subrange(0, begin_fence(k).len() as int) == begin_fence(k),
    ensures
        kind_of(t) == Some(k),
{
    lemma_literals();
    let bf = begin_fence(k);
    assert(bf[16] == kind_name(k)[5]);
    assert(t[16] == t.subrange(0, bf.len() as int)[16]);
    assert forall|k2: ProofKind| k2 != k implies !occurs_at(t, begin_fence(k2), 0) by {
        if occurs_at(t, begin_fence(k2), 0) {
            assert(begin_fence(k2)[16] == kind_name(k2)[5]);
            assert(t.subrange(0, begin_fence(k2).len() as int)[16] == begin_fence(k2)[16]);
        }
    }
    assert(occurs_at(t, bf, 0));
}

proof fn lemma_mark_first(t: Seq<char>, body: Seq<char>, b: int, p: int)
    requires
        0 <= b,
        p == b + body.len(),
        p + 6 <= t.len(),
        t.subrange(b, p) == body,
        t.subrange(p, p + 6) == fence_mark(),
        forall|i: int| 0 <= i ==> !occurs_at(body, fence_mark(), i),
    ensures
        first_at(t, fence_mark(), b) == p,
{
    lemma_literals();
    let mark = fence_mark();
    assert(t[p] == t.subrange(p, p + 6)[0]);
    assert forall|j: int| b <= j < p implies !occurs_at(t, mark, j) by {
        if j + 6 <= p {
            assert(t.subrange(j, j + 6) =~= body.subrange(j - b, j - b + 6));
            assert(!occurs_at(body, mark, j - b));
        } else if occurs_at(t, mark, j) {
            assert(t.subrange(j, j + 6)[p - j] == t[p]);
        }
    }
    lemma_first_at_is(t, mark, b, p);
}

proof fn lemma_newline_first(t: Seq<char>, sig: Seq<char>, s0: int, q: int)
    requires
        0 <= s0,
        q == s0 + sig.len(),
        q < t.len(),
        t.subrange(s0, q) == sig,
        t[q] == '\n',
        forall|i: int| 0 <= i < sig.len() ==> sig[i] != '\n',
    ensures
        first_at(t, "\n"@, s0) == q,
{
    lemma_literals();
    assert(t.subrange(q, q + 1) =~= "\n"@);
    assert forall|j: int| s0 <= j < q implies !occurs_at(t, "\n"@, j) by {
        assert(t[j] == t.subrange(s0, q)[j - s0]);
        if occurs_at(t, "\n"@, j) {
            assert(t.subrange(j, j + 1)[0] == t[j]);
        }
    }
    lemma_first_at_is(t, "\n"@, s0, q);
}

proof fn lemma_parse_prefix_print(
    k: ProofKind,
    body: Seq<char>,
    sig: Seq<char>,
    rest: Seq<char>,
)
    requires
        envelope_wf(body, sig),
    ensures
        parse_prefix_spec(print_spec(k, body, sig) + rest) == Some(
            (k, body, sig, print_spec(k, body, sig).len() as int),
        ),
{
    lemma_literals();
    lemma_print_parts(k, body, sig);
    let t0 = print_spec(k, body, sig);
    let t = t0 + rest;
    let sf = signature_fence(k);
    let ef = end_fence(k);
    let b = begin_fence(k).len() as int;
    let p = b + body.len();
    let s0 = p + sf.len();
    let q = s0 + sig.len();
    assert(t.subrange(0, b) =~= t0.subrange(0, b));
    assert(t.subrange(b, p) =~= t0.subrange(b, p));
    assert(t.subrange(p, s0) =~= t0.subrange(p, s0));
    assert(t.subrange(s0, q) =~= t0.subrange(s0, q));
    assert(t.subrange(q, t0.len() as int) =~= t0.subrange(q, t0.len() as int));
    lemma_kind_of(t, k);
    assert(t.subrange(p, p + 6) =~= t.subrange(p, s0).subrange(0, 6));
    assert(sf.subrange(0, 6) =~= fence_mark());
    lemma_mark_first(t, body, b, p);
    assert(t[q] == t.subrange(q, t0.len() as int)[0]);
    lemma_newline_first(t, sig, s0, q);
    assert(occurs_at(t, sf, p));
    assert(occurs_at(t, ef, q));
}

/// Parsing the printed form of a well-formed envelope gives back its kind, body and
/// signature.
pub proof fn lemma_parse_print(k: ProofKind, body: Seq<char>, sig: Seq<char>)
    requires
        envelope_wf(body, sig),
    ensures
        parse_spec(print_spec(k, body, sig)) == Some((k, body, sig)),
{
    let empty: Seq<char> = seq![];
    lemma_parse_prefix_print(k, body, sig, empty);
    assert(print_spec(k, body, sig) + empty =~= print_spec(k, body, sig));
}

/// The printed forms of `es`, one after another.
pub open spec fn print_all(es: Seq<(ProofKind, Seq<char>, Seq<char>)>) -> Seq<char>
    decreases es.len(),
{
    if es.len() == 0 {
        seq![]
    } else {
        print_spec(es[0].0, es[0].1, es[0].2) + print_all(es.subrange(1, es.len() as int))
    }
}

/// Parsing well-formed envelopes printed one after another gives them back, in order.
pub proof fn lemma_parse_stream_print(es: Seq<(ProofKind, Seq<char>, Seq<char>)>)
    requires
        forall|i: int| 0 <= i < es.len() ==> envelope_wf(#[trigger] es[i].1, es[i].2),
    ensures
        parse_stream_spec(print_all(es)) == Some(es),
    decreases es.len(),
{
    lemma_literals();
    if es.len() == 0 {
        assert(es =~= seq![]);
    } else {
        let e = es[0];
        let more = es.subrange(1, es.len() as int);
        let t0 = print_spec(e.0, e.1, e.2);
        let t = print_all(es);
        assert(envelope_wf(es[0].1, es[0].2));
        lemma_parse_prefix_print(e.0, e.1, e.2, print_all(more));
        lemma_print_parts(e.0, e.1, e.2);
        assert(t[0] == begin_fence(e.0)[0]) by {
            assert(t[0] == t0.subrange(0, begin_fence(e.0).len() as int)[0]);
        }
        assert(skip_breaks(t, 0) == 0);
        assert(t.subrange(0, t.len() as int) =~= t);
        assert(t.subrange(t0.len() as int, t.len() as int) =~= print_all(more));
        assert forall|i: int| 0 <= i < more.len() implies envelope_wf(#[trigger] more[i].1, more[i].2) by {
            assert(more[i] == es[i + 1]);
        }
        lemma_parse_stream_print(more);
        assert(seq![(e.0, e.1, e.2)] + more =~= es);
    }
}

/// Position of the first character of `t` at or after `i` that is not a line break.
pub open spec fn skip_breaks(t: Seq<char>, i: int) -> int
    decreases t.len() - i,
{
    if i < 0 || i >= t.len() || t[i] != '\n' {
        i
    } else {
        skip_breaks(t, i + 1)
    }
}

/// The envelopes that the stream `t` holds, in order, separated by optional blank lines.
pub open spec fn parse_stream_spec(t: Seq<char>) -> Option<Seq<(ProofKind, Seq<char>, Seq<char>)>>
    decreases t.len(),
{
    let s = skip_breaks(t, 0);
    if s < 0 || s >= t.len() {
        Some(seq![])
    } else {
        let u = t.subrange(s, t.len() as int);
        match parse_prefix_spec(u) {
            None => None,
            Some(x) => if x.3 <= 0 || x.3 > u.len() {
                None
            } else {
                match parse_stream_spec(u.subrange(x.3, u.len() as int)) {
                    None => None,
                    Some(rest) => Some(seq![(x.0, x.1, x.2)] + rest),
                }
            },
        }
    }
}

pub open spec fn envelope_view(e: Envelope) -> (ProofKind, Seq<char>, Seq<char>) {
    (e.kind, e.body@, e.signature@)
}

/// Kind of the envelope that `t` starts with.
fn leading_kind(t: &str) -> (r: Option<ProofKind>)
    ensures
        r == kind_of(t@),
{
    if matches_at(t, begin_fence_text(ProofKind::PackageReview).as_str(), 0) {
        Some(ProofKind::PackageReview)
    } else if matches_at(t, begin_fence_text(ProofKind::Trust).as_str(), 0) {
        Some(ProofKind::Trust)
    } else if matches_at(t, begin_fence_text(ProofKind::CodeReview).as_str(), 0) {
        Some(ProofKind::CodeReview)
    } else {
        None
    }
}

/// Reads every envelope of a stream; fails on a truncated or interleaved one.
pub fn parse_stream(text: &str) -> (r: Result<Vec<Envelope>, EnvelopeError>)
    ensures
        match (r, parse_stream_spec(text@)) {
            (Ok(es), Some(x)) => es@.map_values(|e: Envelope| envelope_view(e)) == x,
            (Err(_), None) => true,
            _ => false,
        },
{
    let mut out: Vec<Envelope> = Vec::new();
    let mut cur: &str = text;
    let mut m = cur.unicode_len();
    loop
        invariant
            m == cur@.len(),
            parse_stream_spec(text@) == match parse_stream_spec(cur@) {
                None => None,
                Some(rest) => Some(out@.map_values(|e: Envelope| envelope_view(e)) + rest),
            },
        decreases m,
    {
        let mut s: usize = 0;
        while s < m && cur.get_char(s) == '\n'
            invariant
                m == cur@.len(),
                s <= m,
                skip_breaks(cur@, 0) == skip_breaks(cur@, s as int),
            decreases m - s,
        {
            s = s + 1;
        }
        if s >= m {
            assert(parse_stream_spec(cur@) == Some(Seq::<(ProofKind, Seq<char>, Seq<char>)>::empty()));
            assert(out@.map_values(|e: Envelope| envelope_view(e)) + Seq::<(ProofKind, Seq<char>, Seq<char>)>::empty()
                =~= out@.map_values(|e: Envelope| envelope_view(e)));
            return Ok(out);
        }
        let u = cur.substring_char(s, m);
        let ul = m - s;
        let (e, n) = match parse_prefix(u) {
            Some(x) => x,
            None => {
                return Err(EnvelopeError::MalformedEnvelope);
            },
        };
        if n == 0 || n > ul {
            return Err(EnvelopeError::MalformedEnvelope);
        }
        let ghost o0 = out@;
        out.push(e);
        proof {
            assert(out@.map_values(|e: Envelope| envelope_view(e)) =~= o0.map_values(
                |e: Envelope| envelope_view(e),
            ).push(envelope_view(e)));
            let rest = u@.subrange(n as int, ul as int);
            match parse_stream_spec(rest) {
                None => {},
                Some(r) => {
                    assert(o0.map_values(|e: Envelope| envelope_view(e)) + (seq![envelope_view(e)] + r)
                        =~= out@.map_values(|e: Envelope| envelope_view(e)) + r);
                },
            }
        }
        cur = u.substring_char(n, ul);
        m = ul - n;
    }
}


/// Envelope `i` of `es` is the first with its body.
pub open spec fn first_with_body(es: Seq<Envelope>, i: int) -> bool {
    0 <= i < es.len() && forall|j: int| 0 <= j < i ==> (#[trigger] es[j]).body@ != es[i].body@
}

/// Positions of the envelopes of `es` that are kept at ingest, in order: a later envelope
/// with the same body as an earlier one is a duplicate and is dropped.
pub fn distinct_bodies(es: &Vec<Envelope>) -> (r: Vec<usize>)
    ensures
        forall|k: int| 0 <= k < r.len() ==> first_with_body(es@, #[trigger] r@[k] as int),
        forall|i: int| first_with_body(es@, i) ==> r@.contains(i as usize),
        forall|a: int, b: int| 0 <= a < b < r.len() ==> r@[a] < r@[b],
{
    let mut r: Vec<usize> = Vec::new();
    let mut i: usize = 0;
    while i < es.len()
        invariant
            i <= es.len(),
            forall|k: int| 0 <= k < r.len() ==> first_with_body(es@, #[trigger] r@[k] as int),
            forall|k: int| 0 <= k < r.len() ==> #[trigger] r@[k] < i,
            forall|x: int| 0 <= x < i && first_with_body(es@, x) ==> r@.contains(x as usize),
            forall|a: int, b: int| 0 <= a < b < r.len() ==> r@[a] < r@[b],
        decreases es.len() - i,
    {
        let mut fresh = true;
        let mut j: usize = 0;
        while j < i
            invariant
                i < es.len(),
                j <= i,
                fresh == forall|y: int| 0 <= y < j ==> (#[trigger] es@[y]).body@ != es@[i as int].body@,
            decreases i - j,
        {
            if same_text(es[j].body.as_str(), es[i].body.as_str()) {
                fresh = false;
            }
            j = j + 1;
        }
        let ghost r0 = r@;
        if fresh {
            r.push(i);
            assert(r@[r.len() - 1] == i);
        }
        proof {
            assert forall|x: int| 0 <= x < i + 1 && first_with_body(es@, x) implies r@.contains(
                x as usize,
            ) by {
                if x == i {
                    assert(r@[r.len() - 1] == i);
                } else {
                    assert(r0.contains(x as usize));
                    let w = choose|w: int| 0 <= w < r0.len() && r0[w] == x as usize;
                    assert(r@[w] == x as usize);
                }
            }
        }
        i = i + 1;
    }
    r
}

} // verus!

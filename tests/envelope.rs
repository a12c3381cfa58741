use cargo_crev::envelope::{distinct_bodies, parse_envelope, parse_stream, print_envelope, Envelope, EnvelopeError, ProofKind};

fn env(kind: ProofKind, body: &str, sig: &str) -> Envelope {
    Envelope { kind, body: body.to_string(), signature: sig.to_string() }
}

#[test]
fn prints_fenced_form() {
    let text = print_envelope(&env(ProofKind::Trust, "kind: trust\nlevel: high", "c2lnbmF0dXJl"));
    assert_eq!(
        text,
        "-----BEGIN CREV TRUST-----\nkind: trust\nlevel: high\n-----BEGIN CREV TRUST SIGNATURE-----\nc2lnbmF0dXJl\n-----END CREV TRUST-----\n"
    );
}

#[test]
fn print_then_parse_round_trips() {
    for kind in [ProofKind::PackageReview, ProofKind::Trust, ProofKind::CodeReview] {
        let e = env(kind, "version: -1\nfrom:\n  id: abc\n- item ---", "AbC-_09");
        let back = parse_envelope(&print_envelope(&e)).unwrap();
        assert_eq!(back.kind, kind);
        assert_eq!(back.body, e.body);
        assert_eq!(back.signature, e.signature);
    }
}

#[test]
fn empty_body_round_trips() {
    let e = env(ProofKind::CodeReview, "", "");
    let back = parse_envelope(&print_envelope(&e)).unwrap();
    assert_eq!(back.body, "");
    assert_eq!(back.signature, "");
}

#[test]
fn truncated_envelope_is_malformed() {
    let text = print_envelope(&env(ProofKind::Trust, "a: b", "sig"));
    let cut = &text[..text.len() - 3];
    assert!(matches!(parse_envelope(cut), Err(EnvelopeError::MalformedEnvelope)));
}

#[test]
fn mismatched_fences_are_malformed() {
    let text = "-----BEGIN CREV TRUST-----\na: b\n-----BEGIN CREV PACKAGE REVIEW SIGNATURE-----\nsig\n-----END CREV TRUST-----\n";
    assert!(parse_envelope(text).is_err());
    let text2 = "-----BEGIN CREV TRUST-----\na: b\n-----BEGIN CREV TRUST SIGNATURE-----\nsig\n-----END CREV CODE REVIEW-----\n";
    assert!(parse_envelope(text2).is_err());
    assert!(parse_envelope("-----BEGIN CREV ID-----\n").is_err());
    assert!(parse_envelope("").is_err());
}

#[test]
fn trailing_text_is_malformed() {
    let mut text = print_envelope(&env(ProofKind::Trust, "a: b", "sig"));
    text.push_str("extra");
    assert!(parse_envelope(&text).is_err());
}

#[test]
fn stream_with_blank_separators() {
    let a = env(ProofKind::Trust, "a: 1", "s1");
    let b = env(ProofKind::PackageReview, "b: 2\nc: 3", "s2");
    let mut text = String::from("\n");
    text.push_str(&print_envelope(&a));
    text.push_str("\n\n");
    text.push_str(&print_envelope(&b));
    text.push('\n');
    let es = parse_stream(&text).unwrap();
    assert_eq!(es.len(), 2);
    assert_eq!(es[0].kind, ProofKind::Trust);
    assert_eq!(es[0].body, "a: 1");
    assert_eq!(es[0].signature, "s1");
    assert_eq!(es[1].kind, ProofKind::PackageReview);
    assert_eq!(es[1].body, "b: 2\nc: 3");
    assert_eq!(es[1].signature, "s2");
}

#[test]
fn empty_stream_has_no_envelopes() {
    assert_eq!(parse_stream("").unwrap().len(), 0);
    assert_eq!(parse_stream("\n\n").unwrap().len(), 0);
}

#[test]
fn stream_with_truncated_envelope_fails() {
    let mut text = print_envelope(&env(ProofKind::Trust, "a: 1", "s1"));
    let second = print_envelope(&env(ProofKind::Trust, "b: 2", "s2"));
    text.push_str(&second[..second.len() - 10]);
    assert!(parse_stream(&text).is_err());
}

#[test]
fn stream_with_interleaved_envelopes_fails() {
    let text = "-----BEGIN CREV TRUST-----\na: 1\n-----BEGIN CREV PACKAGE REVIEW-----\nb\n-----BEGIN CREV TRUST SIGNATURE-----\ns\n-----END CREV TRUST-----\n";
    assert!(parse_stream(text).is_err());
}

#[test]
fn duplicate_bodies_are_dropped() {
    let es = vec![
        env(ProofKind::Trust, "a: 1", "s1"),
        env(ProofKind::Trust, "b: 2", "s2"),
        env(ProofKind::Trust, "a: 1", "s3"),
        env(ProofKind::Trust, "a: 1 ", "s4"),
    ];
    assert_eq!(distinct_bodies(&es), vec![0, 1, 3]);
}

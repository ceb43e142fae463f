use aliyunddns::common::canonical_query;
use aliyunddns::common::sign;
use aliyunddns::common::signed_query;
use aliyunddns::common::CommonParams;

fn s(text: &str) -> String {
    text.to_string()
}

#[test]
fn canonical_query_percent_encodes_and_joins() {
    let params = vec![(s("a b"), s("c/d")), (s("k"), s("v~w"))];
    let q = canonical_query(&params);
    assert_eq!(q, b"a%20b=c%2Fd&k=v~w".to_vec());
}

#[test]
fn canonical_query_empty_list_is_empty() {
    let params: Vec<(String, String)> = Vec::new();
    assert_eq!(canonical_query(&params), Vec::<u8>::new());
}

#[test]
fn canonical_query_distinguishes_values() {
    let q1 = canonical_query(&vec![(s("Action"), s("DescribeDomains"))]);
    let q2 = canonical_query(&vec![(s("Action"), s("DescribeDomainRecords"))]);
    assert_ne!(q1, q2);
}

#[test]
fn sign_known_vector() {
    let params = vec![(s("Action"), s("DescribeDomains"))];
    let (sig, sorted) = sign(
        s("GET"),
        s("testsecret"),
        s("testid"),
        params,
        s("2021-01-01T12:00:00Z"),
        s("abcdefghijklmnopqrstu"),
    );
    let expected = vec![
        (s("AccessKeyId"), s("testid")),
        (s("Action"), s("DescribeDomains")),
        (s("Format"), s("JSON")),
        (s("SignatureMethod"), s("HMAC-SHA1")),
        (s("SignatureNonce"), s("abcdefghijklmnopqrstu")),
        (s("SignatureVersion"), s("1.0")),
        (s("Timestamp"), s("2021-01-01T12:00:00Z")),
        (s("Version"), s("2015-01-09")),
    ];
    assert_eq!(sorted, expected);
    assert_eq!(sig, s("k/Pm28PUZncHZ2ZwfiDagax5mqY="));
}

#[test]
fn sign_escapes_a_tilde_in_the_string_to_sign() {
    // `~` survives both percent-encoding passes and is rewritten to
    // `%7E` only by the provider's final substitution
    let (sig, _) = sign(
        s("GET"),
        s("testsecret"),
        s("testid"),
        vec![(s("Key"), s("v~w"))],
        s("2021-01-01T12:00:00Z"),
        s("abcdefghijklmnopqrstu"),
    );
    assert_eq!(sig, s("U7JFKBkBDP5+iNm7QdVTMKmaGRw="));
}

#[test]
fn canonical_query_encodes_utf8_bytes() {
    let q = canonical_query(&vec![(s("k"), s("café"))]);
    assert_eq!(q, b"k=caf%C3%A9".to_vec());
}

#[test]
fn sign_is_deterministic() {
    let make = || {
        sign(
            s("GET"),
            s("testsecret"),
            s("testid"),
            vec![(s("Action"), s("DescribeDomains"))],
            s("2021-01-01T12:00:00Z"),
            s("abcdefghijklmnopqrstu"),
        )
    };
    let (sig1, sorted1) = make();
    let (sig2, sorted2) = make();
    assert_eq!(sig1, sig2);
    assert_eq!(sorted1, sorted2);
}

#[test]
fn sign_changes_with_a_parameter_value() {
    let base = sign(
        s("GET"),
        s("testsecret"),
        s("testid"),
        vec![(s("Action"), s("DescribeDomains"))],
        s("2021-01-01T12:00:00Z"),
        s("abcdefghijklmnopqrstu"),
    );
    let changed = sign(
        s("GET"),
        s("testsecret"),
        s("testid"),
        vec![(s("Action"), s("DescribeDomainRecords"))],
        s("2021-01-01T12:00:00Z"),
        s("abcdefghijklmnopqrstu"),
    );
    assert_ne!(base.0, changed.0);
}

#[test]
fn caller_parameter_is_not_overwritten_by_common_ones() {
    let (_, sorted) = sign(
        s("GET"),
        s("secret"),
        s("id"),
        vec![(s("Format"), s("XML"))],
        s("2021-01-01T12:00:00Z"),
        s("abcdefghijklmnopqrstu"),
    );
    let format = sorted.iter().find(|p| p.0 == "Format").unwrap();
    assert_eq!(format.1, s("XML"));
}

#[test]
fn signed_query_leads_with_signature_and_fresh_nonce() {
    let q = signed_query(
        s("testid"),
        s("testsecret"),
        vec![(s("Action"), s("DescribeDomains"))],
    );
    assert!(q.len() >= 2);
    assert_eq!(q[0].0, s("Signature"));
    assert!(!q[0].1.is_empty());
    let nonce = q.iter().find(|p| p.0 == "SignatureNonce").unwrap();
    assert_eq!(nonce.1.chars().count(), 21);
    let action = q.iter().find(|p| p.0 == "Action").unwrap();
    assert_eq!(action.1, s("DescribeDomains"));
}

#[test]
fn common_params_default_holds_protocol_constants() {
    let mut common = CommonParams::default();
    assert_eq!(common.format, s("JSON"));
    assert_eq!(common.version, s("2015-01-09"));
    assert_eq!(common.signature_method, s("HMAC-SHA1"));
    assert_eq!(common.signature_version, s("1.0"));
    assert_eq!(common.signature_nonce.chars().count(), 21);
    assert!(common.access_key_id.is_empty());
    common.access_key_id(s("testid"));
    assert_eq!(common.access_key_id, s("testid"));
}

#[test]
fn two_nonces_differ() {
    let a = CommonParams::default();
    let b = CommonParams::default();
    assert_ne!(a.signature_nonce, b.signature_nonce);
}

#[test]
fn nonce_uses_the_url_safe_alphabet() {
    let common = CommonParams::default();
    assert!(common
        .signature_nonce
        .chars()
        .all(|c| c == '_' || c == '-' || c.is_ascii_alphanumeric()));
}

#[test]
fn timestamp_is_rfc3339_utc_to_the_second() {
    let ts: Vec<char> = CommonParams::default().timestamp.chars().collect();
    let n = ts.len();
    assert!(n >= 20);
    assert_eq!(ts[n - 1], 'Z');
    assert_eq!(ts[n - 10], 'T');
    assert_eq!(ts[n - 4], ':');
    assert_eq!(ts[n - 7], ':');
    assert_eq!(ts[n - 13], '-');
    assert_eq!(ts[n - 16], '-');
    for i in [2, 3, 5, 6, 8, 9, 11, 12, 14, 15] {
        assert!(ts[n - i].is_ascii_digit());
    }
}

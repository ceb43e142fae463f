use aliyunddns::cli::Mode;
use aliyunddns::cli::Options;
use aliyunddns::error::DdnsError;
use aliyunddns::record::split;
use std::str::FromStr;

fn s(text: &str) -> String {
    text.to_string()
}

fn options_with(domains: Vec<String>) -> Options {
    let mut opt = Options::new(Mode::Cli);
    opt.domains = domains;
    opt
}

#[test]
fn split_three_labels() {
    let opt = options_with(vec![s("home.example.com")]);
    let pairs = split(&opt).unwrap();
    assert_eq!(pairs, vec![(s("home"), s("example.com"))]);
}

#[test]
fn split_four_labels_joins_the_prefix() {
    let opt = options_with(vec![s("a.b.c.d")]);
    let pairs = split(&opt).unwrap();
    assert_eq!(pairs, vec![(s("a.b"), s("c.d"))]);
}

#[test]
fn split_rejects_two_labels() {
    let opt = options_with(vec![s("example.com")]);
    match split(&opt) {
        Err(DdnsError::InvalidDomain(d)) => assert_eq!(d, s("example.com")),
        other => panic!("expected an invalid-domain error, got {:?}", other),
    }
}

#[test]
fn split_rejects_single_label() {
    let opt = options_with(vec![s("localhost")]);
    assert!(split(&opt).is_err());
}

#[test]
fn split_sorts_labels_by_byte_order() {
    let opt = options_with(vec![s("www.example.com"), s("api.example.org")]);
    let pairs = split(&opt).unwrap();
    assert_eq!(
        pairs,
        vec![(s("api"), s("example.org")), (s("www"), s("example.com"))]
    );
}

#[test]
fn split_keeps_the_last_zone_for_a_duplicate_label() {
    let opt = options_with(vec![s("home.a.com"), s("home.b.com")]);
    let pairs = split(&opt).unwrap();
    assert_eq!(pairs, vec![(s("home"), s("b.com"))]);
}

#[test]
fn split_rejects_on_the_first_invalid_name() {
    let opt = options_with(vec![s("home.example.com"), s("bad")]);
    assert!(split(&opt).is_err());
}

#[test]
fn sqlit_domain_splits_on_commas() {
    assert_eq!(
        Options::sqlit_domain("a.b.c,d.e.f"),
        vec![s("a.b.c"), s("d.e.f")]
    );
}

#[test]
fn sqlit_domain_without_comma_is_one_name() {
    assert_eq!(Options::sqlit_domain("a.b.c"), vec![s("a.b.c")]);
}

#[test]
fn options_defaults() {
    let opt = Options::new(Mode::Env);
    assert!(opt.access_key_id.is_none());
    assert!(opt.access_key_secret.is_none());
    assert_eq!(opt.region_id, s("cn-hangzhou"));
    assert!(opt.domains.is_empty());
    assert_eq!(opt.period, 600);
    assert_eq!(opt.ttl, 600);
    assert!(opt.verify().is_ok());
}

#[test]
fn missing_credentials_are_fatal_configuration_errors() {
    let mut opt = Options::new(Mode::Cli);
    assert_eq!(opt.credentials(), Err(DdnsError::MissingAccessKeyId));
    opt.access_key_id = Some(s("id"));
    assert_eq!(opt.credentials(), Err(DdnsError::MissingAccessKeySecret));
    opt.access_key_secret = Some(s("secret"));
    assert_eq!(opt.credentials(), Ok((s("id"), s("secret"))));
}

#[test]
fn mode_from_str() {
    assert!(matches!(Mode::from_str("cli"), Ok(Mode::Cli)));
    assert!(matches!(Mode::from_str("env"), Ok(Mode::Env)));
    assert!(Mode::from_str("other").is_err());
}

#[test]
fn mode_parse_knows_only_the_two_modes() {
    assert!(matches!(Mode::parse("cli"), Ok(Mode::Cli)));
    assert!(matches!(Mode::parse("env"), Ok(Mode::Env)));
    assert!(Mode::parse("").is_err());
    assert!(Mode::parse("CLI").is_err());
}

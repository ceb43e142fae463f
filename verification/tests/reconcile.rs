use aliyunddns::ip::IPOption;
use aliyunddns::ip::Ipv6Outcome;
use aliyunddns::record::classify_lookups;
use aliyunddns::record::create_record_params;
use aliyunddns::record::enable_record_params;
use aliyunddns::record::reconcile;
use aliyunddns::record::update_record_params;
use aliyunddns::record::LookupOutcome;
use aliyunddns::record::LookupResult;
use aliyunddns::record::Record;
use aliyunddns::record::RecordAction;
use aliyunddns::task::remaining_sleep_ms;
use aliyunddns::task::DomainUpdate;

fn s(text: &str) -> String {
    text.to_string()
}

fn record(kind: &str, value: &str, status: &str) -> Record {
    Record {
        rr: s("home"),
        line: s("default"),
        status: s(status),
        locked: false,
        kind: s(kind),
        domain_name: s("example.com"),
        value: s(value),
        record_id: s("rec-1"),
        ttl: 600,
        weight: 1,
    }
}

fn found(records: Vec<Record>) -> LookupResult {
    LookupResult {
        record: s("home"),
        domain: s("example.com"),
        outcome: LookupOutcome::Found(records),
    }
}

#[test]
fn missing_label_becomes_one_ipv4_create() {
    // configured home.example.com, no existing record, IPv4 only
    let ips = IPOption::IPV4(s("203.0.113.5"));
    let (plan, skipped) = reconcile(vec![found(vec![])], &ips);
    assert!(skipped.is_empty());
    assert_eq!(plan.len(), 1);
    match &plan[0] {
        RecordAction::Add { rr, domain_name, kind, value } => {
            assert_eq!(rr, &s("home"));
            assert_eq!(domain_name, &s("example.com"));
            assert_eq!(kind, &s("A"));
            assert_eq!(value, &s("203.0.113.5"));
            let params = create_record_params(rr, domain_name, value, kind);
            assert_eq!(
                params,
                vec![
                    (s("Action"), s("AddDomainRecord")),
                    (s("DomainName"), s("example.com")),
                    (s("RR"), s("home")),
                    (s("Value"), s("203.0.113.5")),
                    (s("Type"), s("A")),
                ]
            );
        }
        other => panic!("expected a create call, got {:?}", other),
    }
}

#[test]
fn unchanged_record_issues_no_network_call() {
    // the stored value already equals the discovered address
    let ips = IPOption::IPV4(s("203.0.113.1"));
    let existing = record("A", "203.0.113.1", "ENABLE");
    let (plan, _) = reconcile(vec![found(vec![existing])], &ips);
    assert_eq!(plan.len(), 1);
    assert!(matches!(&plan[0], RecordAction::SkipUnchanged { record_id } if record_id == "rec-1"));
}

#[test]
fn disabled_record_is_updated_then_enabled() {
    let ips = IPOption::IPV4(s("203.0.113.9"));
    let existing = record("A", "203.0.113.1", "DISABLE");
    let (plan, _) = reconcile(vec![found(vec![existing])], &ips);
    assert_eq!(plan.len(), 2);
    match &plan[0] {
        RecordAction::Update { record_id, rr, domain_name, kind, value } => {
            assert_eq!(record_id, &s("rec-1"));
            assert_eq!(value, &s("203.0.113.9"));
            let params = update_record_params(rr, domain_name, record_id, value, kind);
            assert_eq!(
                params,
                vec![
                    (s("Action"), s("UpdateDomainRecord")),
                    (s("DomainName"), s("example.com")),
                    (s("RR"), s("home")),
                    (s("RecordId"), s("rec-1")),
                    (s("Value"), s("203.0.113.9")),
                    (s("Type"), s("A")),
                ]
            );
        }
        other => panic!("expected an update call, got {:?}", other),
    }
    match &plan[1] {
        RecordAction::Enable { record_id } => {
            assert_eq!(record_id, &s("rec-1"));
            assert_eq!(
                enable_record_params(record_id),
                vec![
                    (s("Action"), s("SetDomainRecordStatus")),
                    (s("Status"), s("Enable")),
                    (s("RecordId"), s("rec-1")),
                ]
            );
        }
        other => panic!("expected a re-enable call, got {:?}", other),
    }
}

#[test]
fn ipv6_failure_degrades_to_ipv4_only() {
    // the IPv6 lookup failed; an AAAA record is skipped with a warning
    // and only A records are created
    let ips = IPOption::combine_ipv4(s("203.0.113.5"))
        .unwrap()
        .combine_ipv6(Ipv6Outcome::LookupFailed)
        .unwrap();
    assert_eq!(ips, IPOption::IPV4(s("203.0.113.5")));
    let aaaa = record("AAAA", "2001:db8::1", "ENABLE");
    let lookups = vec![
        found(vec![aaaa]),
        LookupResult {
            record: s("www"),
            domain: s("example.com"),
            outcome: LookupOutcome::Found(vec![]),
        },
    ];
    let (plan, _) = reconcile(lookups, &ips);
    assert_eq!(plan.len(), 2);
    assert!(matches!(&plan[0], RecordAction::SkipNoIpv6 { record_id } if record_id == "rec-1"));
    match &plan[1] {
        RecordAction::Add { kind, value, .. } => {
            assert_eq!(kind, &s("A"));
            assert_eq!(value, &s("203.0.113.5"));
        }
        other => panic!("expected a create call, got {:?}", other),
    }
}

#[test]
fn dual_stack_creates_aaaa_first_then_a() {
    let ips = IPOption::IPAll(s("203.0.113.5"), s("2001:db8::1"));
    let (plan, _) = reconcile(vec![found(vec![])], &ips);
    assert_eq!(plan.len(), 2);
    assert!(matches!(&plan[0], RecordAction::Add { kind, value, .. }
        if kind == "AAAA" && value == "2001:db8::1"));
    assert!(matches!(&plan[1], RecordAction::Add { kind, value, .. }
        if kind == "A" && value == "203.0.113.5"));
}

#[test]
fn aaaa_record_updates_from_discovered_ipv6() {
    let ips = IPOption::IPAll(s("203.0.113.5"), s("2001:db8::2"));
    let existing = record("AAAA", "2001:db8::1", "ENABLE");
    let (plan, _) = reconcile(vec![found(vec![existing])], &ips);
    assert_eq!(plan.len(), 1);
    assert!(matches!(&plan[0], RecordAction::Update { kind, value, .. }
        if kind == "AAAA" && value == "2001:db8::2"));
}

#[test]
fn failed_lookup_drops_the_label() {
    let lookups = vec![LookupResult {
        record: s("home"),
        domain: s("example.com"),
        outcome: LookupOutcome::Failed,
    }];
    let (update_rs, create_rs, skipped) = classify_lookups(lookups);
    assert!(update_rs.is_empty());
    assert!(create_rs.is_empty());
    assert_eq!(skipped, vec![s("home")]);
}

#[test]
fn classify_separates_existing_and_missing() {
    let existing = record("A", "203.0.113.1", "ENABLE");
    let lookups = vec![
        found(vec![existing.clone()]),
        LookupResult {
            record: s("www"),
            domain: s("example.org"),
            outcome: LookupOutcome::Found(vec![]),
        },
    ];
    let (update_rs, create_rs, skipped) = classify_lookups(lookups);
    assert_eq!(update_rs, vec![existing]);
    assert_eq!(create_rs, vec![(s("www"), s("example.org"))]);
    assert!(skipped.is_empty());
}

#[test]
fn remaining_sleep_is_the_period_remainder() {
    assert_eq!(remaining_sleep_ms(600_000, 1_000), 599_000);
    assert_eq!(remaining_sleep_ms(600_000, 600_000), 0);
    assert_eq!(remaining_sleep_ms(1_000, 2_000), 0);
}

#[test]
fn domain_update_holds_its_options() {
    let mut opt = aliyunddns::cli::Options::new(aliyunddns::cli::Mode::Cli);
    opt.domains = vec![s("home.example.com")];
    let update = DomainUpdate::new(opt);
    assert_eq!(update.options.domains, vec![s("home.example.com")]);
    assert!(update.has_domains());
}

#[test]
fn a_task_without_domains_must_not_start() {
    let update = DomainUpdate::new(aliyunddns::cli::Options::new(aliyunddns::cli::Mode::Cli));
    assert!(!update.has_domains());
}

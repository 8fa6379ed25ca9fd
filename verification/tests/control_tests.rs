use library_inspector::control::{cron_or_default, payload_triggers_scan, scan_payload};

#[test]
fn configured_cron_is_used_verbatim() {
    assert_eq!(cron_or_default(Some("@every 5m".to_string())), "@every 5m".to_string());
}

#[test]
fn missing_cron_falls_back_to_the_daily_default() {
    assert_eq!(cron_or_default(None), "@every 24h".to_string());
}

#[test]
fn registered_payload_triggers_a_scan() {
    assert!(payload_triggers_scan(&scan_payload()));
    assert!(payload_triggers_scan(&"inspect".to_string()));
}

#[test]
fn other_payloads_are_ignored() {
    assert!(!payload_triggers_scan(&"cleanup".to_string()));
    assert!(!payload_triggers_scan(&"".to_string()));
}

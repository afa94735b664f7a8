use healthkube::check::check_identifier;
use healthkube::check::checks_to_clear;
use healthkube::check::desired_check;
use healthkube::check::reconcile;
use healthkube::check::CheckDefaults;
use healthkube::check::DesiredCheck;
use healthkube::check::Reconciled;
use healthkube::check::UpsertReply;
use healthkube::check::UpsertStatus;

fn defaults() -> CheckDefaults {
    CheckDefaults {
        timezone: "Europe/Berlin".to_string(),
        timeout: 28800,
        grace: 3600,
        channels: "a,b".to_string(),
    }
}

#[test]
fn the_desired_check_takes_the_shared_settings() {
    let check = desired_check("sales-au-job", "0 3 * * *", "sales au".to_string(), &defaults());
    assert_eq!(
        check,
        DesiredCheck {
            name: "sales-au-job".to_string(),
            schedule: "0 3 * * *".to_string(),
            tags: "sales au".to_string(),
            timeout: 28800,
            grace: 3600,
            timezone: "Europe/Berlin".to_string(),
            channels: "a,b".to_string(),
            unique: vec!["name".to_string()],
        }
    );
}

#[test]
fn the_desired_check_is_unique_by_name_alone() {
    let check = desired_check("", "", String::new(), &defaults());
    assert_eq!(check.unique, vec!["name".to_string()]);
}

#[test]
fn the_identifier_is_what_follows_the_last_slash() {
    assert_eq!(
        check_identifier(Some("https://hc-ping.com/f5b0f7c2-9a3e-4f8e-8d1c-abc123")),
        Some("f5b0f7c2-9a3e-4f8e-8d1c-abc123".to_string())
    );
    assert_eq!(check_identifier(Some("https://hc.example/ping/abc123")), Some("abc123".to_string()));
}

#[test]
fn an_address_without_a_slash_is_its_own_identifier() {
    assert_eq!(check_identifier(Some("abc123")), Some("abc123".to_string()));
}

#[test]
fn an_address_that_ends_in_a_slash_has_an_empty_identifier() {
    assert_eq!(check_identifier(Some("https://hc-ping.com/abc123/")), Some(String::new()));
    assert_eq!(check_identifier(Some("")), Some(String::new()));
}

#[test]
fn a_withheld_address_has_no_identifier() {
    assert_eq!(check_identifier(None), None);
}

#[test]
fn a_created_check_is_reconciled_with_its_identifier() {
    let reply = UpsertReply::Done {
        status: UpsertStatus::Created,
        ping_url: Some("https://hc-ping.com/abc123".to_string()),
    };
    assert_eq!(reconcile(&reply), Reconciled::Created("abc123".to_string()));
}

#[test]
fn an_updated_check_is_reconciled_with_its_identifier() {
    let reply = UpsertReply::Done {
        status: UpsertStatus::Updated,
        ping_url: Some("https://hc-ping.com/abc123".to_string()),
    };
    assert_eq!(reconcile(&reply), Reconciled::Updated("abc123".to_string()));
}

#[test]
fn an_answer_without_an_address_counts_as_failed() {
    for status in [UpsertStatus::Created, UpsertStatus::Updated] {
        let reply = UpsertReply::Done { status, ping_url: None };
        assert_eq!(reconcile(&reply), Reconciled::Failed);
    }
}

#[test]
fn a_failed_request_counts_as_failed() {
    assert_eq!(reconcile(&UpsertReply::Failed), Reconciled::Failed);
}

#[test]
fn clearing_deletes_every_check_that_has_an_identifier() {
    let urls = vec![
        Some("https://hc-ping.com/one".to_string()),
        None,
        Some("https://hc-ping.com/two".to_string()),
    ];
    assert_eq!(checks_to_clear(false, true, &urls), vec!["one".to_string(), "two".to_string()]);
}

#[test]
fn a_dry_run_clears_nothing() {
    let urls = vec![Some("https://hc-ping.com/one".to_string())];
    assert!(checks_to_clear(true, true, &urls).is_empty());
    assert!(checks_to_clear(true, false, &urls).is_empty());
}

#[test]
fn nothing_is_cleared_unless_asked_for() {
    let urls = vec![Some("https://hc-ping.com/one".to_string())];
    assert!(checks_to_clear(false, false, &urls).is_empty());
}

#[test]
fn clearing_an_empty_project_deletes_nothing() {
    assert!(checks_to_clear(false, true, &Vec::new()).is_empty());
}

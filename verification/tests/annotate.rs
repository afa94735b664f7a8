use healthkube::annotate::annotate;
use healthkube::annotate::annotate_container;
use healthkube::annotate::annotate_containers;
use healthkube::annotate::EnvChange;
use healthkube::job::Container;
use healthkube::job::EnvVar;

fn var(name: &str, value: &str) -> EnvVar {
    EnvVar { name: name.to_string(), value: Some(value.to_string()) }
}

fn bare(name: &str) -> EnvVar {
    EnvVar { name: name.to_string(), value: None }
}

#[test]
fn a_missing_entry_is_appended() {
    let mut container = Container { env: vec![var("PATH", "/bin")] };
    let change = annotate_container(&mut container, "HC_ID", "abc123");
    assert_eq!(change, EnvChange::Appended);
    assert!(change.is_dirty());
    assert_eq!(container.env, vec![var("PATH", "/bin"), var("HC_ID", "abc123")]);
}

#[test]
fn an_empty_environment_gets_the_entry() {
    let mut container = Container { env: Vec::new() };
    assert_eq!(annotate_container(&mut container, "HC_ID", "abc123"), EnvChange::Appended);
    assert_eq!(container.env, vec![var("HC_ID", "abc123")]);
}

#[test]
fn another_value_is_overwritten_in_place() {
    let mut container =
        Container { env: vec![var("A", "1"), var("HC_ID", "old"), var("B", "2")] };
    let change = annotate_container(&mut container, "HC_ID", "abc123");
    assert_eq!(change, EnvChange::Overwritten(1));
    assert!(change.is_dirty());
    assert_eq!(container.env, vec![var("A", "1"), var("HC_ID", "abc123"), var("B", "2")]);
}

#[test]
fn the_right_value_is_left_alone() {
    let mut container = Container { env: vec![var("A", "1"), var("HC_ID", "abc123")] };
    let before = container.clone();
    let change = annotate_container(&mut container, "HC_ID", "abc123");
    assert_eq!(change, EnvChange::Unchanged);
    assert!(!change.is_dirty());
    assert_eq!(container, before);
}

#[test]
fn an_entry_without_a_value_is_given_one_in_place() {
    let mut container = Container { env: vec![bare("HC_ID"), var("B", "2")] };
    let change = annotate_container(&mut container, "HC_ID", "abc123");
    assert_eq!(change, EnvChange::Overwritten(0));
    assert_eq!(container.env, vec![var("HC_ID", "abc123"), var("B", "2")]);
}

#[test]
fn only_the_first_entry_under_the_key_counts() {
    let mut container = Container { env: vec![var("HC_ID", "x"), var("HC_ID", "abc123")] };
    assert_eq!(annotate_container(&mut container, "HC_ID", "abc123"), EnvChange::Overwritten(0));
    assert_eq!(container.env, vec![var("HC_ID", "abc123"), var("HC_ID", "abc123")]);

    let mut container = Container { env: vec![var("HC_ID", "abc123"), var("HC_ID", "x")] };
    assert_eq!(annotate_container(&mut container, "HC_ID", "abc123"), EnvChange::Unchanged);
    assert_eq!(container.env, vec![var("HC_ID", "abc123"), var("HC_ID", "x")]);
}

#[test]
fn keys_are_compared_whole() {
    let mut container = Container { env: vec![var("HC_ID_OLD", "abc123"), var("hc_id", "abc123")] };
    assert_eq!(annotate_container(&mut container, "HC_ID", "abc123"), EnvChange::Appended);
    assert_eq!(container.env.len(), 3);
}

#[test]
fn annotating_twice_changes_nothing_the_second_time() {
    let starts = vec![
        Vec::new(),
        vec![var("HC_ID", "old")],
        vec![bare("HC_ID")],
        vec![var("A", "1"), var("HC_ID", "abc123")],
        vec![var("HC_ID", "x"), var("HC_ID", "y")],
    ];
    for env in starts {
        let mut container = Container { env };
        annotate_container(&mut container, "HC_ID", "abc123");
        let once = container.clone();
        assert_eq!(annotate_container(&mut container, "HC_ID", "abc123"), EnvChange::Unchanged);
        assert_eq!(container, once);
    }
}

#[test]
fn a_job_is_dirty_when_one_container_was_written() {
    let mut containers = vec![
        Container { env: vec![var("HC_ID", "abc123")] },
        Container { env: vec![var("A", "1")] },
    ];
    assert!(annotate_containers(&mut containers, "HC_ID", "abc123"));
    assert_eq!(containers[0].env, vec![var("HC_ID", "abc123")]);
    assert_eq!(containers[1].env, vec![var("A", "1"), var("HC_ID", "abc123")]);
}

#[test]
fn a_job_whose_containers_are_all_right_is_clean() {
    let mut containers = vec![
        Container { env: vec![var("HC_ID", "abc123")] },
        Container { env: vec![var("A", "1"), var("HC_ID", "abc123")] },
    ];
    let before = containers.clone();
    assert!(!annotate_containers(&mut containers, "HC_ID", "abc123"));
    assert_eq!(containers, before);
}

#[test]
fn a_job_without_containers_is_clean() {
    let mut containers: Vec<Container> = Vec::new();
    assert!(!annotate_containers(&mut containers, "HC_ID", "abc123"));
    assert!(containers.is_empty());
}

#[test]
fn a_second_run_over_a_job_is_clean() {
    let mut containers = vec![
        Container { env: vec![var("HC_ID", "old")] },
        Container { env: Vec::new() },
        Container { env: vec![bare("HC_ID")] },
    ];
    assert!(annotate_containers(&mut containers, "HC_ID", "abc123"));
    let once = containers.clone();
    assert!(!annotate_containers(&mut containers, "HC_ID", "abc123"));
    assert_eq!(containers, once);
}

#[test]
fn without_a_key_nothing_is_annotated() {
    let mut containers = vec![Container { env: vec![var("A", "1")] }];
    let before = containers.clone();
    assert!(!annotate(&mut containers, None, "abc123"));
    assert_eq!(containers, before);
}

#[test]
fn with_a_key_the_containers_are_annotated() {
    let mut containers = vec![Container { env: vec![var("A", "1")] }];
    assert!(annotate(&mut containers, Some("HC_ID"), "abc123"));
    assert_eq!(containers[0].env, vec![var("A", "1"), var("HC_ID", "abc123")]);
}

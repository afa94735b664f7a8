use healthkube::check::CheckDefaults;
use healthkube::check::DesiredCheck;
use healthkube::check::Reconciled;
use healthkube::check::UpsertReply;
use healthkube::check::UpsertStatus;
use healthkube::check::reconcile;
use healthkube::job::Container;
use healthkube::job::CronSpec;
use healthkube::job::EnvVar;
use healthkube::job::JobDefinition;
use healthkube::job::JobSpec;
use healthkube::job::PodSpec;
use healthkube::sync::names_of_described;
use healthkube::sync::next_write_back;
use healthkube::sync::plan;
use healthkube::sync::settle;
use healthkube::sync::write_back_order;
use healthkube::sync::JobEvent;
use healthkube::sync::JobState;
use healthkube::sync::RunConfig;
use healthkube::sync::Step;
use healthkube::vocabulary::ThresholdPolicy;

fn var(name: &str, value: &str) -> EnvVar {
    EnvVar { name: name.to_string(), value: Some(value.to_string()) }
}

fn job(name: &str, schedule: &str, containers: Vec<Container>) -> JobDefinition {
    JobDefinition {
        name: Some(name.to_string()),
        spec: Some(CronSpec {
            schedule: Some(schedule.to_string()),
            job: Some(JobSpec { pod: Some(PodSpec { containers }) }),
        }),
    }
}

fn without_schedule(name: &str) -> JobDefinition {
    let mut job = job(name, "", vec![Container { env: Vec::new() }]);
    job.spec.as_mut().unwrap().schedule = None;
    job
}

fn containers_of(job: &JobDefinition) -> &Vec<Container> {
    &job.spec.as_ref().unwrap().job.as_ref().unwrap().pod.as_ref().unwrap().containers
}

fn config(rank: u8, policy: ThresholdPolicy, dry_run: bool, env_key: Option<&str>) -> RunConfig {
    RunConfig {
        rank,
        policy,
        dry_run,
        env_key: env_key.map(|key| key.to_string()),
        defaults: CheckDefaults {
            timezone: "Europe/Berlin".to_string(),
            timeout: 28800,
            grace: 28800,
            channels: "email".to_string(),
        },
    }
}

fn keyed() -> RunConfig {
    config(3, ThresholdPolicy::Strict, false, Some("HC_ID"))
}

fn keyless() -> RunConfig {
    config(3, ThresholdPolicy::Strict, false, None)
}

fn two_jobs() -> Vec<JobDefinition> {
    vec![
        job("sales-au-job-cleanup-shared-products-job", "0 1 * * *", vec![Container { env: Vec::new() }]),
        job("sales-au-job-cleanup-other-products-job", "0 2 * * *", vec![Container { env: Vec::new() }]),
    ]
}

fn check(name: &str, schedule: &str, tags: &str) -> DesiredCheck {
    DesiredCheck {
        name: name.to_string(),
        schedule: schedule.to_string(),
        tags: tags.to_string(),
        timeout: 28800,
        grace: 28800,
        timezone: "Europe/Berlin".to_string(),
        channels: "email".to_string(),
        unique: vec!["name".to_string()],
    }
}

#[test]
fn loose_rank_two_gives_both_jobs_an_empty_tag_string() {
    let steps = plan(&two_jobs(), &config(2, ThresholdPolicy::Loose, false, Some("HC_ID")));
    assert_eq!(
        steps,
        vec![
            Step::Upsert(check("sales-au-job-cleanup-shared-products-job", "0 1 * * *", "")),
            Step::Upsert(check("sales-au-job-cleanup-other-products-job", "0 2 * * *", "")),
        ]
    );
}

#[test]
fn strict_rank_zero_tags_with_every_segment_but_the_noise_word() {
    let steps = plan(&two_jobs(), &config(0, ThresholdPolicy::Strict, false, Some("HC_ID")));
    assert_eq!(
        steps,
        vec![
            Step::Upsert(check(
                "sales-au-job-cleanup-shared-products-job",
                "0 1 * * *",
                "sales au cleanup shared products"
            )),
            Step::Upsert(check(
                "sales-au-job-cleanup-other-products-job",
                "0 2 * * *",
                "sales au cleanup other products"
            )),
        ]
    );
}

#[test]
fn a_dry_run_previews_and_asks_nothing_of_the_service() {
    let steps = plan(&two_jobs(), &config(0, ThresholdPolicy::Strict, true, Some("HC_ID")));
    assert_eq!(
        steps,
        vec![
            Step::Preview {
                name: "sales-au-job-cleanup-shared-products-job".to_string(),
                tags: "sales au cleanup shared products".to_string(),
            },
            Step::Preview {
                name: "sales-au-job-cleanup-other-products-job".to_string(),
                tags: "sales au cleanup other products".to_string(),
            },
        ]
    );
    for step in &steps {
        assert!(!matches!(step, Step::Upsert(_)));
        assert_eq!(step.state(), JobState::Dry);
        assert!(step.state().is_terminal());
    }
    let states: Vec<JobState> = steps.iter().map(|step| step.state()).collect();
    assert!(write_back_order(&states).is_empty());
}

#[test]
fn a_job_without_a_schedule_takes_no_part() {
    let mut jobs = two_jobs();
    jobs.insert(1, without_schedule("sales-au-job-orphan"));
    let cfg = config(3, ThresholdPolicy::Strict, false, Some("HC_ID"));
    assert_eq!(
        names_of_described(&jobs),
        vec![
            "sales-au-job-cleanup-shared-products-job".to_string(),
            "sales-au-job-cleanup-other-products-job".to_string(),
        ]
    );
    let steps = plan(&jobs, &cfg);
    assert_eq!(steps[1], Step::Skip);
    assert_eq!(steps[1].state(), JobState::Absent);
    // Its segments are not counted: "sales" stays at two and below rank three.
    assert_eq!(
        steps[0],
        Step::Upsert(check("sales-au-job-cleanup-shared-products-job", "0 1 * * *", ""))
    );

    let before = jobs[1].clone();
    let state = settle(&mut jobs[1], &Reconciled::Updated("abc123".to_string()), &keyed());
    assert_eq!(state, JobState::Absent);
    assert_eq!(jobs[1], before);

    let mut states = Vec::new();
    for (index, step) in steps.iter().enumerate() {
        let state = match step {
            Step::Upsert(_) => {
                settle(&mut jobs[index], &Reconciled::Created("abc123".to_string()), &keyed())
            }
            other => other.state(),
        };
        states.push(state);
    }
    assert_eq!(states, vec![JobState::Dirty, JobState::Absent, JobState::Dirty]);
    assert_eq!(write_back_order(&states), vec![0, 2]);
}

#[test]
fn an_updated_check_is_written_into_a_job_that_lacks_the_entry() {
    let mut jobs = vec![job("nightly", "0 0 * * *", vec![Container { env: vec![var("A", "1")] }])];
    let reply = UpsertReply::Done {
        status: UpsertStatus::Updated,
        ping_url: Some("https://hc-ping.com/abc123".to_string()),
    };
    let outcome = reconcile(&reply);
    assert_eq!(outcome, Reconciled::Updated("abc123".to_string()));
    let state = settle(&mut jobs[0], &outcome, &keyed());
    assert_eq!(state, JobState::Dirty);
    assert_eq!(containers_of(&jobs[0])[0].env, vec![var("A", "1"), var("HC_ID", "abc123")]);
    let order = write_back_order(&[state].to_vec());
    assert_eq!(order, vec![0]);
    assert_eq!(order.iter().filter(|&&index| index == 0).count(), 1);
}

#[test]
fn a_second_run_reports_every_job_unchanged() {
    let mut jobs = two_jobs();
    let outcome = Reconciled::Created("abc123".to_string());
    for job in jobs.iter_mut() {
        assert_eq!(settle(job, &outcome, &keyed()), JobState::Dirty);
    }
    let once = jobs.clone();
    let again = Reconciled::Updated("abc123".to_string());
    let mut states = Vec::new();
    for job in jobs.iter_mut() {
        states.push(settle(job, &again, &keyed()));
    }
    assert_eq!(states, vec![JobState::Unchanged, JobState::Unchanged]);
    assert_eq!(jobs, once);
    assert!(write_back_order(&states).is_empty());
}

#[test]
fn a_second_run_asks_for_the_same_checks() {
    let mut jobs = two_jobs();
    let cfg = config(2, ThresholdPolicy::Strict, false, Some("HC_ID"));
    let first = plan(&jobs, &cfg);
    for job in jobs.iter_mut() {
        settle(job, &Reconciled::Created("abc123".to_string()), &keyed());
    }
    assert_eq!(plan(&jobs, &cfg), first);
}

#[test]
fn a_job_with_the_right_entry_is_not_written_back() {
    let mut jobs = vec![
        job("a", "s", vec![Container { env: vec![var("HC_ID", "abc123")] }]),
        job("b", "s", vec![Container { env: vec![var("HC_ID", "other")] }]),
    ];
    let before = jobs[0].clone();
    let outcome = Reconciled::Updated("abc123".to_string());
    let states: Vec<JobState> =
        jobs.iter_mut().map(|job| settle(job, &outcome, &keyed())).collect();
    assert_eq!(states, vec![JobState::Unchanged, JobState::Dirty]);
    assert_eq!(jobs[0], before);
    assert_eq!(write_back_order(&states), vec![1]);
}

#[test]
fn a_failed_request_leaves_the_job_alone() {
    let mut jobs = two_jobs();
    let before = jobs[0].clone();
    assert_eq!(settle(&mut jobs[0], &Reconciled::Failed, &keyed()), JobState::Failed);
    assert_eq!(jobs[0], before);
    assert!(write_back_order(&vec![JobState::Failed]).is_empty());
}

#[test]
fn without_a_key_no_job_is_dirty() {
    let mut jobs = two_jobs();
    let before = jobs.clone();
    for job in jobs.iter_mut() {
        assert_eq!(
            settle(job, &Reconciled::Created("abc123".to_string()), &keyless()),
            JobState::Unchanged
        );
    }
    assert_eq!(jobs, before);
}

#[test]
fn a_dry_run_annotates_nothing() {
    let mut jobs = two_jobs();
    let before = jobs.clone();
    let dry = config(3, ThresholdPolicy::Strict, true, Some("HC_ID"));
    for job in jobs.iter_mut() {
        assert_eq!(settle(job, &Reconciled::Created("abc123".to_string()), &dry), JobState::Dry);
    }
    assert_eq!(jobs, before);
    let mut orphan = without_schedule("orphan");
    assert_eq!(
        settle(&mut orphan, &Reconciled::Created("abc123".to_string()), &dry),
        JobState::Absent
    );
}

#[test]
fn a_job_without_containers_is_unchanged() {
    let mut jobs = vec![job("a", "s", Vec::new())];
    let state = settle(&mut jobs[0], &Reconciled::Created("abc123".to_string()), &keyed());
    assert_eq!(state, JobState::Unchanged);
}

#[test]
fn an_empty_namespace_has_an_empty_plan() {
    let cfg = config(3, ThresholdPolicy::Strict, false, None);
    assert!(plan(&Vec::new(), &cfg).is_empty());
    assert!(write_back_order(&Vec::new()).is_empty());
}

#[test]
fn only_dirty_jobs_are_written_back_and_in_order() {
    let states = vec![
        JobState::Dirty,
        JobState::Unchanged,
        JobState::Absent,
        JobState::Dirty,
        JobState::Failed,
        JobState::Dry,
        JobState::Present,
        JobState::WrittenBack { ok: true },
        JobState::Dirty,
    ];
    assert_eq!(write_back_order(&states), vec![0, 3, 8]);
}

#[test]
fn a_job_runs_from_listed_to_written_back() {
    let state = JobState::Listed;
    let state = state.advance(JobEvent::Described { complete: true }, false);
    assert_eq!(state, JobState::Present);
    let state = state.advance(JobEvent::Reconciled { status: Some(UpsertStatus::Created) }, false);
    assert_eq!(state, JobState::Created);
    let state = state.advance(JobEvent::Annotated { dirty: true }, false);
    assert_eq!(state, JobState::Dirty);
    assert!(!state.is_terminal());
    let state = state.advance(JobEvent::Replaced { ok: true }, false);
    assert_eq!(state, JobState::WrittenBack { ok: true });
    assert!(state.is_terminal());
}

#[test]
fn the_other_branches_of_a_run() {
    assert_eq!(
        JobState::Listed.advance(JobEvent::Described { complete: false }, false),
        JobState::Absent
    );
    assert_eq!(
        JobState::Present.advance(JobEvent::Reconciled { status: Some(UpsertStatus::Updated) }, false),
        JobState::Updated
    );
    assert_eq!(
        JobState::Present.advance(JobEvent::Reconciled { status: None }, false),
        JobState::Failed
    );
    assert_eq!(
        JobState::Updated.advance(JobEvent::Annotated { dirty: false }, false),
        JobState::Unchanged
    );
    assert_eq!(
        JobState::Dirty.advance(JobEvent::Replaced { ok: false }, false),
        JobState::WrittenBack { ok: false }
    );
    assert_eq!(JobState::Present.advance(JobEvent::Previewed, true), JobState::Dry);
}

#[test]
fn a_dry_run_takes_no_answer_from_the_service() {
    let present = JobState::Present;
    assert_eq!(
        present.advance(JobEvent::Reconciled { status: Some(UpsertStatus::Created) }, true),
        JobState::Present
    );
    assert_eq!(present.advance(JobEvent::Previewed, false), JobState::Present);
}

#[test]
fn events_out_of_turn_change_nothing() {
    let events = [
        JobEvent::Described { complete: true },
        JobEvent::Previewed,
        JobEvent::Reconciled { status: Some(UpsertStatus::Created) },
        JobEvent::Annotated { dirty: true },
        JobEvent::Replaced { ok: true },
    ];
    let ended = [
        JobState::Absent,
        JobState::Dry,
        JobState::Failed,
        JobState::Unchanged,
        JobState::WrittenBack { ok: true },
        JobState::WrittenBack { ok: false },
    ];
    for state in ended {
        for event in events {
            assert_eq!(state.advance(event, false), state);
            assert_eq!(state.advance(event, true), state);
        }
    }
    assert_eq!(JobState::Listed.advance(JobEvent::Replaced { ok: true }, false), JobState::Listed);
    assert_eq!(JobState::Created.advance(JobEvent::Replaced { ok: true }, false), JobState::Created);
}

#[test]
fn the_terminal_states_are_four() {
    assert!(JobState::Absent.is_terminal());
    assert!(JobState::Dry.is_terminal());
    assert!(JobState::Unchanged.is_terminal());
    assert!(JobState::WrittenBack { ok: true }.is_terminal());
    assert!(JobState::WrittenBack { ok: false }.is_terminal());
    for state in [
        JobState::Listed,
        JobState::Present,
        JobState::Created,
        JobState::Updated,
        JobState::Failed,
        JobState::Dirty,
    ] {
        assert!(!state.is_terminal());
    }
}

#[test]
fn the_default_policy_is_strict_with_rank_three() {
    assert_eq!(ThresholdPolicy::default(), ThresholdPolicy::Strict);
    assert_eq!(ThresholdPolicy::Strict.default_rank(), 3);
    assert_eq!(ThresholdPolicy::Loose.default_rank(), 2);
}

#[test]
fn the_first_dirty_job_is_handed_over_next() {
    let states = vec![JobState::Unchanged, JobState::Dirty, JobState::Absent, JobState::Dirty];
    assert_eq!(next_write_back(&states), Some(1));
}

#[test]
fn write_backs_are_done_when_no_job_is_dirty() {
    assert_eq!(next_write_back(&Vec::new()), None);
    let states = vec![
        JobState::Unchanged,
        JobState::WrittenBack { ok: true },
        JobState::Failed,
        JobState::Dry,
    ];
    assert_eq!(next_write_back(&states), None);
}

#[test]
fn a_refused_job_ends_the_write_backs() {
    let states = vec![JobState::WrittenBack { ok: false }, JobState::Dirty, JobState::Dirty];
    assert_eq!(next_write_back(&states), None);
    let states = vec![JobState::Dirty, JobState::WrittenBack { ok: false }];
    assert_eq!(next_write_back(&states), None);
}

#[test]
fn handing_over_job_by_job_follows_the_order() {
    let mut states = vec![
        JobState::Dirty,
        JobState::Unchanged,
        JobState::Dirty,
        JobState::Absent,
        JobState::Dirty,
    ];
    let order = write_back_order(&states);
    let mut visited = Vec::new();
    while let Some(index) = next_write_back(&states) {
        visited.push(index);
        states[index] = states[index].advance(JobEvent::Replaced { ok: true }, false);
    }
    assert_eq!(visited, order);
    assert_eq!(visited, vec![0, 2, 4]);
}

#[test]
fn handing_over_stops_at_the_first_refusal() {
    let mut states = vec![JobState::Dirty, JobState::Dirty, JobState::Dirty];
    let mut visited = Vec::new();
    while let Some(index) = next_write_back(&states) {
        visited.push(index);
        let ok = index != 1;
        states[index] = states[index].advance(JobEvent::Replaced { ok }, false);
    }
    assert_eq!(visited, vec![0, 1]);
    assert_eq!(
        states,
        vec![
            JobState::WrittenBack { ok: true },
            JobState::WrittenBack { ok: false },
            JobState::Dirty,
        ]
    );
}

//! One namespace's pass from job definitions to the jobs that are written
//! back: what is asked of the monitoring service for each job, what its
//! answer does to the job, and which jobs are written back in the end.

use crate::annotate::all_annotated;
use crate::annotate::all_up_to_date;
use crate::annotate::annotate;
use crate::annotate::environments;
use crate::annotate::lemma_second_run_is_clean;
use crate::check::desired;
use crate::check::desired_check;
use crate::check::CheckDefaults;
use crate::check::CheckDefaultsView;
use crate::check::DesiredCheck;
use crate::check::DesiredCheckView;
use crate::check::Reconciled;
use crate::check::UpsertStatus;
use crate::job::describe;
use crate::job::JobDefinition;
use crate::tags::tag_string;
use crate::tags::tag_text;
use crate::vocabulary::vocabulary;
use crate::vocabulary::TagVocabulary;
use crate::vocabulary::ThresholdPolicy;
use vstd::prelude::*;

verus! {

/// The settings of a run. They are made once and do not change.
#[derive(Clone, Debug, PartialEq, Eq)]
pub struct RunConfig {
    /// How often a segment must occur to become a tag.
    pub rank: u8,
    /// How a count is held against the rank.
    pub policy: ThresholdPolicy,
    /// Whether the run only reports what it would do.
    pub dry_run: bool,
    /// The environment key under which a job finds its check's identifier.
    /// Without one no job is annotated.
    pub env_key: Option<String>,
    /// The settings that all checks share.
    pub defaults: CheckDefaults,
}

/// Where one job stands in a run.
#[derive(Clone, Copy, Debug, PartialEq, Eq, Structural)]
pub enum JobState {
    /// The job came with the namespace's list.
    Listed,
    /// A part of the definition is missing. The job takes no part in the run.
    Absent,
    /// The job has a descriptor.
    Present,
    /// The dry run reported the job's tags. Nothing else happens to it.
    Dry,
    /// The service created the job's check.
    Created,
    /// The service updated the job's check.
    Updated,
    /// No identifier was obtained. Nothing else happens to the job.
    Failed,
    /// Annotation found nothing to write. The job is not written back.
    Unchanged,
    /// Annotation wrote to a container. The job is to be written back.
    Dirty,
    /// The job was handed to the cluster, which took it or refused it.
    WrittenBack { ok: bool },
}

/// What happened to a job.
#[derive(Clone, Copy, Debug, PartialEq, Eq, Structural)]
pub enum JobEvent {
    /// A descriptor was asked for.
    Described { complete: bool },
    /// The dry run reported the job.
    Previewed,
    /// The service answered; without a status no identifier was obtained.
    Reconciled { status: Option<UpsertStatus> },
    /// The containers were annotated.
    Annotated { dirty: bool },
    /// The cluster answered the write-back.
    Replaced { ok: bool },
}

/// The state that follows `state` on `event`. An event that does not belong
/// to the state leaves it as it is. Under a dry run a present job can only be
/// previewed; otherwise it can only be reconciled.
pub open spec fn transition(state: JobState, event: JobEvent, dry_run: bool) -> JobState {
    match (state, event) {
        (JobState::Listed, JobEvent::Described { complete }) => if complete {
            JobState::Present
        } else {
            JobState::Absent
        },
        (JobState::Present, JobEvent::Previewed) => if dry_run {
            JobState::Dry
        } else {
            state
        },
        (JobState::Present, JobEvent::Reconciled { status }) => if dry_run {
            state
        } else {
            match status {
                Some(UpsertStatus::Created) => JobState::Created,
                Some(UpsertStatus::Updated) => JobState::Updated,
                None => JobState::Failed,
            }
        },
        (JobState::Created, JobEvent::Annotated { dirty }) => if dirty {
            JobState::Dirty
        } else {
            JobState::Unchanged
        },
        (JobState::Updated, JobEvent::Annotated { dirty }) => if dirty {
            JobState::Dirty
        } else {
            JobState::Unchanged
        },
        (JobState::Dirty, JobEvent::Replaced { ok }) => JobState::WrittenBack { ok },
        _ => state,
    }
}

/// The state after a series of events.
pub open spec fn run(state: JobState, events: Seq<JobEvent>, dry_run: bool) -> JobState
    decreases events.len(),
{
    if events.len() == 0 {
        state
    } else {
        transition(run(state, events.drop_last(), dry_run), events.last(), dry_run)
    }
}

/// The states in which a job's run has ended.
pub open spec fn terminal(state: JobState) -> bool {
    state is Absent || state is Dry || state is Unchanged || state is WrittenBack
}

impl JobState {
    /// The state that follows on `event`.
    pub fn advance(self, event: JobEvent, dry_run: bool) -> (next: JobState)
        ensures
            next == transition(self, event, dry_run),
    {
        match (self, event) {
            (JobState::Listed, JobEvent::Described { complete }) => if complete {
                JobState::Present
            } else {
                JobState::Absent
            },
            (JobState::Present, JobEvent::Previewed) => if dry_run {
                JobState::Dry
            } else {
                self
            },
            (JobState::Present, JobEvent::Reconciled { status }) => if dry_run {
                self
            } else {
                match status {
                    Some(UpsertStatus::Created) => JobState::Created,
                    Some(UpsertStatus::Updated) => JobState::Updated,
                    None => JobState::Failed,
                }
            },
            (JobState::Created, JobEvent::Annotated { dirty }) => if dirty {
                JobState::Dirty
            } else {
                JobState::Unchanged
            },
            (JobState::Updated, JobEvent::Annotated { dirty }) => if dirty {
                JobState::Dirty
            } else {
                JobState::Unchanged
            },
            (JobState::Dirty, JobEvent::Replaced { ok }) => JobState::WrittenBack { ok },
            _ => self,
        }
    }

    /// Whether the job's run has ended.
    pub fn is_terminal(&self) -> (ended: bool)
        ensures
            ended == terminal(*self),
    {
        match self {
            JobState::Absent => true,
            JobState::Dry => true,
            JobState::Unchanged => true,
            JobState::WrittenBack { .. } => true,
            _ => false,
        }
    }
}

/// A job whose run has ended stays where it is, and so does one for which
/// no identifier was obtained: no event moves it.
pub proof fn lemma_ended_jobs_stay(state: JobState, event: JobEvent, dry_run: bool)
    requires
        terminal(state) || state is Failed,
    ensures
        transition(state, event, dry_run) == state,
{
}

/// A dry run changes nothing: whatever happens, a job never gets beyond its
/// preview. No check is created or updated for it, it is never annotated,
/// and it is never written back.
pub proof fn lemma_dry_run_changes_nothing(events: Seq<JobEvent>)
    ensures
        ({
            let end = run(JobState::Listed, events, true);
            end is Listed || end is Absent || end is Present || end is Dry
        }),
    decreases events.len(),
{
    if events.len() > 0 {
        lemma_dry_run_changes_nothing(events.drop_last());
    }
}

/// A job is written back only after annotation wrote to it: a run that ends
/// with a write-back has passed through the dirty state just before.
pub proof fn lemma_only_dirty_jobs_are_written_back(
    state: JobState,
    event: JobEvent,
    dry_run: bool,
)
    requires
        !(state is WrittenBack),
        transition(state, event, dry_run) is WrittenBack,
    ensures
        state is Dirty,
{
}

/// The test "has a descriptor".
pub open spec fn complete() -> spec_fn(JobDefinition) -> bool {
    |job: JobDefinition| job.is_complete()
}

/// The names of the jobs that have a descriptor, in the order of the list.
pub open spec fn described_names(jobs: Seq<JobDefinition>) -> Seq<Seq<char>> {
    let described = jobs.filter(complete());
    Seq::new(described.len(), |i: int| described[i].spec_name())
}

/// The tags of the namespace: the segments in the vocabulary of the names of
/// the jobs that have a descriptor.
pub open spec fn namespace_tags(jobs: Seq<JobDefinition>, rank: nat, policy: ThresholdPolicy) -> Set<
    Seq<char>,
> {
    vocabulary(described_names(jobs), rank, policy).dom()
}

/// What a run does first for one job.
#[derive(Clone, Debug, PartialEq, Eq)]
pub enum Step {
    /// The job has no descriptor: nothing is done for it.
    Skip,
    /// Dry run: the name and the tags are reported, and nothing is sent.
    Preview { name: String, tags: String },
    /// The service is asked to create or update this check.
    Upsert(DesiredCheck),
}

/// A step as contracts see it.
pub enum StepView {
    Skip,
    Preview { name: Seq<char>, tags: Seq<char> },
    Upsert(DesiredCheckView),
}

impl View for Step {
    type V = StepView;

    open spec fn view(&self) -> StepView {
        match *self {
            Step::Skip => StepView::Skip,
            Step::Preview { name, tags } => StepView::Preview { name: name@, tags: tags@ },
            Step::Upsert(check) => StepView::Upsert(check@),
        }
    }
}

impl Step {
    /// The state of a job once its step has been taken: absent where it is
    /// skipped, dry where it is previewed, present where the service is
    /// asked.
    pub fn state(&self) -> (state: JobState)
        ensures
            state == match *self {
                Step::Skip => JobState::Absent,
                Step::Preview { .. } => JobState::Dry,
                Step::Upsert(_) => JobState::Present,
            },
    {
        match self {
            Step::Skip => JobState::Absent,
            Step::Preview { .. } => JobState::Dry,
            Step::Upsert(_) => JobState::Present,
        }
    }
}

/// The step for one job, given the tags of its namespace.
pub open spec fn planned(
    job: JobDefinition,
    tagset: Set<Seq<char>>,
    dry_run: bool,
    defaults: CheckDefaultsView,
) -> StepView {
    if !job.is_complete() {
        StepView::Skip
    } else if dry_run {
        StepView::Preview { name: job.spec_name(), tags: tag_text(job.spec_name(), tagset) }
    } else {
        StepView::Upsert(
            desired(
                job.spec_name(),
                job.spec_schedule(),
                tag_text(job.spec_name(), tagset),
                defaults,
            ),
        )
    }
}

/// The names of the jobs that have a descriptor, in the order of the list.
pub fn names_of_described(jobs: &Vec<JobDefinition>) -> (names: Vec<String>)
    ensures
        names.deep_view() == described_names(jobs@),
{
    let mut names: Vec<String> = Vec::new();
    let mut i: usize = 0;
    proof {
        reveal(Seq::filter);
        assert(jobs@.take(0) =~= Seq::<JobDefinition>::empty());
        assert(names.deep_view() =~= described_names(jobs@.take(0)));
    }
    while i < jobs.len()
        invariant
            i <= jobs.len(),
            names.deep_view() == described_names(jobs@.take(i as int)),
        decreases jobs.len() - i,
    {
        let ghost done = jobs@.take(i as int);
        let ghost before = names.deep_view();
        proof {
            assert(jobs@.take(i + 1) =~= done.push(jobs@[i as int]));
            done.lemma_filter_push(jobs@[i as int], complete());
        }
        match jobs[i].identity() {
            Some((name, _)) => {
                names.push(name.to_owned());
                assert(names.deep_view() =~= before.push(jobs@[i as int].spec_name()));
                assert(names.deep_view() =~= described_names(jobs@.take(i + 1)));
            },
            None => {},
        }
        i = i + 1;
    }
    assert(jobs@.take(i as int) =~= jobs@);
    names
}

/// The first step for every job of a namespace, in the order of the list.
/// The tags come from the names of all the jobs that have a descriptor. A
/// job without a descriptor is skipped. Under a dry run every other job is
/// previewed and nothing is asked of the service; otherwise the service is
/// asked to create or update the job's check.
pub fn plan(jobs: &Vec<JobDefinition>, config: &RunConfig) -> (steps: Vec<Step>)
    ensures
        steps.len() == jobs.len(),
        forall|i: int|
            0 <= i < jobs.len() ==> (#[trigger] steps[i])@ == planned(
                jobs[i],
                namespace_tags(jobs@, config.rank as nat, config.policy),
                config.dry_run,
                config.defaults@,
            ),
        config.dry_run ==> forall|i: int|
            0 <= i < steps.len() ==> !(#[trigger] steps[i] is Upsert),
{
    let names = names_of_described(jobs);
    let vocab = TagVocabulary::build(&names, config.rank, config.policy);
    let ghost tagset = namespace_tags(jobs@, config.rank as nat, config.policy);
    let mut steps: Vec<Step> = Vec::new();
    let mut i: usize = 0;
    while i < jobs.len()
        invariant
            i <= jobs.len(),
            steps.len() == i,
            vocab@.dom() == tagset,
            forall|j: int|
                0 <= j < i ==> (#[trigger] steps[j])@ == planned(
                    jobs[j],
                    tagset,
                    config.dry_run,
                    config.defaults@,
                ),
        decreases jobs.len() - i,
    {
        let step = match jobs[i].identity() {
            Some((name, schedule)) => {
                let tags = tag_string(name, &vocab);
                if config.dry_run {
                    Step::Preview { name: name.to_owned(), tags }
                } else {
                    Step::Upsert(desired_check(name, schedule, tags, &config.defaults))
                }
            },
            None => Step::Skip,
        };
        steps.push(step);
        i = i + 1;
    }
    steps
}

/// What the service's answer does to one job. A job without a descriptor is
/// absent, and in a dry run a job is never more than previewed; without an
/// identifier the job has failed. In all these cases the job is left as it
/// is. Otherwise the job's containers are annotated under the configured
/// key: the job is dirty if a container was written to, and unchanged if
/// none was or no key is configured.
pub fn settle(job: &mut JobDefinition, outcome: &Reconciled, config: &RunConfig) -> (state:
    JobState)
    ensures
        settled(*old(job), *final(job), state, *outcome, *config),
{
    if job.identity().is_none() {
        return JobState::Absent;
    }
    if config.dry_run {
        return JobState::Dry;
    }
    let id: &str = match outcome {
        Reconciled::Created(id) => id.as_str(),
        Reconciled::Updated(id) => id.as_str(),
        Reconciled::Failed => {
            return JobState::Failed;
        },
    };
    let key: &str = match &config.env_key {
        Some(key) => key.as_str(),
        None => {
            return JobState::Unchanged;
        },
    };
    match describe(job) {
        Some(descriptor) => {
            if annotate(descriptor.containers, Some(key), id) {
                JobState::Dirty
            } else {
                JobState::Unchanged
            }
        },
        None => JobState::Absent,
    }
}

/// How a job and its state stand once the service has answered.
pub open spec fn settled(
    before: JobDefinition,
    after: JobDefinition,
    state: JobState,
    outcome: Reconciled,
    config: RunConfig,
) -> bool {
    if !before.is_complete() {
        state == JobState::Absent && after == before
    } else if config.dry_run {
        state == JobState::Dry && after == before
    } else {
        match (outcome, config.env_key) {
            (Reconciled::Failed, _) => state == JobState::Failed && after == before,
            (_, None) => state == JobState::Unchanged && after == before,
            (Reconciled::Created(id), Some(key)) => annotated_job(before, after, state, key@, id@),
            (Reconciled::Updated(id), Some(key)) => annotated_job(before, after, state, key@, id@),
        }
    }
}

/// How a job with a descriptor and its state stand after annotation with
/// `key = id`: name and schedule are as before, every container's
/// environment is annotated, and the job is dirty unless every environment
/// was up to date, in which case its containers are as before.
pub open spec fn annotated_job(
    before: JobDefinition,
    after: JobDefinition,
    state: JobState,
    key: Seq<char>,
    id: Seq<char>,
) -> bool {
    let envs = environments(before.spec_containers()@);
    &&& after.is_complete()
    &&& after.name == before.name
    &&& after.spec->0.schedule == before.spec->0.schedule
    &&& environments(after.spec_containers()@) == all_annotated(envs, key, id)
    &&& state == if all_up_to_date(envs, key, id) {
        JobState::Unchanged
    } else {
        JobState::Dirty
    }
    &&& state == JobState::Unchanged ==> after.spec_containers()@ == before.spec_containers()@
}

/// The jobs to write back: the positions of the dirty jobs, in the order of
/// the list, each once. No other job is written back.
pub fn write_back_order(states: &Vec<JobState>) -> (order: Vec<usize>)
    ensures
        forall|k: int|
            0 <= k < order.len() ==> (#[trigger] order[k]) < states.len()
                && states[order[k] as int] is Dirty,
        forall|k: int, m: int| 0 <= k < m < order.len() ==> order[k] < order[m],
        forall|i: int|
            0 <= i < states.len() && (#[trigger] states[i]) is Dirty ==> order@.contains(
                i as usize,
            ),
{
    let mut order: Vec<usize> = Vec::new();
    let mut i: usize = 0;
    while i < states.len()
        invariant
            i <= states.len(),
            forall|k: int|
                0 <= k < order.len() ==> (#[trigger] order[k]) < i
                    && states[order[k] as int] is Dirty,
            forall|k: int, m: int| 0 <= k < m < order.len() ==> order[k] < order[m],
            forall|j: int|
                0 <= j < i && (#[trigger] states[j]) is Dirty ==> order@.contains(j as usize),
        decreases states.len() - i,
    {
        let ghost before = order@;
        match states[i] {
            JobState::Dirty => {
                order.push(i);
                assert(order@[before.len() as int] == i);
            },
            _ => {},
        }
        assert forall|j: int|
            0 <= j < i + 1 && (#[trigger] states[j]) is Dirty implies order@.contains(
            j as usize,
        ) by {
            if j < i {
                assert(before.contains(j as usize));
                let at = choose|at: int| 0 <= at < before.len() && before[at] == j as usize;
                assert(order@[at] == j as usize);
            }
        }
        i = i + 1;
    }
    order
}

/// Whether the cluster has refused a job of the list.
pub open spec fn write_back_failed(states: Seq<JobState>) -> bool {
    exists|i: int| 0 <= i < states.len() && #[trigger] states[i] == (JobState::WrittenBack {
        ok: false,
    })
}

/// The job to hand to the cluster next: the first dirty job of the list. Once
/// the cluster has refused a job no further job is handed over, and when no
/// dirty job is left the write-backs are done.
pub fn next_write_back(states: &Vec<JobState>) -> (next: Option<usize>)
    ensures
        match next {
            Some(i) => {
                &&& i < states.len()
                &&& states[i as int] is Dirty
                &&& forall|j: int| 0 <= j < i ==> !(#[trigger] states[j] is Dirty)
                &&& !write_back_failed(states@)
            },
            None => write_back_failed(states@) || forall|j: int|
                0 <= j < states.len() ==> !(#[trigger] states[j] is Dirty),
        },
{
    let mut first: Option<usize> = None;
    let mut i: usize = 0;
    while i < states.len()
        invariant
            i <= states.len(),
            forall|j: int|
                0 <= j < i ==> #[trigger] states[j] != (JobState::WrittenBack { ok: false }),
            match first {
                Some(k) => k < i && states[k as int] is Dirty && forall|j: int|
                    0 <= j < k ==> !(#[trigger] states[j] is Dirty),
                None => forall|j: int| 0 <= j < i ==> !(#[trigger] states[j] is Dirty),
            },
        decreases states.len() - i,
    {
        match states[i] {
            JobState::WrittenBack { ok: false } => {
                return None;
            },
            JobState::Dirty => {
                if first.is_none() {
                    first = Some(i);
                }
            },
            _ => {},
        }
        i = i + 1;
    }
    first
}

/// Two lists of jobs that agree, job by job, on whether there is a
/// descriptor and on its name, give the same names.
pub proof fn lemma_names_depend_on_identity(a: Seq<JobDefinition>, b: Seq<JobDefinition>)
    requires
        a.len() == b.len(),
        forall|k: int| 0 <= k < a.len() ==> same_identity(#[trigger] a[k], b[k]),
    ensures
        described_names(a) == described_names(b),
    decreases a.len(),
{
    reveal(Seq::filter);
    if a.len() > 0 {
        let a0 = a.drop_last();
        let b0 = b.drop_last();
        assert forall|k: int| 0 <= k < a0.len() implies same_identity(#[trigger] a0[k], b0[k]) by {
            assert(same_identity(a[k], b[k]));
        }
        lemma_names_depend_on_identity(a0, b0);
        assert(same_identity(a[a.len() - 1], b[a.len() - 1]));
        a0.lemma_filter_push(a.last(), complete());
        b0.lemma_filter_push(b.last(), complete());
        assert(a0.push(a.last()) =~= a);
        assert(b0.push(b.last()) =~= b);
        let fa = a0.filter(complete());
        let fb = b0.filter(complete());
        assert(described_names(a0).len() == fa.len());
        assert(described_names(b0).len() == fb.len());
        assert forall|k: int| 0 <= k < fa.len() implies fa[k].spec_name() == fb[k].spec_name() by {
            assert(described_names(a0)[k] == fa[k].spec_name());
            assert(described_names(b0)[k] == fb[k].spec_name());
        }
        assert(described_names(a) =~= described_names(b));
    } else {
        assert(described_names(a) =~= described_names(b));
    }
}

/// Whether two definitions agree on having a descriptor and, where they
/// have one, on its name and schedule.
pub open spec fn same_identity(a: JobDefinition, b: JobDefinition) -> bool {
    &&& a.is_complete() == b.is_complete()
    &&& a.is_complete() ==> a.spec_name() == b.spec_name() && a.spec_schedule()
        == b.spec_schedule()
}

/// The plan looks at names and schedules only. Two lists of jobs that
/// differ in nothing but their containers get the same steps, so a second
/// run over jobs that the first run annotated asks the service for the
/// same checks under the same names.
pub proof fn lemma_plan_ignores_containers(
    a: Seq<JobDefinition>,
    b: Seq<JobDefinition>,
    rank: nat,
    policy: ThresholdPolicy,
    dry_run: bool,
    defaults: CheckDefaultsView,
    i: int,
)
    requires
        a.len() == b.len(),
        forall|k: int| 0 <= k < a.len() ==> same_identity(#[trigger] a[k], b[k]),
        0 <= i < a.len(),
    ensures
        planned(a[i], namespace_tags(a, rank, policy), dry_run, defaults) == planned(
            b[i],
            namespace_tags(b, rank, policy),
            dry_run,
            defaults,
        ),
{
    lemma_names_depend_on_identity(a, b);
    assert(same_identity(a[i], b[i]));
}

/// The identifier that reconciliation obtained, if it obtained one.
pub open spec fn obtained(outcome: Reconciled) -> Option<Seq<char>> {
    match outcome {
        Reconciled::Created(id) => Some(id@),
        Reconciled::Updated(id) => Some(id@),
        Reconciled::Failed => None,
    }
}

/// A second run finds nothing to write: a job that one run has annotated is
/// unchanged in the next run that obtains the same identifier under the same
/// settings, and its containers stay as the first run left them.
pub proof fn lemma_second_run_reports_unchanged(
    before: JobDefinition,
    between: JobDefinition,
    after: JobDefinition,
    first_state: JobState,
    second_state: JobState,
    first: Reconciled,
    second: Reconciled,
    config: RunConfig,
)
    requires
        settled(before, between, first_state, first, config),
        settled(between, after, second_state, second, config),
        first_state == JobState::Dirty || first_state == JobState::Unchanged,
        obtained(second) == obtained(first),
    ensures
        second_state == JobState::Unchanged,
        after.spec_containers()@ == between.spec_containers()@,
{
    if config.env_key is Some {
        let key = config.env_key->0@;
        let id = obtained(first)->0;
        lemma_second_run_is_clean(environments(before.spec_containers()@), key, id);
    }
}

} // verus!

//! The part of a scheduled job's definition that reconciliation reads and
//! writes: its name, its schedule, and the environment of its containers.

use vstd::prelude::*;

verus! {

/// One environment entry of a container as contracts see it.
pub struct EnvEntry {
    pub key: Seq<char>,
    pub value: Option<Seq<char>>,
}

/// One environment entry of a container. An entry whose value comes from
/// elsewhere than a literal has no value here.
#[derive(Clone, Debug, PartialEq, Eq)]
pub struct EnvVar {
    pub name: String,
    pub value: Option<String>,
}

impl View for EnvVar {
    type V = EnvEntry;

    open spec fn view(&self) -> EnvEntry {
        EnvEntry {
            key: self.name@,
            value: match self.value {
                Some(text) => Some(text@),
                None => None,
            },
        }
    }
}

/// A container of a job: its environment entries in order. A container
/// without an environment list has no entries.
#[derive(Clone, Debug, PartialEq, Eq)]
pub struct Container {
    pub env: Vec<EnvVar>,
}

impl View for Container {
    type V = Seq<EnvEntry>;

    open spec fn view(&self) -> Seq<EnvEntry> {
        Seq::new(self.env@.len(), |i: int| self.env@[i]@)
    }
}

/// The pod that a job runs.
#[derive(Clone, Debug, PartialEq, Eq)]
pub struct PodSpec {
    pub containers: Vec<Container>,
}

/// The job that a schedule starts.
#[derive(Clone, Debug, PartialEq, Eq)]
pub struct JobSpec {
    pub pod: Option<PodSpec>,
}

/// What a scheduled job runs and when.
#[derive(Clone, Debug, PartialEq, Eq)]
pub struct CronSpec {
    pub schedule: Option<String>,
    pub job: Option<JobSpec>,
}

/// A scheduled job as the cluster hands it out. Any part may be missing.
#[derive(Clone, Debug, PartialEq, Eq)]
pub struct JobDefinition {
    pub name: Option<String>,
    pub spec: Option<CronSpec>,
}

/// A view into one job definition: its name, its schedule, and its
/// containers, which can be changed in place.
pub struct JobDescriptor<'a> {
    pub name: &'a str,
    pub schedule: &'a str,
    pub containers: &'a mut Vec<Container>,
}

impl JobDefinition {
    /// Whether the definition has every part that a descriptor needs: a name,
    /// a specification with a schedule, a job specification and a pod
    /// specification.
    pub open spec fn is_complete(&self) -> bool {
        &&& self.name is Some
        &&& self.spec is Some
        &&& self.spec->0.schedule is Some
        &&& self.spec->0.job is Some
        &&& self.spec->0.job->0.pod is Some
    }

    /// The name of a complete definition.
    pub open spec fn spec_name(&self) -> Seq<char>
        recommends
            self.is_complete(),
    {
        self.name->0@
    }

    /// The schedule of a complete definition.
    pub open spec fn spec_schedule(&self) -> Seq<char>
        recommends
            self.is_complete(),
    {
        self.spec->0.schedule->0@
    }

    /// The containers of a complete definition.
    pub open spec fn spec_containers(&self) -> Vec<Container>
        recommends
            self.is_complete(),
    {
        self.spec->0.job->0.pod->0.containers
    }

    /// The complete definition with other containers in place of its own.
    pub open spec fn with_containers(&self, containers: Vec<Container>) -> JobDefinition
        recommends
            self.is_complete(),
    {
        JobDefinition {
            name: self.name,
            spec: Some(
                CronSpec {
                    schedule: self.spec->0.schedule,
                    job: Some(JobSpec { pod: Some(PodSpec { containers }) }),
                },
            ),
        }
    }

    /// The name and the schedule of the job, unless a part of the definition
    /// is missing.
    pub fn identity(&self) -> (found: Option<(&str, &str)>)
        ensures
            found is Some == self.is_complete(),
            found matches Some(pair) ==> pair.0@ == self.spec_name() && pair.1@
                == self.spec_schedule(),
    {
        let name: &str = match &self.name {
            Some(name) => name.as_str(),
            None => {
                return None;
            },
        };
        let spec = match &self.spec {
            Some(spec) => spec,
            None => {
                return None;
            },
        };
        let schedule: &str = match &spec.schedule {
            Some(schedule) => schedule.as_str(),
            None => {
                return None;
            },
        };
        match &spec.job {
            Some(job) => match &job.pod {
                Some(_) => Some((name, schedule)),
                None => None,
            },
            None => None,
        }
    }
}

/// The descriptor of a job: its name, its schedule and its containers. There
/// is none when the name, the specification, the schedule, the job
/// specification or the pod specification is missing; the definition is then
/// left as it is. What is done to the descriptor's containers is done to the
/// definition's.
pub fn describe(job: &mut JobDefinition) -> (found: Option<JobDescriptor<'_>>)
    ensures
        found is Some == old(job).is_complete(),
        found is None ==> *final(job) == *old(job),
        found matches Some(descriptor) ==> {
            &&& descriptor.name@ == old(job).spec_name()
            &&& descriptor.schedule@ == old(job).spec_schedule()
            &&& *descriptor.containers == old(job).spec_containers()
            &&& *final(job) == old(job).with_containers(*final(descriptor.containers))
        },
{
    let JobDefinition { name, spec } = job;
    let name: &str = match name {
        Some(name) => name.as_str(),
        None => {
            return None;
        },
    };
    let spec = match spec {
        Some(spec) => spec,
        None => {
            return None;
        },
    };
    let CronSpec { schedule, job: inner } = spec;
    let schedule: &str = match schedule {
        Some(schedule) => schedule.as_str(),
        None => {
            return None;
        },
    };
    let inner = match inner {
        Some(inner) => inner,
        None => {
            return None;
        },
    };
    let pod = match &mut inner.pod {
        Some(pod) => pod,
        None => {
            return None;
        },
    };
    Some(JobDescriptor { name, schedule, containers: &mut pod.containers })
}

} // verus!
